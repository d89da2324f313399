//! G-code of Cura: `;MESH:<name>` closes the object before and opens the named one
//! (`NONMESH` marks what is no object), and `;TIME_ELAPSED:...` closes it.
use super::super::lines::{doc_len, lemma_prefix_len_mono, line_end, lines_view, prefix_len};
use super::super::object_tracker::{
    closed_at, empty_model, end_model, lemma_end_closes, ActiveModel, extrude_model, header_offset, last_comment, lemma_spans_within_grow,
    lemma_spans_within_steps, model_wf, spans_within, start_model,
    ObjectTracker, TrackerModel,
};
use super::super::parser::{extrude_move_in, extrude_text};
use super::{
    already_marked, comment_after, comment_after_in, fails_as, is_already_marked, Failure, Scan,
};
use crate::error::Error;
use crate::patch::{HunkModel, Patch};
use crate::text::{chars_of, equals_in, string_of, trim, trim_bounds};
use vstd::prelude::*;

verus! {

/// What Cura's G-code does to the tracker from line `i` on (`points[i]` is the point of
/// line `i` if it extrudes).
pub open spec fn cura_run<P>(
    lines: Seq<Seq<char>>,
    points: Seq<Option<P>>,
    i: int,
    m: TrackerModel<P>,
) -> Result<TrackerModel<P>, Failure>
    decreases lines.len() - i,
{
    if i < 0 || i >= lines.len() {
        Ok(m)
    } else {
        let line = lines[i];
        let pos = prefix_len(lines, i + 1) as u64;
        if already_marked(line) {
            Err(Failure::AlreadySupported)
        } else {
            match comment_after(line, "MESH:"@) {
                Some(rest) => {
                    let m1 = end_model(m, pos);
                    if rest != "NONMESH"@ {
                        match start_model(m1, trim(rest), pos) {
                            Ok(m2) => cura_run(lines, points, i + 1, m2),
                            Err(k) => Err(Failure::Unclosed(k)),
                        }
                    } else {
                        cura_run(lines, points, i + 1, m1)
                    }
                },
                None => if comment_after(line, "TIME_ELAPSED"@) is Some {
                    cura_run(lines, points, i + 1, end_model(m, pos))
                } else if extrude_text(line) is Some {
                    cura_run(lines, points, i + 1, extrude_model(m, points[i]))
                } else {
                    cura_run(lines, points, i + 1, m)
                },
            }
        }
    }
}

/// Reads Cura's G-code, given as its lines, with `points[i]` the point of line `i` when
/// it extrudes (nothing for a retraction).
pub fn format_patch<P: Copy>(lines: &Vec<String>, points: &Vec<Option<P>>) -> (r: Result<
    Scan<P>,
    Error,
>)
    requires
        points@.len() == lines@.len(),
        doc_len(lines_view(lines@)) <= u64::MAX,
    ensures
        match cura_run(lines_view(lines@), points@, 0, empty_model()) {
            Ok(m) => r matches Ok(s) && s.tracker@ == m && s.patch@ == Seq::<HunkModel>::empty()
                && s.header_pos == header_offset(lines_view(lines@)) && model_wf(m) && spans_within(
                m,
                doc_len(lines_view(lines@)),
            ),
            Err(f) => r matches Err(e) && fails_as(e, f),
        },
{
    let ghost ls = lines_view(lines@);
    let mut tracker: ObjectTracker<P> = ObjectTracker::new();
    let nonmesh = chars_of("NONMESH");
    let mut pos: u64 = 0;
    let mut i: usize = 0;
    while i < lines.len()
        invariant
            ls == lines_view(lines@),
            points@.len() == lines@.len(),
            doc_len(ls) <= u64::MAX,
            i <= lines@.len(),
            pos == prefix_len(ls, i as int),
            model_wf(tracker@),
            spans_within(tracker@, pos as nat),
            nonmesh@ == "NONMESH"@,
            cura_run(ls, points@, 0, empty_model()) == cura_run(ls, points@, i as int, tracker@),
        decreases lines@.len() - i,
    {
        let ghost before = pos;
        pos = line_end(lines, i, pos);
        proof {
            lemma_prefix_len_mono(ls, i as int, i + 1);
            lemma_spans_within_grow(tracker@, before as nat, pos as nat);
        }
        let line = chars_of(lines[i].as_str());
        assert(ls[i as int] == line@);
        if is_already_marked(&line) {
            return Err(Error::AlreadySupported);
        }
        match comment_after_in(&line, "MESH:") {
            Some((a, b)) => {
                proof {
                    lemma_spans_within_steps(tracker@, pos as nat, Seq::empty(), pos, None::<P>);
                }
                tracker.end(pos);
                if !equals_in(&line, a, b, &nonmesh) {
                    let (p, q) = trim_bounds(&line, a, b);
                    let id = string_of(&line, p, q);
                    proof {
                        lemma_spans_within_steps(tracker@, pos as nat, Seq::empty(), pos, None::<P>);
                    }
                    match tracker.start(id, pos) {
                        Ok(()) => {},
                        Err(e) => {
                            return Err(e);
                        },
                    }
                }
            },
            None => {
                if comment_after_in(&line, "TIME_ELAPSED").is_some() {
                    proof {
                        lemma_spans_within_steps(tracker@, pos as nat, Seq::empty(), pos, None::<P>);
                    }
                    tracker.end(pos);
                } else if extrude_move_in(&line).is_some() {
                    proof {
                        lemma_spans_within_steps(tracker@, pos as nat, Seq::empty(), pos, points@[i as int]);
                    }
                    tracker.extrude(points[i]);
                }
            },
        }
        i = i + 1;
    }
    let header_pos = last_comment(lines);
    Ok(Scan { patch: Patch::new(), tracker, header_pos })
}

/// A file with a line that already defines objects, wherever it stands, is refused.
pub proof fn lemma_cura_marked_refused<P>(
    lines: Seq<Seq<char>>,
    points: Seq<Option<P>>,
    i: int,
    m: TrackerModel<P>,
    j: int,
)
    requires
        0 <= i <= j < lines.len(),
        already_marked(lines[j]),
    ensures
        cura_run(lines, points, i, m) == Err::<TrackerModel<P>, Failure>(Failure::AlreadySupported),
    decreases j - i,
{
    if i < j && !already_marked(lines[i]) {
        let line = lines[i];
        let pos = prefix_len(lines, i + 1) as u64;
        match comment_after(line, "MESH:"@) {
            Some(rest) => {
                let m1 = end_model(m, pos);
                if rest != "NONMESH"@ {
                    lemma_cura_marked_refused(lines, points, i + 1, start_model(m1, trim(rest), pos)->Ok_0, j);
                } else {
                    lemma_cura_marked_refused(lines, points, i + 1, m1, j);
                }
            },
            None => if comment_after(line, "TIME_ELAPSED"@) is Some {
                lemma_cura_marked_refused(lines, points, i + 1, end_model(m, pos), j);
            } else if extrude_text(line) is Some {
                lemma_cura_marked_refused(lines, points, i + 1, extrude_model(m, points[i]), j);
            } else {
                lemma_cura_marked_refused(lines, points, i + 1, m, j);
            },
        }
    }
}

/// A Cura file is never refused for an object left open: each `;MESH:` line closes the
/// object before it.
pub proof fn lemma_cura_never_unclosed<P>(lines: Seq<Seq<char>>, points: Seq<Option<P>>, i: int, m: TrackerModel<P>)
    ensures
        cura_run(lines, points, i, m) is Ok || cura_run(lines, points, i, m) == Err::<
            TrackerModel<P>,
            Failure,
        >(Failure::AlreadySupported),
    decreases lines.len() - i,
{
    if 0 <= i < lines.len() && !already_marked(lines[i]) {
        let line = lines[i];
        let pos = prefix_len(lines, i + 1) as u64;
        match comment_after(line, "MESH:"@) {
            Some(rest) => {
                let m1 = end_model(m, pos);
                if rest != "NONMESH"@ {
                    lemma_cura_never_unclosed(lines, points, i + 1, start_model(m1, trim(rest), pos)->Ok_0);
                } else {
                    lemma_cura_never_unclosed(lines, points, i + 1, m1);
                }
            },
            None => if comment_after(line, "TIME_ELAPSED"@) is Some {
                lemma_cura_never_unclosed(lines, points, i + 1, end_model(m, pos));
            } else if extrude_text(line) is Some {
                lemma_cura_never_unclosed(lines, points, i + 1, extrude_model(m, points[i]));
            } else {
                lemma_cura_never_unclosed(lines, points, i + 1, m);
            },
        }
    }
}

/// A `;MESH:<name>` line (other than `NONMESH`) closes the open object at the end of the
/// line and opens `<name>` there: the scan goes on from the next line with that object
/// open and the one before closed.
pub proof fn lemma_cura_mesh_switches<P>(lines: Seq<Seq<char>>, points: Seq<Option<P>>, i: int, m: TrackerModel<P>)
    requires
        0 <= i < lines.len(),
        model_wf(m),
        !already_marked(lines[i]),
        comment_after(lines[i], "MESH:"@) is Some,
        comment_after(lines[i], "MESH:"@)->Some_0 != "NONMESH"@,
    ensures
        exists|m2: TrackerModel<P>|
            {
                &&& cura_run(lines, points, i, m) == #[trigger] cura_run(lines, points, i + 1, m2)
                &&& closed_at(m, m2, prefix_len(lines, i + 1) as u64)
                &&& m2.active == Some(
                    ActiveModel {
                        key: trim(comment_after(lines[i], "MESH:"@)->Some_0),
                        start: prefix_len(lines, i + 1) as u64,
                        points: Seq::<P>::empty(),
                    },
                )
            },
{
    let pos = prefix_len(lines, i + 1) as u64;
    let rest = comment_after(lines[i], "MESH:"@)->Some_0;
    let m1 = end_model(m, pos);
    lemma_end_closes(m, pos);
    let m2 = start_model(m1, trim(rest), pos)->Ok_0;
    assert(cura_run(lines, points, i, m) == cura_run(lines, points, i + 1, m2));
    assert(m2.active == Some(ActiveModel { key: trim(rest), start: pos, points: Seq::<P>::empty() }));
    assert(closed_at(m, m2, pos));
}

/// A `;TIME_ELAPSED` line closes the open object at the end of the line.
pub proof fn lemma_cura_time_closes<P>(lines: Seq<Seq<char>>, points: Seq<Option<P>>, i: int, m: TrackerModel<P>)
    requires
        0 <= i < lines.len(),
        model_wf(m),
        !already_marked(lines[i]),
        comment_after(lines[i], "MESH:"@) is None,
        comment_after(lines[i], "TIME_ELAPSED"@) is Some,
    ensures
        exists|m2: TrackerModel<P>|
            {
                &&& cura_run(lines, points, i, m) == #[trigger] cura_run(lines, points, i + 1, m2)
                &&& closed_at(m, m2, prefix_len(lines, i + 1) as u64)
                &&& m2.active is None
            },
{
    let pos = prefix_len(lines, i + 1) as u64;
    lemma_end_closes(m, pos);
    assert(cura_run(lines, points, i, m) == cura_run(lines, points, i + 1, end_model(m, pos)));
}

} // verus!
