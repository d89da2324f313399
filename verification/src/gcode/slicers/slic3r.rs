//! G-code of Slic3r, PrusaSlicer and SuperSlicer: `; printing object <name>` opens an
//! object and `; stop printing object ...` closes it.
use super::super::lines::{doc_len, lemma_prefix_len_mono, line_end, lines_view, prefix_len};
use super::super::object_tracker::{
    closed_at, empty_model, end_model, lemma_end_closes, ActiveModel, extrude_model, header_offset, last_comment, lemma_spans_within_grow,
    lemma_spans_within_steps, model_wf, spans_within, start_model,
    ObjectTracker, TrackerModel,
};
use super::super::parser::{extrude_move_in, extrude_text};
use super::{already_marked, comment_after, comment_after_in, fails_as, is_already_marked, Failure, Scan};
use crate::error::Error;
use crate::patch::{HunkModel, Patch};
use crate::text::{chars_of, string_of, trim, trim_bounds};
use vstd::prelude::*;

verus! {

/// What Slic3r's G-code does to the tracker from line `i` on (`points[i]` is the point of
/// line `i` if it extrudes).
pub open spec fn slic3r_run<P>(
    lines: Seq<Seq<char>>,
    points: Seq<Option<P>>,
    i: int,
    m: TrackerModel<P>,
) -> Result<TrackerModel<P>, Failure>
    decreases lines.len() - i,
{
    if i < 0 || i >= lines.len() {
        Ok(m)
    } else {
        let line = lines[i];
        let pos = prefix_len(lines, i + 1) as u64;
        if already_marked(line) {
            Err(Failure::AlreadySupported)
        } else {
            match comment_after(line, "printing object"@) {
                Some(rest) => match start_model(m, trim(rest), pos) {
                    Ok(m2) => slic3r_run(lines, points, i + 1, m2),
                    Err(k) => Err(Failure::Unclosed(k)),
                },
                None => if comment_after(line, "stop printing"@) is Some {
                    slic3r_run(lines, points, i + 1, end_model(m, pos))
                } else if extrude_text(line) is Some {
                    slic3r_run(lines, points, i + 1, extrude_model(m, points[i]))
                } else {
                    slic3r_run(lines, points, i + 1, m)
                },
            }
        }
    }
}

/// Reads Slic3r's G-code, given as its lines, with `points[i]` the point of line `i`
/// when it extrudes (nothing for a retraction).
pub fn format_patch<P: Copy>(lines: &Vec<String>, points: &Vec<Option<P>>) -> (r: Result<
    Scan<P>,
    Error,
>)
    requires
        points@.len() == lines@.len(),
        doc_len(lines_view(lines@)) <= u64::MAX,
    ensures
        match slic3r_run(lines_view(lines@), points@, 0, empty_model()) {
            Ok(m) => r matches Ok(s) && s.tracker@ == m && s.patch@ == Seq::<HunkModel>::empty()
                && s.header_pos == header_offset(lines_view(lines@)) && model_wf(m) && spans_within(
                m,
                doc_len(lines_view(lines@)),
            ),
            Err(f) => r matches Err(e) && fails_as(e, f),
        },
{
    let ghost ls = lines_view(lines@);
    let mut tracker: ObjectTracker<P> = ObjectTracker::new();
    let mut pos: u64 = 0;
    let mut i: usize = 0;
    while i < lines.len()
        invariant
            ls == lines_view(lines@),
            points@.len() == lines@.len(),
            doc_len(ls) <= u64::MAX,
            i <= lines@.len(),
            pos == prefix_len(ls, i as int),
            model_wf(tracker@),
            spans_within(tracker@, pos as nat),
            slic3r_run(ls, points@, 0, empty_model()) == slic3r_run(ls, points@, i as int, tracker@),
        decreases lines@.len() - i,
    {
        let ghost before = pos;
        pos = line_end(lines, i, pos);
        proof {
            lemma_prefix_len_mono(ls, i as int, i + 1);
            lemma_spans_within_grow(tracker@, before as nat, pos as nat);
        }
        let line = chars_of(lines[i].as_str());
        assert(ls[i as int] == line@);
        if is_already_marked(&line) {
            return Err(Error::AlreadySupported);
        }
        match comment_after_in(&line, "printing object") {
            Some((a, b)) => {
                let (p, q) = trim_bounds(&line, a, b);
                let id = string_of(&line, p, q);
                proof {
                    lemma_spans_within_steps(tracker@, pos as nat, Seq::empty(), pos, None::<P>);
                }
                match tracker.start(id, pos) {
                    Ok(()) => {},
                    Err(e) => {
                        return Err(e);
                    },
                }
            },
            None => {
                if comment_after_in(&line, "stop printing").is_some() {
                    proof {
                        lemma_spans_within_steps(tracker@, pos as nat, Seq::empty(), pos, None::<P>);
                    }
                    tracker.end(pos);
                } else if extrude_move_in(&line).is_some() {
                    proof {
                        lemma_spans_within_steps(tracker@, pos as nat, Seq::empty(), pos, points@[i as int]);
                    }
                    tracker.extrude(points[i]);
                }
            },
        }
        i = i + 1;
    }
    let header_pos = last_comment(lines);
    Ok(Scan { patch: Patch::new(), tracker, header_pos })
}

/// A file with a line that already defines objects, wherever it stands, is refused: as
/// already prepared, or for an object left open before that line.
pub proof fn lemma_slic3r_marked_refused<P>(
    lines: Seq<Seq<char>>,
    points: Seq<Option<P>>,
    i: int,
    m: TrackerModel<P>,
    j: int,
)
    requires
        0 <= i <= j < lines.len(),
        already_marked(lines[j]),
    ensures
        slic3r_run(lines, points, i, m) matches Err(f) && (f is AlreadySupported || f is Unclosed),
    decreases j - i,
{
    if i < j && !already_marked(lines[i]) {
        let line = lines[i];
        let pos = prefix_len(lines, i + 1) as u64;
        match comment_after(line, "printing object"@) {
            Some(rest) => match start_model(m, trim(rest), pos) {
                Ok(m2) => lemma_slic3r_marked_refused(lines, points, i + 1, m2, j),
                Err(k) => {},
            },
            None => if comment_after(line, "stop printing"@) is Some {
                lemma_slic3r_marked_refused(lines, points, i + 1, end_model(m, pos), j);
            } else if extrude_text(line) is Some {
                lemma_slic3r_marked_refused(lines, points, i + 1, extrude_model(m, points[i]), j);
            } else {
                lemma_slic3r_marked_refused(lines, points, i + 1, m, j);
            },
        }
    }
}

/// A `; stop printing ...` line closes the open object at the end of the line.
pub proof fn lemma_slic3r_stop_closes<P>(lines: Seq<Seq<char>>, points: Seq<Option<P>>, i: int, m: TrackerModel<P>)
    requires
        0 <= i < lines.len(),
        model_wf(m),
        !already_marked(lines[i]),
        comment_after(lines[i], "printing object"@) is None,
        comment_after(lines[i], "stop printing"@) is Some,
    ensures
        exists|m2: TrackerModel<P>|
            {
                &&& slic3r_run(lines, points, i, m) == #[trigger] slic3r_run(lines, points, i + 1, m2)
                &&& closed_at(m, m2, prefix_len(lines, i + 1) as u64)
                &&& m2.active is None
            },
{
    let pos = prefix_len(lines, i + 1) as u64;
    lemma_end_closes(m, pos);
    assert(slic3r_run(lines, points, i, m) == slic3r_run(lines, points, i + 1, end_model(m, pos)));
}

/// A `; printing object <name>` line opens `<name>` at the end of the line when no object
/// is open, and is refused, naming the open object, when one is.
pub proof fn lemma_slic3r_printing_opens<P>(lines: Seq<Seq<char>>, points: Seq<Option<P>>, i: int, m: TrackerModel<P>)
    requires
        0 <= i < lines.len(),
        !already_marked(lines[i]),
        comment_after(lines[i], "printing object"@) is Some,
    ensures
        m.active matches Some(a) ==> slic3r_run(lines, points, i, m) == Err::<TrackerModel<P>, Failure>(
            Failure::Unclosed(a.key),
        ),
        m.active is None ==> slic3r_run(lines, points, i, m) == slic3r_run(
            lines,
            points,
            i + 1,
            TrackerModel {
                keys: m.keys,
                objects: m.objects,
                active: Some(
                    ActiveModel {
                        key: trim(comment_after(lines[i], "printing object"@)->Some_0),
                        start: prefix_len(lines, i + 1) as u64,
                        points: Seq::<P>::empty(),
                    },
                ),
            },
        ),
{
}

} // verus!
