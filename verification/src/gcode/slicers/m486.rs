//! G-code with `M486` commands: each `M486` line is turned into a comment, `M486 S<n>`
//! closes the object before and opens object `<n>`, and the last object is closed at
//! the end of the file.
use super::super::lines::{doc_len, lemma_prefix_len_mono, line_end, lines_view, prefix_len};
use super::super::object_tracker::{
    closed_at, empty_model, end_model, lemma_end_closes, ActiveModel, extrude_model, first_code_line, header_offset, last_comment, lemma_model_wf_steps,
    lemma_object_hunks_insertions, lemma_object_hunks_ordered, lemma_on_lines_steps, object_hunks, on_lines,
    spans_on_lines, start_line, end_line, lemma_spans_within_grow,
    lemma_spans_within_steps, model_wf, spans_within, start_model,
    ObjectTracker, TrackerModel,
};
use super::super::parser::{comment_text, extrude_move_in, extrude_text, m486_command, m486_parse, M486};
use super::{already_marked, fails_as, is_already_marked, Failure, Scan};
use crate::error::Error;
use crate::patch::{
    by_position, clear_after, lemma_by_position_total, lemma_in_order_after_replace, lemma_clear_patch_applies, lemma_same_position_in_added_order,
    position_of, HunkModel, Patch,
};
use crate::sort::{
    lemma_sort_by_contains, lemma_sort_by_sorted, lemma_with_key_add, lemma_with_key_from, lemma_with_key_index,
    lemma_with_key_none, lemma_with_key_take_grows, sort_by, with_key,
};
use crate::text::{chars_of, int_text, int_to_text, lemma_skip_spaces_ge, skip_spaces};
use vstd::utf8::{encode_scalar, encode_utf8};
use vstd::prelude::*;

verus! {

/// What G-code with `M486` commands does to the tracker and to the edits from line `i`
/// on (`points[i]` is the point of line `i` if it extrudes).
pub open spec fn m486_run<P>(
    lines: Seq<Seq<char>>,
    points: Seq<Option<P>>,
    i: int,
    m: TrackerModel<P>,
    edits: Seq<HunkModel>,
) -> Result<(TrackerModel<P>, Seq<HunkModel>), Failure>
    decreases lines.len() - i,
{
    if i < 0 || i >= lines.len() {
        Ok((end_model(m, doc_len(lines) as u64), edits))
    } else {
        let line = lines[i];
        let prev = prefix_len(lines, i) as u64;
        let pos = prefix_len(lines, i + 1) as u64;
        if already_marked(line) {
            Err(Failure::AlreadySupported)
        } else {
            match m486_command(line) {
                Some(c) => {
                    let e2 = edits.push(HunkModel::Replace(prev, pos, "; "@ + line));
                    match c {
                        M486::S(n) => match start_model(end_model(m, pos), int_text(n as int), pos) {
                            Ok(m2) => m486_run(lines, points, i + 1, m2, e2),
                            Err(k) => Err(Failure::Unclosed(k)),
                        },
                        M486::T => m486_run(lines, points, i + 1, m, e2),
                    }
                },
                None => if extrude_text(line) is Some {
                    m486_run(lines, points, i + 1, extrude_model(m, points[i]), edits)
                } else {
                    m486_run(lines, points, i + 1, m, edits)
                },
            }
        }
    }
}

/// The edits that the `M486` lines from line `i` on call for: each is replaced by itself
/// behind `; `, in the order of the file.
pub open spec fn m486_edits(lines: Seq<Seq<char>>, i: int) -> Seq<HunkModel>
    decreases lines.len() - i,
{
    if i < 0 || i >= lines.len() {
        seq![]
    } else if m486_command(lines[i]) is Some {
        seq![
            HunkModel::Replace(
                prefix_len(lines, i) as u64,
                prefix_len(lines, i + 1) as u64,
                "; "@ + lines[i],
            ),
        ] + m486_edits(lines, i + 1)
    } else {
        m486_edits(lines, i + 1)
    }
}

/// The edits of a successful scan of G-code with `M486` commands are exactly the `M486`
/// lines turned into comments, in the order of the file.
pub proof fn lemma_m486_edits<P>(
    lines: Seq<Seq<char>>,
    points: Seq<Option<P>>,
    i: int,
    m: TrackerModel<P>,
    edits: Seq<HunkModel>,
)
    requires
        0 <= i,
        m486_run(lines, points, i, m, edits) is Ok,
    ensures
        m486_run(lines, points, i, m, edits)->Ok_0.1 == edits + m486_edits(lines, i),
    decreases lines.len() - i,
{
    if i >= lines.len() {
        assert(edits + m486_edits(lines, i) =~= edits);
    } else {
        let line = lines[i];
        let prev = prefix_len(lines, i) as u64;
        let pos = prefix_len(lines, i + 1) as u64;
        match m486_command(line) {
            Some(c) => {
                let e2 = edits.push(HunkModel::Replace(prev, pos, "; "@ + line));
                match c {
                    M486::S(n) => {
                        let m2 = start_model(end_model(m, pos), int_text(n as int), pos)->Ok_0;
                        lemma_m486_edits(lines, points, i + 1, m2, e2);
                    },
                    M486::T => {
                        lemma_m486_edits(lines, points, i + 1, m, e2);
                    },
                }
                assert(e2 + m486_edits(lines, i + 1) =~= edits + m486_edits(lines, i));
            },
            None => {
                if extrude_text(line) is Some {
                    lemma_m486_edits(lines, points, i + 1, extrude_model(m, points[i]), edits);
                } else {
                    lemma_m486_edits(lines, points, i + 1, m, edits);
                }
            },
        }
    }
}

/// Reads G-code with `M486` commands, given as its lines, with `points[i]` the point of
/// line `i` when it extrudes (nothing for a retraction).
pub fn format_patch<P: Copy>(lines: &Vec<String>, points: &Vec<Option<P>>) -> (r: Result<
    Scan<P>,
    Error,
>)
    requires
        points@.len() == lines@.len(),
        doc_len(lines_view(lines@)) <= u64::MAX,
    ensures
        match m486_run(lines_view(lines@), points@, 0, empty_model(), Seq::<HunkModel>::empty()) {
            Ok((m, edits)) => r matches Ok(s) && s.tracker@ == m && s.patch@ == edits
                && s.header_pos == header_offset(lines_view(lines@)) && model_wf(m) && spans_within(
                m,
                doc_len(lines_view(lines@)),
            ),
            Err(f) => r matches Err(e) && fails_as(e, f),
        },
{
    let ghost ls = lines_view(lines@);
    let mut tracker: ObjectTracker<P> = ObjectTracker::new();
    let mut patch = Patch::new();
    let mut prev: u64 = 0;
    let mut i: usize = 0;
    while i < lines.len()
        invariant
            ls == lines_view(lines@),
            points@.len() == lines@.len(),
            doc_len(ls) <= u64::MAX,
            i <= lines@.len(),
            prev == prefix_len(ls, i as int),
            model_wf(tracker@),
            spans_within(tracker@, prev as nat),
            m486_run(ls, points@, 0, empty_model(), Seq::<HunkModel>::empty()) == m486_run(
                ls,
                points@,
                i as int,
                tracker@,
                patch@,
            ),
        decreases lines@.len() - i,
    {
        let pos = line_end(lines, i, prev);
        proof {
            lemma_prefix_len_mono(ls, i as int, i + 1);
            lemma_spans_within_grow(tracker@, prev as nat, pos as nat);
        }
        let line = chars_of(lines[i].as_str());
        assert(ls[i as int] == line@);
        if is_already_marked(&line) {
            return Err(Error::AlreadySupported);
        }
        match m486_parse(&line) {
            Some(c) => {
                let mut text = "; ".to_owned();
                text.append(lines[i].as_str());
                patch.replace(prev..pos, text.as_str());
                match c {
                    M486::S(n) => {
                        proof {
                            lemma_spans_within_steps(tracker@, pos as nat, Seq::empty(), pos, None::<P>);
                        }
                        tracker.end(pos);
                        proof {
                            lemma_spans_within_steps(tracker@, pos as nat, Seq::empty(), pos, None::<P>);
                        }
                        match tracker.start(int_to_text(n), pos) {
                            Ok(()) => {},
                            Err(e) => {
                                return Err(e);
                            },
                        }
                    },
                    M486::T => {},
                }
            },
            None => {
                if extrude_move_in(&line).is_some() {
                    proof {
                        lemma_spans_within_steps(tracker@, pos as nat, Seq::empty(), pos, points@[i as int]);
                    }
                    tracker.extrude(points[i]);
                }
            },
        }
        prev = pos;
        i = i + 1;
    }
    proof {
        lemma_spans_within_steps(tracker@, prev as nat, Seq::empty(), prev, None::<P>);
    }
    tracker.end(prev);
    let header_pos = last_comment(lines);
    Ok(Scan { patch, tracker, header_pos })
}

/// The edit that turns line `j` into a comment.
pub open spec fn comment_out(lines: Seq<Seq<char>>, j: int) -> HunkModel {
    HunkModel::Replace(prefix_len(lines, j) as u64, prefix_len(lines, j + 1) as u64, "; "@ + lines[j])
}

/// An `M486` line holds at least one byte.
proof fn lemma_m486_line_nonempty(lines: Seq<Seq<char>>, j: int)
    requires
        0 <= j < lines.len(),
        m486_command(lines[j]) is Some,
    ensures
        prefix_len(lines, j) < prefix_len(lines, j + 1),
{
    let line = lines[j];
    lemma_skip_spaces_ge(line, 0);
    assert(line.len() > 0);
    assert(encode_utf8(line) == encode_scalar(line[0] as u32) + encode_utf8(line.drop_first()));
    assert(encode_scalar(line[0] as u32).len() >= 1);
}

/// Each edit comes from an `M486` line at or after `i0`.
proof fn lemma_m486_edits_from(lines: Seq<Seq<char>>, i0: int, k: int) -> (j: int)
    requires
        0 <= i0,
        0 <= k < m486_edits(lines, i0).len(),
    ensures
        i0 <= j < lines.len(),
        m486_command(lines[j]) is Some,
        m486_edits(lines, i0)[k] == comment_out(lines, j),
    decreases lines.len() - i0,
{
    if m486_command(lines[i0]) is Some {
        if k == 0 {
            i0
        } else {
            let j = lemma_m486_edits_from(lines, i0 + 1, k - 1);
            assert(m486_edits(lines, i0)[k] == m486_edits(lines, i0 + 1)[k - 1]);
            j
        }
    } else {
        lemma_m486_edits_from(lines, i0 + 1, k)
    }
}

/// Among the edits from line `i0` on, the one of `M486` line `j` is the only one at the
/// start of that line.
proof fn lemma_m486_edits_at(lines: Seq<Seq<char>>, i0: int, j: int)
    requires
        0 <= i0,
        0 <= j < lines.len(),
        m486_command(lines[j]) is Some,
        doc_len(lines) <= u64::MAX,
    ensures
        with_key(m486_edits(lines, i0), position_of(), prefix_len(lines, j) as int) == (if i0 <= j {
            seq![comment_out(lines, j)]
        } else {
            Seq::<HunkModel>::empty()
        }),
    decreases lines.len() - i0,
{
    let pos = position_of();
    let k = prefix_len(lines, j) as int;
    let n = lines.len() as int;
    if i0 < n {
        let rest = m486_edits(lines, i0 + 1);
        lemma_m486_edits_at(lines, i0 + 1, j);
        if m486_command(lines[i0]) is Some {
            let e = comment_out(lines, i0);
            assert(m486_edits(lines, i0) == seq![e] + rest);
            lemma_with_key_add(seq![e], rest, pos, k);
            lemma_prefix_len_mono(lines, i0 + 1, n);
            lemma_prefix_len_mono(lines, j + 1, n);
            lemma_m486_line_nonempty(lines, i0);
            lemma_m486_line_nonempty(lines, j);
            assert(seq![e].drop_last() =~= Seq::<HunkModel>::empty());
            assert(seq![e].last() == e);
            assert(with_key(Seq::<HunkModel>::empty(), pos, k) == Seq::<HunkModel>::empty());
            assert(pos(e) == prefix_len(lines, i0));
            if i0 == j {
                assert(with_key(seq![e], pos, k) =~= seq![e]);
                assert(seq![e] + Seq::<HunkModel>::empty() =~= seq![e]);
            } else {
                if i0 < j {
                    lemma_prefix_len_mono(lines, i0 + 1, j);
                } else {
                    lemma_prefix_len_mono(lines, j + 1, i0);
                }
                assert(with_key(seq![e], pos, k) =~= Seq::<HunkModel>::empty());
                assert(Seq::<HunkModel>::empty() + with_key(rest, pos, k) =~= with_key(rest, pos, k));
            }
        }
    }
}

/// Every edit turns an `M486` line into a comment.
proof fn lemma_m486_edits_contains(lines: Seq<Seq<char>>, i0: int, j: int)
    requires
        0 <= i0 <= j < lines.len(),
        m486_command(lines[j]) is Some,
    ensures
        m486_edits(lines, i0).contains(comment_out(lines, j)),
    decreases j - i0,
{
    if i0 == j {
        assert(m486_edits(lines, i0)[0] == comment_out(lines, j));
    } else {
        lemma_m486_edits_contains(lines, i0 + 1, j);
        let rest = m486_edits(lines, i0 + 1);
        let q = choose|q: int| 0 <= q < rest.len() && rest[q] == comment_out(lines, j);
        if m486_command(lines[i0]) is Some {
            assert(m486_edits(lines, i0)[q + 1] == rest[q]);
        }
    }
}

/// No definition and no marker of `hunks` falls within one of the `M486` lines.
pub open spec fn clear_of_commands(lines: Seq<Seq<char>>, hunks: Seq<HunkModel>) -> bool {
    forall|i: int, k: int|
        #![trigger m486_command(lines[i]), hunks[k]]
        0 <= i < lines.len() && m486_command(lines[i]) is Some && 0 <= k < hunks.len() ==> !(
        prefix_len(lines, i) <= hunks[k].key() < prefix_len(lines, i + 1))
}

/// The finished patch of G-code with `M486` commands applies to the file exactly when no
/// definition and no marker falls within one of the `M486` lines that the patch turns
/// into comments.
pub proof fn lemma_m486_patch_applies<P>(
    lines: Seq<Seq<char>>,
    points: Seq<Option<P>>,
    m: TrackerModel<P>,
    edits: Seq<HunkModel>,
    descs: Seq<Seq<char>>,
    header: u64,
    p: Patch,
)
    requires
        m486_run(lines, points, 0, empty_model(), Seq::<HunkModel>::empty()) == Ok::<
            (TrackerModel<P>, Seq<HunkModel>),
            Failure,
        >((m, edits)),
        p@ == edits + object_hunks(m.objects, descs, header),
        doc_len(lines) <= i64::MAX,
    ensures
        p.in_order(doc_len(lines)) <==> clear_of_commands(lines, object_hunks(m.objects, descs, header)),
        clear_of_commands(lines, object_hunks(m.objects, descs, header)) ==> p.seekable(doc_len(lines)),
{
    let n = lines.len() as int;
    let len = doc_len(lines);
    let pos = position_of();
    lemma_m486_edits(lines, points, 0, empty_model(), Seq::<HunkModel>::empty());
    assert(edits =~= m486_edits(lines, 0));
    let oh = object_hunks(m.objects, descs, header);
    lemma_object_hunks_insertions(m.objects, descs, header);
    let hs = p.ordered();
    lemma_by_position_total();
    lemma_sort_by_sorted(p@, by_position());
    if clear_of_commands(lines, oh) {
        assert forall|x: int| 0 <= x < hs.len() implies #[trigger] clear_after(hs, x, len) by {
            if hs[x] is Replace {
                assert(hs.contains(hs[x]));
                lemma_sort_by_contains(p@, by_position(), hs[x]);
                let q = choose|q: int| 0 <= q < p@.len() && p@[q] == hs[x];
                if q >= edits.len() {
                    assert(p@[q] == oh[q - edits.len()]);
                }
                let j = lemma_m486_edits_from(lines, 0, q);
                assert(hs[x] == comment_out(lines, j));
                lemma_prefix_len_mono(lines, j + 1, n);
                lemma_m486_line_nonempty(lines, j);
                let s = prefix_len(lines, j);
                let e = prefix_len(lines, j + 1);
                assert forall|y: int| x < y < hs.len() implies #[trigger] hs[y].key() >= e by {
                    assert((by_position())(hs[x], hs[y]));
                    if hs[y].key() == s {
                        lemma_same_position_in_added_order(p, s as u64);
                        lemma_with_key_add(edits, oh, pos, s as int);
                        assert forall|k: int| 0 <= k < oh.len() implies #[trigger] pos(oh[k]) != s as int by {
                            assert(m486_command(lines[j]) is Some);
                        }
                        lemma_with_key_none(oh, pos, s as int);
                        lemma_m486_edits_at(lines, 0, j);
                        assert(with_key(edits, pos, s as int) + with_key(oh, pos, s as int) =~= seq![
                            comment_out(lines, j),
                        ]);
                        assert(with_key(hs, pos, s as int).len() == 1);
                        lemma_with_key_take_grows(hs, pos, s as int, x, y);
                        lemma_with_key_index(hs, pos, s as int, y);
                        assert(false);
                    } else {
                        assert(hs.contains(hs[y]));
                        lemma_sort_by_contains(p@, by_position(), hs[y]);
                        let q2 = choose|q2: int| 0 <= q2 < p@.len() && p@[q2] == hs[y];
                        if q2 < edits.len() {
                            let j2 = lemma_m486_edits_from(lines, 0, q2);
                            lemma_prefix_len_mono(lines, j2 + 1, n);
                            if j2 <= j {
                                lemma_prefix_len_mono(lines, j2, j);
                            } else {
                                lemma_prefix_len_mono(lines, j + 1, j2);
                            }
                        } else {
                            let k = q2 - edits.len();
                            assert(p@[q2] == oh[k]);
                            assert(m486_command(lines[j]) is Some);
                        }
                    }
                }
            }
        }
        lemma_clear_patch_applies(p, len);
    } else {
        let (i, k) = choose|i: int, k: int|
            #![trigger m486_command(lines[i]), oh[k]]
            0 <= i < lines.len() && m486_command(lines[i]) is Some && 0 <= k < oh.len() && (
            prefix_len(lines, i) <= oh[k].key() < prefix_len(lines, i + 1));
        let s = prefix_len(lines, i);
        let e = prefix_len(lines, i + 1);
        let r = comment_out(lines, i);
        let h = oh[k];
        lemma_prefix_len_mono(lines, i + 1, n);
        lemma_m486_line_nonempty(lines, i);
        // both hunks are in the patch, hence in the order of application
        lemma_m486_edits_contains(lines, 0, i);
        let q = choose|q: int| 0 <= q < edits.len() && edits[q] == r;
        assert(p@[q] == r);
        assert(p@[edits.len() + k] == h);
        lemma_sort_by_contains(p@, by_position(), r);
        lemma_sort_by_contains(p@, by_position(), h);
        let x = choose|x: int| 0 <= x < hs.len() && hs[x] == r;
        let y = choose|y: int| 0 <= y < hs.len() && hs[y] == h;
        // the insertion is applied after the replacement
        if h.key() == s {
            lemma_same_position_in_added_order(p, s as u64);
            lemma_with_key_add(edits, oh, pos, s as int);
            lemma_m486_edits_at(lines, 0, i);
            let w = with_key(hs, pos, s as int);
            assert(w == seq![r] + with_key(oh, pos, s as int));
            lemma_with_key_index(hs, pos, s as int, x);
            lemma_with_key_index(hs, pos, s as int, y);
            let cx = with_key(hs.take(x), pos, s as int).len() as int;
            let cy = with_key(hs.take(y), pos, s as int).len() as int;
            if cx > 0 {
                lemma_with_key_from(oh, pos, s as int, cx - 1);
                assert(w[cx] == with_key(oh, pos, s as int)[cx - 1]);
                let g = choose|g: int| 0 <= g < oh.len() && oh[g] == with_key(oh, pos, s as int)[cx - 1];
                assert(oh[g] is Insert);
            }
            assert(cy != 0);
            if y < x {
                lemma_with_key_take_grows(hs, pos, s as int, y, x);
            }
        } else if y < x {
            assert((by_position())(hs[y], hs[x]));
        }
        assert(x != y);
        if p.in_order(len) {
            lemma_in_order_after_replace(hs, len, 0, x, y);
        }
    }
}

proof fn lemma_first_code_line_bounds(lines: Seq<Seq<char>>, i: int)
    requires
        0 <= i,
    ensures
        0 <= first_code_line(lines, i) <= lines.len(),
    decreases lines.len() - i,
{
    if i < lines.len() && comment_text(lines[i]) is Some {
        lemma_first_code_line_bounds(lines, i + 1);
    }
}

/// The ranges that a scan of G-code with `M486` commands records begin and end where
/// lines begin or the file ends.
proof fn lemma_m486_run_on_lines<P>(
    lines: Seq<Seq<char>>,
    points: Seq<Option<P>>,
    i: int,
    m: TrackerModel<P>,
    edits: Seq<HunkModel>,
)
    requires
        0 <= i,
        model_wf(m),
        spans_on_lines(m, lines),
        doc_len(lines) <= u64::MAX,
        m486_run(lines, points, i, m, edits) is Ok,
    ensures
        spans_on_lines(m486_run(lines, points, i, m, edits)->Ok_0.0, lines),
    decreases lines.len() - i,
{
    let n = lines.len() as int;
    if i >= n {
        assert(prefix_len(lines, n) == doc_len(lines) as u64);
        lemma_on_lines_steps(m, lines, Seq::<char>::empty(), doc_len(lines) as u64, None::<P>);
    } else {
        let line = lines[i];
        let pos = prefix_len(lines, i + 1) as u64;
        lemma_prefix_len_mono(lines, i + 1, n);
        assert(prefix_len(lines, i + 1) == pos);
        assert(on_lines(lines, pos));
        match m486_command(line) {
            Some(c) => {
                let e2 = edits.push(HunkModel::Replace(prefix_len(lines, i) as u64, pos, "; "@ + line));
                match c {
                    M486::S(k) => {
                        let key = int_text(k as int);
                        let m1 = end_model(m, pos);
                        lemma_model_wf_steps(m, key, pos, None::<P>);
                        lemma_on_lines_steps(m, lines, key, pos, None::<P>);
                        lemma_model_wf_steps(m1, key, pos, None::<P>);
                        lemma_on_lines_steps(m1, lines, key, pos, None::<P>);
                        let m2 = start_model(m1, key, pos)->Ok_0;
                        lemma_m486_run_on_lines(lines, points, i + 1, m2, e2);
                    },
                    M486::T => {
                        lemma_m486_run_on_lines(lines, points, i + 1, m, e2);
                    },
                }
            },
            None => {
                if extrude_text(line) is Some {
                    lemma_model_wf_steps(m, Seq::<char>::empty(), pos, points[i]);
                    lemma_on_lines_steps(m, lines, Seq::<char>::empty(), pos, points[i]);
                    lemma_m486_run_on_lines(lines, points, i + 1, extrude_model(m, points[i]), edits);
                } else {
                    lemma_m486_run_on_lines(lines, points, i + 1, m, edits);
                }
            },
        }
    }
}

/// No definition and no marker of `hunks` lies at the start of an `M486` line.
pub open spec fn clear_of_command_starts(lines: Seq<Seq<char>>, hunks: Seq<HunkModel>) -> bool {
    forall|i: int, k: int|
        #![trigger m486_command(lines[i]), hunks[k]]
        0 <= i < lines.len() && m486_command(lines[i]) is Some && 0 <= k < hunks.len()
            ==> hunks[k].key() != prefix_len(lines, i)
}

/// The patch that a scan of G-code with `M486` commands finishes, with the definitions
/// after the leading comments, applies exactly when no definition and no marker lies at
/// the start of an `M486` line.
pub proof fn lemma_m486_scan_patch_applies<P>(
    lines: Seq<Seq<char>>,
    points: Seq<Option<P>>,
    m: TrackerModel<P>,
    edits: Seq<HunkModel>,
    descs: Seq<Seq<char>>,
    p: Patch,
)
    requires
        m486_run(lines, points, 0, empty_model(), Seq::<HunkModel>::empty()) == Ok::<
            (TrackerModel<P>, Seq<HunkModel>),
            Failure,
        >((m, edits)),
        descs.len() == m.objects.len(),
        p@ == edits + object_hunks(m.objects, descs, header_offset(lines) as u64),
        doc_len(lines) <= i64::MAX,
    ensures
        p.in_order(doc_len(lines)) <==> clear_of_command_starts(
            lines,
            object_hunks(m.objects, descs, header_offset(lines) as u64),
        ),
        clear_of_command_starts(lines, object_hunks(m.objects, descs, header_offset(lines) as u64))
            ==> p.seekable(doc_len(lines)),
{
    let n = lines.len() as int;
    let header = header_offset(lines) as u64;
    let oh = object_hunks(m.objects, descs, header);
    let no = m.objects.len() as int;
    lemma_m486_patch_applies(lines, points, m, edits, descs, header, p);
    // the ranges, and the header, lie on line boundaries
    lemma_m486_run_on_lines(lines, points, 0, empty_model(), Seq::<HunkModel>::empty());
    lemma_first_code_line_bounds(lines, 0);
    let h = first_code_line(lines, 0);
    if h < n {
        lemma_prefix_len_mono(lines, h + 1, n);
        assert(prefix_len(lines, h + 1) == header);
    } else {
        assert(prefix_len(lines, n) == header);
    }
    assert(on_lines(lines, header));
    lemma_object_hunks_ordered(m.objects, descs, header);
    assert forall|k: int| 0 <= k < oh.len() implies on_lines(lines, #[trigger] oh[k].key()) by {
        if k < no {
            assert(oh[k].key() == header);
        } else {
            let q = (k - no) / 2;
            assert(no + 2 * q < oh.len());
            assert(exists|a: int, r: int|
                0 <= a < no && 0 <= r < m.objects[a].ranges.len() && #[trigger] oh[no + 2 * q]
                    == HunkModel::Insert(
                    m.objects[a].ranges[r].start,
                    start_line(m.objects[a].id),
                ) && oh[no + 2 * q + 1] == HunkModel::Insert(
                    m.objects[a].ranges[r].end,
                    end_line(m.objects[a].id),
                ));
            let (a, r) = choose|a: int, r: int|
                0 <= a < no && 0 <= r < m.objects[a].ranges.len() && #[trigger] oh[no + 2 * q]
                    == HunkModel::Insert(
                    m.objects[a].ranges[r].start,
                    start_line(m.objects[a].id),
                ) && oh[no + 2 * q + 1] == HunkModel::Insert(
                    m.objects[a].ranges[r].end,
                    end_line(m.objects[a].id),
                );
            let rg = m.objects[a].ranges[r];
            assert(on_lines(lines, rg.start) && on_lines(lines, rg.end));
            if (k - no) % 2 == 0 {
                assert(k == no + 2 * q);
            } else {
                assert(k == no + 2 * q + 1);
            }
        }
    }
    // on line boundaries, lying within an `M486` line means lying at its start
    assert(clear_of_commands(lines, oh) == clear_of_command_starts(lines, oh)) by {
        assert forall|i: int, k: int|
            0 <= i < lines.len() && #[trigger] m486_command(lines[i]) is Some && 0 <= k < oh.len()
                implies (!(prefix_len(lines, i) <= #[trigger] oh[k].key() < prefix_len(lines, i + 1))
            <==> oh[k].key() != prefix_len(lines, i)) by {
            lemma_m486_line_nonempty(lines, i);
            assert(on_lines(lines, oh[k].key()));
            let kk = choose|kk: int| 0 <= kk <= lines.len() && #[trigger] prefix_len(lines, kk) == oh[k].key();
            if kk <= i {
                lemma_prefix_len_mono(lines, kk, i);
            } else {
                lemma_prefix_len_mono(lines, i + 1, kk);
            }
        }
    }
}

/// A file with a line that already defines objects, wherever it stands, is refused as
/// already prepared; no other failure can come first, since each `M486 S` line closes
/// the object before it.
pub proof fn lemma_m486_marked_refused<P>(
    lines: Seq<Seq<char>>,
    points: Seq<Option<P>>,
    i: int,
    m: TrackerModel<P>,
    edits: Seq<HunkModel>,
    j: int,
)
    requires
        0 <= i <= j < lines.len(),
        already_marked(lines[j]),
    ensures
        m486_run(lines, points, i, m, edits) == Err::<(TrackerModel<P>, Seq<HunkModel>), Failure>(
            Failure::AlreadySupported,
        ),
    decreases j - i,
{
    if i < j && !already_marked(lines[i]) {
        let line = lines[i];
        let prev = prefix_len(lines, i) as u64;
        let pos = prefix_len(lines, i + 1) as u64;
        match m486_command(line) {
            Some(c) => {
                let e2 = edits.push(HunkModel::Replace(prev, pos, "; "@ + line));
                match c {
                    M486::S(n) => {
                        let m2 = start_model(end_model(m, pos), int_text(n as int), pos)->Ok_0;
                        lemma_m486_marked_refused(lines, points, i + 1, m2, e2, j);
                    },
                    M486::T => {
                        lemma_m486_marked_refused(lines, points, i + 1, m, e2, j);
                    },
                }
            },
            None => if extrude_text(line) is Some {
                lemma_m486_marked_refused(lines, points, i + 1, extrude_model(m, points[i]), edits, j);
            } else {
                lemma_m486_marked_refused(lines, points, i + 1, m, edits, j);
            },
        }
    }
}

/// A file with `M486` commands is never refused for an object left open: each `M486 S`
/// line closes the object before it.
pub proof fn lemma_m486_never_unclosed<P>(
    lines: Seq<Seq<char>>,
    points: Seq<Option<P>>,
    i: int,
    m: TrackerModel<P>,
    edits: Seq<HunkModel>,
)
    ensures
        m486_run(lines, points, i, m, edits) is Ok || m486_run(lines, points, i, m, edits) == Err::<
            (TrackerModel<P>, Seq<HunkModel>),
            Failure,
        >(Failure::AlreadySupported),
    decreases lines.len() - i,
{
    if 0 <= i < lines.len() && !already_marked(lines[i]) {
        let line = lines[i];
        let prev = prefix_len(lines, i) as u64;
        let pos = prefix_len(lines, i + 1) as u64;
        match m486_command(line) {
            Some(c) => {
                let e2 = edits.push(HunkModel::Replace(prev, pos, "; "@ + line));
                match c {
                    M486::S(n) => {
                        let m2 = start_model(end_model(m, pos), int_text(n as int), pos)->Ok_0;
                        lemma_m486_never_unclosed(lines, points, i + 1, m2, e2);
                    },
                    M486::T => {
                        lemma_m486_never_unclosed(lines, points, i + 1, m, e2);
                    },
                }
            },
            None => if extrude_text(line) is Some {
                lemma_m486_never_unclosed(lines, points, i + 1, extrude_model(m, points[i]), edits);
            } else {
                lemma_m486_never_unclosed(lines, points, i + 1, m, edits);
            },
        }
    }
}

/// An `M486 S<n>` line is commented out, closes the open object at the end of the line
/// and opens object `<n>` there.
pub proof fn lemma_m486_switches<P>(
    lines: Seq<Seq<char>>,
    points: Seq<Option<P>>,
    i: int,
    m: TrackerModel<P>,
    edits: Seq<HunkModel>,
)
    requires
        0 <= i < lines.len(),
        model_wf(m),
        !already_marked(lines[i]),
        m486_command(lines[i]) matches Some(M486::S(_)),
    ensures
        exists|m2: TrackerModel<P>|
            {
                &&& m486_run(lines, points, i, m, edits) == #[trigger] m486_run(
                    lines,
                    points,
                    i + 1,
                    m2,
                    edits.push(comment_out(lines, i)),
                )
                &&& closed_at(m, m2, prefix_len(lines, i + 1) as u64)
                &&& m2.active == Some(
                    ActiveModel {
                        key: int_text(m486_command(lines[i])->Some_0->S_0 as int),
                        start: prefix_len(lines, i + 1) as u64,
                        points: Seq::<P>::empty(),
                    },
                )
            },
{
    let pos = prefix_len(lines, i + 1) as u64;
    let n = m486_command(lines[i])->Some_0->S_0;
    lemma_end_closes(m, pos);
    let m2 = start_model(end_model(m, pos), int_text(n as int), pos)->Ok_0;
    assert(m486_run(lines, points, i, m, edits) == m486_run(
        lines,
        points,
        i + 1,
        m2,
        edits.push(comment_out(lines, i)),
    ));
    assert(closed_at(m, m2, pos));
}

} // verus!
