//! G-code of ideaMaker: `; PRINTING: <name>` followed by `; PRINTING_ID: <id>` opens an
//! object (after closing the one before; the id `-1` marks what is no object), and
//! `; REMAINING_TIME: 0` closes it.
use super::super::lines::{doc_len, lemma_prefix_len_mono, line_end, lines_view, prefix_len};
use super::super::object_tracker::{
    closed_at, empty_model, end_model, lemma_end_closes, ActiveModel, extrude_model, header_offset, last_comment, lemma_spans_within_grow,
    lemma_spans_within_steps, model_wf, spans_within, start_model,
    ObjectTracker, TrackerModel,
};
use super::super::parser::{extrude_move_in, extrude_text};
use super::{
    already_marked, comment_after, comment_after_in, fails_as, is_already_marked, lemma_marked_not_comment,
    Failure, Scan,
};
use crate::error::Error;
use crate::patch::{HunkModel, Patch};
use crate::text::{
    append_decimal, chars_of, debug_str, debug_text, equals_in, nat_text,
    skip_spaces, skip_spaces_in, starts_with, starts_with_in, string_of, strip_spaces,
    strip_spaces_in, trim, trim_bounds,
};
use vstd::utf8::encode_utf8;
use vstd::prelude::*;

verus! {

/// What ideaMaker's G-code does to the tracker from line `i` on (`points[i]` is the point
/// of line `i` if it extrudes).
pub open spec fn ideamaker_run<P>(
    lines: Seq<Seq<char>>,
    points: Seq<Option<P>>,
    i: int,
    m: TrackerModel<P>,
) -> Result<TrackerModel<P>, Failure>
    decreases lines.len() - i,
{
    if i < 0 || i >= lines.len() {
        Ok(m)
    } else {
        let line = lines[i];
        let pos = prefix_len(lines, i + 1) as u64;
        if already_marked(line) {
            Err(Failure::AlreadySupported)
        } else {
            match comment_after(line, "PRINTING:"@) {
                Some(rest) => {
                    let next = if i + 1 < lines.len() {
                        lines[i + 1]
                    } else {
                        Seq::<char>::empty()
                    };
                    match comment_after(next, "PRINTING_ID:"@) {
                        None => Err(Failure::MissingId(missing_id_message(next))),
                        Some(r2) => {
                            let m1 = end_model(m, pos);
                            if strip_spaces(r2) != "-1"@ {
                                match start_model(m1, strip_spaces(rest), pos) {
                                    Ok(m2) => ideamaker_run(lines, points, i + 2, m2),
                                    Err(k) => Err(Failure::Unclosed(k)),
                                }
                            } else {
                                ideamaker_run(lines, points, i + 2, m1)
                            }
                        },
                    }
                },
                None => if comment_after(line, "REMAINING_TIME: 0"@) is Some {
                    ideamaker_run(lines, points, i + 1, end_model(m, pos))
                } else if extrude_text(line) is Some {
                    ideamaker_run(lines, points, i + 1, extrude_model(m, points[i]))
                } else {
                    ideamaker_run(lines, points, i + 1, m)
                },
            }
        }
    }
}

/// The index of the first line feed of `l` at or after `j`, or the length of `l`.
pub open spec fn first_newline(l: Seq<char>, j: int) -> int
    decreases l.len() - j,
{
    if 0 <= j < l.len() && l[j] != '\n' {
        first_newline(l, j + 1)
    } else {
        j
    }
}

/// The text of a failed read of `input`: the byte offset where it stopped, what was left
/// there and what was expected, as `ParseError`'s `Debug` writes them.
pub open spec fn parse_error_text(input: Seq<char>, offset: nat, rest: Seq<char>, kind: Seq<char>) -> Seq<
    char,
> {
    "ParseError { input: "@ + debug_text(input) + ", offset: "@ + nat_text(offset)
        + ", inner: Base(TreeErrorBase { input: "@ + debug_text(rest) + ", kind: "@ + kind
        + ", cause: None }) }"@
}

/// Why `l`, the line after `; PRINTING:`, is not `; PRINTING_ID: <id>`, as the read of
/// that comment reports it: no `;` after the leading blanks; a comment text that does not
/// begin with `PRINTING_ID:`; or more text after the line feed.
pub open spec fn missing_id_message(l: Seq<char>) -> Seq<char> {
    let i = skip_spaces(l, 0);
    if !(i < l.len() && l[i] == ';') {
        parse_error_text(l, encode_utf8(l.take(i)).len(), l.skip(i), "Tag"@)
    } else {
        let j = skip_spaces(l, i + 1);
        let k = first_newline(l, j);
        let text = trim(l.subrange(j, k));
        if !starts_with(text, "PRINTING_ID:"@) {
            parse_error_text(l, encode_utf8(l.take(j)).len(), text, "Tag"@)
        } else {
            let e = if k < l.len() {
                k + 1
            } else {
                k
            };
            parse_error_text(l, encode_utf8(l.take(e)).len(), l.skip(e), "Eof"@)
        }
    }
}

fn first_newline_in(v: &Vec<char>, j: usize) -> (r: usize)
    requires
        j <= v@.len(),
    ensures
        r == first_newline(v@, j as int),
        j <= r <= v@.len(),
{
    let mut k = j;
    while k < v.len() && v[k] != '\n'
        invariant
            j <= k <= v@.len(),
            first_newline(v@, j as int) == first_newline(v@, k as int),
        decreases v@.len() - k,
    {
        k = k + 1;
    }
    k
}

/// The number of bytes of the UTF-8 encoding of `v[..k]`.
fn byte_len(v: &Vec<char>, k: usize) -> (r: usize)
    requires
        k <= v@.len(),
    ensures
        r == encode_utf8(v@.take(k as int)).len(),
{
    let s = string_of(v, 0, k);
    assert(s@ == v@.take(k as int));
    s.as_str().as_bytes().len()
}

fn parse_error(input: &Vec<char>, offset: usize, lo: usize, hi: usize, kind: &str) -> (r: String)
    requires
        lo <= hi <= input@.len(),
    ensures
        r@ == parse_error_text(input@, offset as nat, input@.subrange(lo as int, hi as int), kind@),
{
    let whole = string_of(input, 0, input.len());
    assert(whole@ =~= input@);
    let rest = string_of(input, lo, hi);
    let mut s = "ParseError { input: ".to_owned();
    s.append(debug_str(whole.as_str()).as_str());
    s.append(", offset: ");
    append_decimal(&mut s, offset as u64);
    s.append(", inner: Base(TreeErrorBase { input: ");
    s.append(debug_str(rest.as_str()).as_str());
    s.append(", kind: ");
    s.append(kind);
    s.append(", cause: None }) }");
    s
}

/// The error text for the line after `; PRINTING:` when it does not give the id.
fn missing_id_error(l: &Vec<char>) -> (r: String)
    ensures
        r@ == missing_id_message(l@),
{
    let i = skip_spaces_in(l, 0);
    if !(i < l.len() && l[i] == ';') {
        assert(l@.subrange(i as int, l@.len() as int) =~= l@.skip(i as int));
        return parse_error(l, byte_len(l, i), i, l.len(), "Tag");
    }
    let j = skip_spaces_in(l, i + 1);
    let k = first_newline_in(l, j);
    let (a, b) = trim_bounds(l, j, k);
    if !starts_with_in(l, a, b, &chars_of("PRINTING_ID:")) {
        return parse_error(l, byte_len(l, j), a, b, "Tag");
    }
    let e = if k < l.len() {
        k + 1
    } else {
        k
    };
    assert(l@.subrange(e as int, l@.len() as int) =~= l@.skip(e as int));
    parse_error(l, byte_len(l, e), e, l.len(), "Eof")
}

/// Reads ideaMaker's G-code, given as its lines, with `points[i]` the point of line `i`
/// when it extrudes (nothing for a retraction).
pub fn format_patch<P: Copy>(lines: &Vec<String>, points: &Vec<Option<P>>) -> (r: Result<
    Scan<P>,
    Error,
>)
    requires
        points@.len() == lines@.len(),
        doc_len(lines_view(lines@)) <= u64::MAX,
    ensures
        match ideamaker_run(lines_view(lines@), points@, 0, empty_model()) {
            Ok(m) => r matches Ok(s) && s.tracker@ == m && s.patch@ == Seq::<HunkModel>::empty()
                && s.header_pos == header_offset(lines_view(lines@)) && model_wf(m) && spans_within(
                m,
                doc_len(lines_view(lines@)),
            ),
            Err(f) => r matches Err(e) && fails_as(e, f),
        },
{
    let ghost ls = lines_view(lines@);
    let mut tracker: ObjectTracker<P> = ObjectTracker::new();
    let minus_one = chars_of("-1");
    let mut pos: u64 = 0;
    let mut i: usize = 0;
    while i < lines.len()
        invariant
            ls == lines_view(lines@),
            points@.len() == lines@.len(),
            doc_len(ls) <= u64::MAX,
            i <= lines@.len(),
            pos == prefix_len(ls, i as int),
            model_wf(tracker@),
            spans_within(tracker@, pos as nat),
            minus_one@ == "-1"@,
            ideamaker_run(ls, points@, 0, empty_model()) == ideamaker_run(
                ls,
                points@,
                i as int,
                tracker@,
            ),
        decreases lines@.len() - i,
    {
        let ghost before = pos;
        pos = line_end(lines, i, pos);
        proof {
            lemma_prefix_len_mono(ls, i as int, i + 1);
            lemma_spans_within_grow(tracker@, before as nat, pos as nat);
        }
        let line = chars_of(lines[i].as_str());
        assert(ls[i as int] == line@);
        if is_already_marked(&line) {
            return Err(Error::AlreadySupported);
        }
        match comment_after_in(&line, "PRINTING:") {
            Some((a, b)) => {
                let next = if i + 1 < lines.len() {
                    chars_of(lines[i + 1].as_str())
                } else {
                    Vec::new()
                };
                assert(i + 1 < lines@.len() ==> ls[i + 1] == next@);
                match comment_after_in(&next, "PRINTING_ID:") {
                    None => {
                        return Err(Error::Parse(missing_id_error(&next)));
                    },
                    Some((c, d)) => {
                        let idstart = strip_spaces_in(&next, c, d);
                        proof {
                            lemma_spans_within_steps(tracker@, pos as nat, Seq::empty(), pos, None::<P>);
                        }
                        tracker.end(pos);
                        if !equals_in(&next, idstart, d, &minus_one) {
                            let namestart = strip_spaces_in(&line, a, b);
                            let name = string_of(&line, namestart, b);
                            proof {
                                lemma_spans_within_steps(tracker@, pos as nat, Seq::empty(), pos, None::<P>);
                            }
                            match tracker.start(name, pos) {
                                Ok(()) => {},
                                Err(e) => {
                                    return Err(e);
                                },
                            }
                        }
                        pos = line_end(lines, i + 1, pos);
                        i = i + 2;
                    },
                }
            },
            None => {
                if comment_after_in(&line, "REMAINING_TIME: 0").is_some() {
                    proof {
                        lemma_spans_within_steps(tracker@, pos as nat, Seq::empty(), pos, None::<P>);
                    }
                    tracker.end(pos);
                } else if extrude_move_in(&line).is_some() {
                    proof {
                        lemma_spans_within_steps(tracker@, pos as nat, Seq::empty(), pos, points@[i as int]);
                    }
                    tracker.extrude(points[i]);
                }
                i = i + 1;
            },
        }
    }
    let header_pos = last_comment(lines);
    Ok(Scan { patch: Patch::new(), tracker, header_pos })
}

/// A file with a line that already defines objects, wherever it stands, is refused: as
/// already prepared, or, where it stands in place of the `; PRINTING_ID:` line, as
/// missing that line.
pub proof fn lemma_ideamaker_marked_refused<P>(
    lines: Seq<Seq<char>>,
    points: Seq<Option<P>>,
    i: int,
    m: TrackerModel<P>,
    j: int,
)
    requires
        0 <= i <= j < lines.len(),
        already_marked(lines[j]),
    ensures
        ideamaker_run(lines, points, i, m) matches Err(f) && (f is AlreadySupported || f is MissingId),
    decreases j - i,
{
    if i < j && !already_marked(lines[i]) {
        let line = lines[i];
        let pos = prefix_len(lines, i + 1) as u64;
        match comment_after(line, "PRINTING:"@) {
            Some(rest) => {
                let next = lines[i + 1];
                if i + 1 == j {
                    lemma_marked_not_comment(next, "PRINTING_ID:"@);
                } else {
                    match comment_after(next, "PRINTING_ID:"@) {
                        None => {},
                        Some(r2) => {
                            let m1 = end_model(m, pos);
                            if strip_spaces(r2) != "-1"@ {
                                lemma_ideamaker_marked_refused(
                                    lines,
                                    points,
                                    i + 2,
                                    start_model(m1, strip_spaces(rest), pos)->Ok_0,
                                    j,
                                );
                            } else {
                                lemma_ideamaker_marked_refused(lines, points, i + 2, m1, j);
                            }
                        },
                    }
                }
            },
            None => if comment_after(line, "REMAINING_TIME: 0"@) is Some {
                lemma_ideamaker_marked_refused(lines, points, i + 1, end_model(m, pos), j);
            } else if extrude_text(line) is Some {
                lemma_ideamaker_marked_refused(lines, points, i + 1, extrude_model(m, points[i]), j);
            } else {
                lemma_ideamaker_marked_refused(lines, points, i + 1, m, j);
            },
        }
    }
}

/// An ideaMaker file is never refused for an object left open: each `; PRINTING:` line
/// closes the object before it.
pub proof fn lemma_ideamaker_never_unclosed<P>(
    lines: Seq<Seq<char>>,
    points: Seq<Option<P>>,
    i: int,
    m: TrackerModel<P>,
)
    ensures
        !(ideamaker_run(lines, points, i, m) matches Err(f) && f is Unclosed),
    decreases lines.len() - i,
{
    if 0 <= i < lines.len() && !already_marked(lines[i]) {
        let line = lines[i];
        let pos = prefix_len(lines, i + 1) as u64;
        match comment_after(line, "PRINTING:"@) {
            Some(rest) => {
                let next = if i + 1 < lines.len() {
                    lines[i + 1]
                } else {
                    Seq::<char>::empty()
                };
                match comment_after(next, "PRINTING_ID:"@) {
                    None => {},
                    Some(r2) => {
                        let m1 = end_model(m, pos);
                        if strip_spaces(r2) != "-1"@ {
                            lemma_ideamaker_never_unclosed(
                                lines,
                                points,
                                i + 2,
                                start_model(m1, strip_spaces(rest), pos)->Ok_0,
                            );
                        } else {
                            lemma_ideamaker_never_unclosed(lines, points, i + 2, m1);
                        }
                    },
                }
            },
            None => if comment_after(line, "REMAINING_TIME: 0"@) is Some {
                lemma_ideamaker_never_unclosed(lines, points, i + 1, end_model(m, pos));
            } else if extrude_text(line) is Some {
                lemma_ideamaker_never_unclosed(lines, points, i + 1, extrude_model(m, points[i]));
            } else {
                lemma_ideamaker_never_unclosed(lines, points, i + 1, m);
            },
        }
    }
}

/// A `; PRINTING: <name>` line followed by `; PRINTING_ID: <id>` with an id other than
/// `-1` closes the open object at the end of the `PRINTING` line and opens `<name>`
/// there: the scan goes on after the id line with that object open and the one before
/// closed.
pub proof fn lemma_ideamaker_object_switches<P>(
    lines: Seq<Seq<char>>,
    points: Seq<Option<P>>,
    i: int,
    m: TrackerModel<P>,
)
    requires
        0 <= i,
        i + 1 < lines.len(),
        model_wf(m),
        !already_marked(lines[i]),
        comment_after(lines[i], "PRINTING:"@) is Some,
        comment_after(lines[i + 1], "PRINTING_ID:"@) is Some,
        strip_spaces(comment_after(lines[i + 1], "PRINTING_ID:"@)->Some_0) != "-1"@,
    ensures
        exists|m2: TrackerModel<P>|
            {
                &&& ideamaker_run(lines, points, i, m) == #[trigger] ideamaker_run(lines, points, i + 2, m2)
                &&& closed_at(m, m2, prefix_len(lines, i + 1) as u64)
                &&& m2.active == Some(
                    ActiveModel {
                        key: strip_spaces(comment_after(lines[i], "PRINTING:"@)->Some_0),
                        start: prefix_len(lines, i + 1) as u64,
                        points: Seq::<P>::empty(),
                    },
                )
            },
{
    let pos = prefix_len(lines, i + 1) as u64;
    let rest = comment_after(lines[i], "PRINTING:"@)->Some_0;
    let m1 = end_model(m, pos);
    lemma_end_closes(m, pos);
    let m2 = start_model(m1, strip_spaces(rest), pos)->Ok_0;
    assert(ideamaker_run(lines, points, i, m) == ideamaker_run(lines, points, i + 2, m2));
    assert(closed_at(m, m2, pos));
}

/// A `; REMAINING_TIME: 0` line closes the open object at the end of the line.
pub proof fn lemma_ideamaker_end_closes<P>(lines: Seq<Seq<char>>, points: Seq<Option<P>>, i: int, m: TrackerModel<P>)
    requires
        0 <= i < lines.len(),
        model_wf(m),
        !already_marked(lines[i]),
        comment_after(lines[i], "PRINTING:"@) is None,
        comment_after(lines[i], "REMAINING_TIME: 0"@) is Some,
    ensures
        exists|m2: TrackerModel<P>|
            {
                &&& ideamaker_run(lines, points, i, m) == #[trigger] ideamaker_run(lines, points, i + 1, m2)
                &&& closed_at(m, m2, prefix_len(lines, i + 1) as u64)
                &&& m2.active is None
            },
{
    let pos = prefix_len(lines, i + 1) as u64;
    lemma_end_closes(m, pos);
    assert(ideamaker_run(lines, points, i, m) == ideamaker_run(lines, points, i + 1, end_model(m, pos)));
}

} // verus!
