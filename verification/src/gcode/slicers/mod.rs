//! The slicers whose G-code can be prepared for object cancellation, and what they
//! have in common: how a line is recognised, and what a scan of a file gives.
use super::lines::{doc_len, lines_view};
use super::object_tracker::{
    empty_model, header_offset, keys_view, lemma_object_hunks_insertions, object_hunks,
    ObjectTracker, TrackerModel,
};
use super::known_object::ObjectModel;
use super::parser::{comment_bounds, comment_text};
use crate::error::Error;
use crate::patch::{bytes_of, copied, lemma_insertions_apply, lemma_insertions_keep_source, HunkModel, Patch};
use crate::text::{
    chars_of, contains, contains_in, is_whitespace, is_whitespace_char, lemma_skip_spaces_ge,
    lemma_trim_nonempty, skip_spaces, starts_with, starts_with_in, trim, trim_bounds,
};
use vstd::prelude::*;

pub mod cura;
pub mod ideamaker;
pub mod m486;
pub mod slic3r;

verus! {

/// How a scan can fail.
pub enum Failure {
    /// The file already defines its objects.
    AlreadySupported,
    /// An object was started while the one named here was open.
    Unclosed(Seq<char>),
    /// An object was announced without the line that gives its number; the text of the
    /// parse error.
    MissingId(Seq<char>),
}

/// `e` is the error that `f` calls for.
pub open spec fn fails_as(e: Error, f: Failure) -> bool {
    match f {
        Failure::AlreadySupported => e is AlreadySupported,
        Failure::Unclosed(k) => e matches Error::UnclosedObject(s) && s@ == k,
        Failure::MissingId(msg) => e matches Error::Parse(m) && m@ == msg,
    }
}

/// The line already defines objects for cancellation.
pub open spec fn already_marked(line: Seq<char>) -> bool {
    starts_with(line, "EXCLUDE_OBJECT_DEFINE"@)
}

/// The rest of the text of the comment of `line` after `tag`, if it is a comment whose
/// text begins with `tag`.
pub open spec fn comment_after(line: Seq<char>, tag: Seq<char>) -> Option<Seq<char>> {
    match comment_text(line) {
        Some(c) => if starts_with(c, tag) {
            Some(c.skip(tag.len() as int))
        } else {
            None
        },
        None => None,
    }
}

/// What the scan of a file found: the edits made while reading it, the objects, and
/// where their definitions go.
pub struct Scan<P> {
    pub patch: Patch,
    pub tracker: ObjectTracker<P>,
    pub header_pos: u64,
}

impl<P> Scan<P> {
    /// The patch for the file: the edits of the scan, then the definitions of the objects
    /// (each with its description, `descriptions[i]` for the `i`-th known object) and the
    /// markers around their ranges; refused while an object is open.
    pub fn finish(self, descriptions: Vec<String>) -> (r: Result<Patch, Error>)
        requires
            descriptions@.len() == self.tracker@.objects.len(),
        ensures
            match self.tracker@.active {
                Some(a) => r matches Err(Error::UnclosedObject(s)) && s@ == a.key,
                None => r matches Ok(p) && p@ == self.patch@ + object_hunks(
                    self.tracker@.objects,
                    keys_view(descriptions@),
                    self.header_pos,
                ),
            },
    {
        let mut patch = self.patch;
        match self.tracker.format_patch(&mut patch, self.header_pos, descriptions) {
            Ok(()) => Ok(patch),
            Err(e) => Err(e),
        }
    }
}

/// The line begins with `EXCLUDE_OBJECT_DEFINE`.
pub fn is_already_marked(line: &Vec<char>) -> (r: bool)
    ensures
        r == already_marked(line@),
{
    let tag = chars_of("EXCLUDE_OBJECT_DEFINE");
    assert(line@.subrange(0, line@.len() as int) =~= line@);
    starts_with_in(line, 0, line.len(), &tag)
}

/// The bounds in `line` of the rest of its comment after `tag`.
pub fn comment_after_in(line: &Vec<char>, tag: &str) -> (r: Option<(usize, usize)>)
    ensures
        r is None <==> comment_after(line@, tag@) is None,
        r matches Some(ab) ==> ab.0 <= ab.1 <= line@.len() && comment_after(line@, tag@) == Some(
            line@.subrange(ab.0 as int, ab.1 as int),
        ),
{
    match comment_bounds(line) {
        None => None,
        Some((a, b)) => {
            let t = chars_of(tag);
            if starts_with_in(line, a, b, &t) {
                assert(line@.subrange(a as int, b as int).skip(t@.len() as int) =~= line@.subrange(
                    a + t@.len(),
                    b as int,
                ));
                Some((a + t.len(), b))
            } else {
                None
            }
        },
    }
}

/// A line that defines objects is no comment.
pub proof fn lemma_marked_not_comment(line: Seq<char>, tag: Seq<char>)
    requires
        already_marked(line),
    ensures
        comment_text(line) is None,
        comment_after(line, tag) is None,
{
    reveal_strlit("EXCLUDE_OBJECT_DEFINE");
    assert(line[0] == "EXCLUDE_OBJECT_DEFINE"@[0]);
    assert(line[0] == 'E');
}

/// The slicers.
#[derive(Clone, Copy, Debug, PartialEq, Eq)]
pub enum Slicer {
    Cura,
    Slic3r,
    IdeaMaker,
    M486,
}

/// The slicer named by the comment text `c`, if it names one.
pub open spec fn slicer_named(c: Seq<char>) -> Option<Slicer> {
    if contains(c, "Cura"@) {
        Some(Slicer::Cura)
    } else if contains(c, "Slic3r"@) || contains(c, "PrusaSlicer"@) || contains(c, "SuperSlicer"@) {
        Some(Slicer::Slic3r)
    } else if contains(c, "ideaMaker"@) {
        Some(Slicer::IdeaMaker)
    } else {
        None
    }
}

/// The slicer that the leading comments of the file name, looking from line `i` on:
/// blank lines are passed over, the first line that is no comment ends the search, and the
/// first comment that names a slicer decides.
pub open spec fn infer_from(lines: Seq<Seq<char>>, i: int) -> Option<Slicer>
    decreases lines.len() - i,
{
    if i < 0 || i >= lines.len() {
        None
    } else if trim(lines[i]).len() == 0 {
        infer_from(lines, i + 1)
    } else {
        match comment_text(lines[i]) {
            None => None,
            Some(c) => match slicer_named(c) {
                Some(s) => Some(s),
                None => infer_from(lines, i + 1),
            },
        }
    }
}

fn slicer_named_in(v: &Vec<char>, a: usize, b: usize) -> (r: Option<Slicer>)
    requires
        a <= b <= v@.len(),
    ensures
        r == slicer_named(v@.subrange(a as int, b as int)),
{
    if contains_in(v, a, b, &chars_of("Cura")) {
        Some(Slicer::Cura)
    } else if contains_in(v, a, b, &chars_of("Slic3r")) || contains_in(
        v,
        a,
        b,
        &chars_of("PrusaSlicer"),
    ) || contains_in(v, a, b, &chars_of("SuperSlicer")) {
        Some(Slicer::Slic3r)
    } else if contains_in(v, a, b, &chars_of("ideaMaker")) {
        Some(Slicer::IdeaMaker)
    } else {
        None
    }
}

/// What reading the file with the slicer's rules gives: the tracker at the end and the
/// edits made along the way, or how it failed.
pub open spec fn scan_outcome<P>(slicer: Slicer, lines: Seq<Seq<char>>, points: Seq<Option<P>>) -> Result<
    (TrackerModel<P>, Seq<HunkModel>),
    Failure,
> {
    match slicer {
        Slicer::Cura => match cura::cura_run(lines, points, 0, empty_model()) {
            Ok(m) => Ok((m, Seq::<HunkModel>::empty())),
            Err(f) => Err(f),
        },
        Slicer::Slic3r => match slic3r::slic3r_run(lines, points, 0, empty_model()) {
            Ok(m) => Ok((m, Seq::<HunkModel>::empty())),
            Err(f) => Err(f),
        },
        Slicer::IdeaMaker => match ideamaker::ideamaker_run(lines, points, 0, empty_model()) {
            Ok(m) => Ok((m, Seq::<HunkModel>::empty())),
            Err(f) => Err(f),
        },
        Slicer::M486 => m486::m486_run(lines, points, 0, empty_model(), Seq::<HunkModel>::empty()),
    }
}

impl Slicer {
    /// Reads the file, given as its lines, by the rules of the slicer; `points[i]` is the
    /// point of line `i` when it extrudes (nothing for a retraction).
    pub fn format_patch<P: Copy>(&self, lines: &Vec<String>, points: &Vec<Option<P>>) -> (r:
        Result<Scan<P>, Error>)
        requires
            points@.len() == lines@.len(),
            doc_len(lines_view(lines@)) <= u64::MAX,
        ensures
            match scan_outcome(*self, lines_view(lines@), points@) {
                Ok((m, edits)) => r matches Ok(s) && s.tracker@ == m && s.patch@ == edits
                    && s.header_pos == header_offset(lines_view(lines@)),
                Err(f) => r matches Err(e) && fails_as(e, f),
            },
    {
        match self {
            Slicer::Cura => cura::format_patch(lines, points),
            Slicer::Slic3r => slic3r::format_patch(lines, points),
            Slicer::IdeaMaker => ideamaker::format_patch(lines, points),
            Slicer::M486 => m486::format_patch(lines, points),
        }
    }

    /// The slicer that wrote the file, from its leading comments.
    pub fn infer(lines: &Vec<String>) -> (r: Result<Slicer, Error>)
        ensures
            match infer_from(lines_view(lines@), 0) {
                Some(s) => r == Ok::<Slicer, Error>(s),
                None => r matches Err(Error::Parse(m)) && m@ == "Unknown slicer"@,
            },
    {
        let ghost ls = lines_view(lines@);
        let mut i: usize = 0;
        while i < lines.len()
            invariant
                ls == lines_view(lines@),
                i <= lines@.len(),
                infer_from(ls, 0) == infer_from(ls, i as int),
            decreases lines@.len() - i,
        {
            let cs = chars_of(lines[i].as_str());
            assert(ls[i as int] == cs@);
            let (a, b) = trim_bounds(&cs, 0, cs.len());
            assert(cs@.subrange(0, cs@.len() as int) =~= cs@);
            if a < b {
                match comment_bounds(&cs) {
                    None => {
                        return Err(Error::Parse("Unknown slicer".to_owned()));
                    },
                    Some((p, q)) => {
                        match slicer_named_in(&cs, p, q) {
                            Some(s) => {
                                return Ok(s);
                            },
                            None => {},
                        }
                    },
                }
            }
            i = i + 1;
        }
        Err(Error::Parse("Unknown slicer".to_owned()))
    }
}

/// A file whose first line already defines objects is refused, whatever the slicer.
pub proof fn lemma_marked_file_refused<P>(slicer: Slicer, lines: Seq<Seq<char>>, points: Seq<Option<P>>)
    requires
        lines.len() > 0,
        already_marked(lines[0]),
    ensures
        scan_outcome(slicer, lines, points) == Err::<(TrackerModel<P>, Seq<HunkModel>), Failure>(
            Failure::AlreadySupported,
        ),
{
}

/// Inference never picks `M486`: that format is chosen by the caller.
pub proof fn lemma_infer_never_m486(lines: Seq<Seq<char>>, i: int)
    ensures
        infer_from(lines, i) != Some(Slicer::M486),
    decreases lines.len() - i,
{
    if 0 <= i < lines.len() {
        lemma_infer_never_m486(lines, i + 1);
    }
}

/// For Cura, Slic3r and ideaMaker the scan makes no edits, so the finished patch holds
/// only insertions and applies to any source.
pub proof fn lemma_finished_patch_applies<P>(
    slicer: Slicer,
    lines: Seq<Seq<char>>,
    points: Seq<Option<P>>,
    descs: Seq<Seq<char>>,
    header: u64,
    p: Patch,
    len: nat,
)
    requires
        slicer != Slicer::M486,
        scan_outcome(slicer, lines, points) is Ok,
        p@ == scan_outcome(slicer, lines, points)->Ok_0.1 + object_hunks(
            scan_outcome(slicer, lines, points)->Ok_0.0.objects,
            descs,
            header,
        ),
    ensures
        p.in_order(len),
        p.seekable(len),
{
    let (m, e) = scan_outcome(slicer, lines, points)->Ok_0;
    assert(e.len() == 0);
    lemma_object_hunks_insertions(m.objects, descs, header);
    assert(p@ =~= object_hunks(m.objects, descs, header));
    lemma_insertions_apply(p, len);
}

/// For Cura, Slic3r and ideaMaker, the rewritten file is the file with lines put in:
/// removing the inserted definitions and markers gives the file back.
pub proof fn lemma_finished_patch_keeps_source<P>(
    slicer: Slicer,
    lines: Seq<Seq<char>>,
    points: Seq<Option<P>>,
    descs: Seq<Seq<char>>,
    header: u64,
    p: Patch,
    src: Seq<u8>,
)
    requires
        slicer != Slicer::M486,
        scan_outcome(slicer, lines, points) is Ok,
        p@ == scan_outcome(slicer, lines, points)->Ok_0.1 + object_hunks(
            scan_outcome(slicer, lines, points)->Ok_0.0.objects,
            descs,
            header,
        ),
    ensures
        bytes_of(p.marked(src)) == p.applied(src),
        copied(p.marked(src)) == src,
{
    let (m, e) = scan_outcome(slicer, lines, points)->Ok_0;
    assert(e.len() == 0);
    lemma_object_hunks_insertions(m.objects, descs, header);
    assert(p@ =~= object_hunks(m.objects, descs, header));
    lemma_insertions_keep_source(p, src);
}

/// A file with a line that already defines objects, wherever it stands, is never scanned
/// to a patch; for Cura and `M486` files the refusal is always that the file is already
/// prepared.
pub proof fn lemma_marked_line_refused<P>(slicer: Slicer, lines: Seq<Seq<char>>, points: Seq<Option<P>>, j: int)
    requires
        0 <= j < lines.len(),
        already_marked(lines[j]),
    ensures
        scan_outcome(slicer, lines, points) is Err,
        slicer == Slicer::Cura || slicer == Slicer::M486 ==> scan_outcome(slicer, lines, points)
            == Err::<(TrackerModel<P>, Seq<HunkModel>), Failure>(Failure::AlreadySupported),
{
    match slicer {
        Slicer::Cura => cura::lemma_cura_marked_refused(lines, points, 0, empty_model(), j),
        Slicer::Slic3r => slic3r::lemma_slic3r_marked_refused(lines, points, 0, empty_model(), j),
        Slicer::IdeaMaker => ideamaker::lemma_ideamaker_marked_refused(lines, points, 0, empty_model(), j),
        Slicer::M486 => m486::lemma_m486_marked_refused(
            lines,
            points,
            0,
            empty_model(),
            Seq::<HunkModel>::empty(),
            j,
        ),
    }
}

/// A leading line that inference passes over: blank, or a comment that names no slicer.
pub open spec fn passed_over(line: Seq<char>) -> bool {
    trim(line).len() == 0 || (comment_text(line) is Some && slicer_named(comment_text(line)->Some_0) is None)
}

proof fn lemma_comment_not_blank(line: Seq<char>)
    requires
        comment_text(line) is Some,
    ensures
        trim(line).len() > 0,
{
    let i = skip_spaces(line, 0);
    lemma_skip_spaces_ge(line, 0);
    assert(line[i] == ';');
    assert(!is_whitespace(';'));
    lemma_trim_nonempty(line, i);
}

/// However many leading lines are passed over, inference gives the slicer that the first
/// comment naming one names.
pub proof fn lemma_infer_first_naming_comment(lines: Seq<Seq<char>>, i: int, k: int)
    requires
        0 <= i <= k < lines.len(),
        forall|j: int| i <= j < k ==> passed_over(#[trigger] lines[j]),
        comment_text(lines[k]) is Some,
        slicer_named(comment_text(lines[k])->Some_0) is Some,
    ensures
        infer_from(lines, i) == slicer_named(comment_text(lines[k])->Some_0),
    decreases k - i,
{
    if i < k {
        assert(passed_over(lines[i]));
        lemma_infer_first_naming_comment(lines, i + 1, k);
    } else {
        lemma_comment_not_blank(lines[k]);
    }
}

/// Inference stops at the first leading line that is neither blank nor a comment: with no
/// slicer named before it, the slicer is unknown, whatever follows.
pub proof fn lemma_infer_stops_at_code(lines: Seq<Seq<char>>, i: int, k: int)
    requires
        0 <= i <= k < lines.len(),
        forall|j: int| i <= j < k ==> passed_over(#[trigger] lines[j]),
        trim(lines[k]).len() > 0,
        comment_text(lines[k]) is None,
    ensures
        infer_from(lines, i) is None,
    decreases k - i,
{
    if i < k {
        assert(passed_over(lines[i]));
        lemma_infer_stops_at_code(lines, i + 1, k);
    }
}

/// A file whose lines are all passed over names no slicer.
pub proof fn lemma_infer_none_named(lines: Seq<Seq<char>>, i: int)
    requires
        0 <= i,
        forall|j: int| i <= j < lines.len() ==> passed_over(#[trigger] lines[j]),
    ensures
        infer_from(lines, i) is None,
    decreases lines.len() - i,
{
    if i < lines.len() {
        assert(passed_over(lines[i]));
        lemma_infer_none_named(lines, i + 1);
    }
}

} // verus!
