//! A patch: a list of insertions and replacements at byte offsets of a text,
//! applied in order of position.
use crate::error::Error;
use crate::sort::{
    insert_by, lemma_insert_by_at, lemma_sort_by_contains, lemma_sort_by_key_stable, lemma_sort_by_sorted, sort_by,
    lemma_sort_by_multiset, lemma_strictly_sorted_unique, lemma_with_key_at_most_one,
    lemma_with_key_index, lemma_with_key_take_grows, sorted_by, total_order, with_key,
};
use std::ops::Range;
use vstd::prelude::*;
use vstd::utf8::encode_utf8;

verus! {

/// One edit of a patch.
#[derive(Debug)]
pub enum Hunk {
    /// Insert the text at the byte offset.
    Insert(u64, String),
    /// Replace the bytes of the range by the text.
    Replace(Range<u64>, String),
}

/// What a hunk is, in mathematical terms.
pub enum HunkModel {
    Insert(u64, Seq<char>),
    Replace(u64, u64, Seq<char>),
}

impl HunkModel {
    /// The offset at which the hunk takes effect.
    pub open spec fn key(self) -> u64 {
        match self {
            HunkModel::Insert(p, _) => p,
            HunkModel::Replace(s, _, _) => s,
        }
    }

    /// The text that the hunk writes.
    pub open spec fn text(self) -> Seq<char> {
        match self {
            HunkModel::Insert(_, t) => t,
            HunkModel::Replace(_, _, t) => t,
        }
    }

    /// How many bytes of the source the hunk skips over after writing its text.
    pub open spec fn skip(self) -> nat {
        match self {
            HunkModel::Insert(_, _) => 0,
            HunkModel::Replace(s, e, _) => if e > s {
                (e - s) as nat
            } else {
                0
            },
        }
    }
}

impl Hunk {
    /// What the hunk is, in mathematical terms.
    pub open spec fn model(&self) -> HunkModel {
        match self {
            Hunk::Insert(p, t) => HunkModel::Insert(*p, t@),
            Hunk::Replace(r, t) => HunkModel::Replace(r.start, r.end, t@),
        }
    }

    fn key(&self) -> (k: u64)
        ensures
            k == self.model().key(),
    {
        match self {
            Hunk::Insert(p, _) => *p,
            Hunk::Replace(r, _) => r.start,
        }
    }
}

/// Hunks are applied in order of position; hunks at the same position keep the order
/// in which they were added.
pub open spec fn by_position() -> spec_fn(HunkModel, HunkModel) -> bool {
    |a: HunkModel, b: HunkModel| a.key() <= b.key()
}

/// The smaller of two numbers.
pub open spec fn min_nat(a: nat, b: nat) -> nat {
    if a <= b {
        a
    } else {
        b
    }
}

/// The larger of two numbers.
pub open spec fn max_nat(a: nat, b: nat) -> nat {
    if a >= b {
        a
    } else {
        b
    }
}

/// Where the read position of the source stands after `h` was applied with the read
/// position at `cur`: copying up to the hunk's offset stops at the end of the source,
/// and a replacement then seeks past the replaced bytes.
pub open spec fn next_cursor(h: HunkModel, len: nat, cur: nat) -> nat {
    max_nat(cur, min_nat(h.key() as nat, len)) + h.skip()
}

/// No hunk lies before the read position that the hunks before it left
/// (the copy up to its offset would have to go backwards).
pub open spec fn in_order_from(hs: Seq<HunkModel>, len: nat, cur: nat) -> bool
    decreases hs.len(),
{
    hs.len() == 0 || (cur <= hs[0].key() && in_order_from(
        hs.drop_first(),
        len,
        next_cursor(hs[0], len, cur),
    ))
}

/// Every seek past a replaced range ends at an offset that a file can hold.
pub open spec fn seekable_from(hs: Seq<HunkModel>, len: nat, cur: nat) -> bool
    decreases hs.len(),
{
    hs.len() == 0 || ((hs[0] is Replace ==> next_cursor(hs[0], len, cur) <= i64::MAX)
        && seekable_from(hs.drop_first(), len, next_cursor(hs[0], len, cur)))
}

/// The output of applying `hs` (already in order) to `src` with the read position at `cur`:
/// the source up to each hunk's offset, the hunk's text in UTF-8, and after the last hunk
/// the rest of the source.
pub open spec fn apply_from(hs: Seq<HunkModel>, src: Seq<u8>, cur: nat) -> Seq<u8>
    decreases hs.len(),
{
    let len = src.len();
    let lo = min_nat(cur, len);
    if hs.len() == 0 {
        src.subrange(lo as int, len as int)
    } else {
        let hi = max_nat(lo, min_nat(hs[0].key() as nat, len));
        src.subrange(lo as int, hi as int) + encode_utf8(hs[0].text()) + apply_from(
            hs.drop_first(),
            src,
            next_cursor(hs[0], len, cur),
        )
    }
}

/// A set of edits to a text.
#[derive(Debug)]
pub struct Patch {
    edits: Vec<Hunk>,
}

impl View for Patch {
    type V = Seq<HunkModel>;

    closed spec fn view(&self) -> Seq<HunkModel> {
        models(self.edits@)
    }
}

/// The models of a sequence of references to hunks.
pub open spec fn ref_models(v: Seq<&Hunk>) -> Seq<HunkModel> {
    v.map_values(|h: &Hunk| h.model())
}

/// The models of a sequence of hunks.
pub open spec fn models(v: Seq<Hunk>) -> Seq<HunkModel> {
    v.map_values(|h: Hunk| h.model())
}

impl Patch {
    /// The hunks in the order in which they are applied.
    pub open spec fn ordered(self) -> Seq<HunkModel> {
        sort_by(self@, by_position())
    }

    /// Applying the patch to a source of `len` bytes never copies backwards.
    pub open spec fn in_order(self, len: nat) -> bool {
        in_order_from(self.ordered(), len, 0)
    }

    /// Applying the patch to a source of `len` bytes never seeks out of range.
    pub open spec fn seekable(self, len: nat) -> bool {
        seekable_from(self.ordered(), len, 0)
    }

    /// The bytes that applying the patch to `src` writes.
    pub open spec fn applied(self, src: Seq<u8>) -> Seq<u8> {
        apply_from(self.ordered(), src, 0)
    }

    /// An empty patch.
    pub fn new() -> (p: Patch)
        ensures
            p@ == Seq::<HunkModel>::empty(),
    {
        let p = Patch { edits: Vec::new() };
        assert(p@ =~= Seq::<HunkModel>::empty());
        p
    }

    /// Adds a replacement of the bytes in `range` by `text`.
    pub fn replace(&mut self, range: Range<u64>, text: &str)
        ensures
            final(self)@ == old(self)@.push(HunkModel::Replace(range.start, range.end, text@)),
    {
        let ghost before = self@;
        self.edits.push(Hunk::Replace(range, text.to_owned()));
        assert(self@ =~= before.push(HunkModel::Replace(range.start, range.end, text@)));
    }

    /// Adds an insertion of `text` at byte offset `pos`.
    pub fn insert(&mut self, pos: u64, text: &str)
        ensures
            final(self)@ == old(self)@.push(HunkModel::Insert(pos, text@)),
    {
        let ghost before = self@;
        self.edits.push(Hunk::Insert(pos, text.to_owned()));
        assert(self@ =~= before.push(HunkModel::Insert(pos, text@)));
    }

    /// The hunks, sorted stably by position.
    fn ordered_refs(&self) -> (r: Vec<&Hunk>)
        ensures
            ref_models(r@) == self.ordered(),
    {
        let ghost s = self@;
        let mut out: Vec<&Hunk> = Vec::new();
        let n = self.edits.len();
        let mut i: usize = 0;
        assert(s.take(0) =~= Seq::<HunkModel>::empty());
        assert(ref_models(out@) =~= Seq::<HunkModel>::empty());
        while i < n
            invariant
                n == s.len(),
                s == self@,
                i <= n,
                ref_models(out@) == sort_by(s.take(i as int), by_position()),
            decreases n - i,
        {
            let ghost om = ref_models(out@);
            let h = &self.edits[i];
            assert(h.model() == s[i as int]);
            let key = h.key();
            let mut k: usize = 0;
            while k < out.len() && out[k].key() <= key
                invariant
                    k <= out@.len(),
                    om == ref_models(out@),
                    key == h.model().key(),
                    forall|j: int| 0 <= j < k ==> #[trigger] (by_position())(om[j], h.model()),
                decreases out@.len() - k,
            {
                k = k + 1;
            }
            proof {
                lemma_insert_by_at(om, h.model(), by_position(), k as int);
            }
            out.insert(k, h);
            proof {
                let t = s.take(i + 1);
                assert(t.drop_last() =~= s.take(i as int));
                assert(t.last() == s[i as int]);
                assert(ref_models(out@) =~= om.take(k as int) + seq![s[i as int]] + om.skip(
                    k as int,
                ));
            }
            i = i + 1;
        }
        assert(s.take(n as int) =~= s);
        out
    }

    /// Whether applying the patch to a source of `len` bytes never copies backwards.
    pub fn is_in_order(&self, len: usize) -> (r: bool)
        ensures
            r == self.in_order(len as nat),
    {
        let ghost hs = self.ordered();
        let ghost lenn = len as nat;
        let sorted = self.ordered_refs();
        let mut cur: u128 = 0;
        let mut j: usize = 0;
        assert(hs.skip(0) =~= hs);
        while j < sorted.len()
            invariant
                ref_models(sorted@) == hs,
                j <= hs.len(),
                lenn == len,
                cur <= u64::MAX,
                self.in_order(lenn) == in_order_from(hs.skip(j as int), lenn, cur as nat),
            decreases hs.len() - j,
        {
            let ghost t = hs.skip(j as int);
            assert(ref_models(sorted@)[j as int] == t[0]);
            assert(t.drop_first() =~= hs.skip(j + 1));
            let hunk = sorted[j];
            let key = hunk.key() as u128;
            if cur > key {
                return false;
            }
            let hi: u128 = if key <= len as u128 {
                key
            } else {
                len as u128
            };
            let after: u128 = if cur >= hi {
                cur
            } else {
                hi
            };
            let next: u128 = match hunk {
                Hunk::Insert(_, _) => after,
                Hunk::Replace(r, _) => {
                    if r.end > r.start {
                        after + (r.end - r.start) as u128
                    } else {
                        after
                    }
                },
            };
            assert(next as nat == next_cursor(t[0], lenn, cur as nat));
            if next > u64::MAX as u128 {
                // no later hunk can lie at or after the read position
                let ok = j + 1 == sorted.len();
                proof {
                    if j + 1 < hs.len() {
                        assert(hs.skip(j + 1)[0].key() <= u64::MAX);
                    } else {
                        assert(hs.skip(j + 1).len() == 0);
                    }
                }
                return ok;
            }
            cur = next;
            j = j + 1;
        }
        true
    }

    /// Writes `src` with the patch applied: each hunk's text goes in at its position, in
    /// order of position, and a replacement skips the bytes of its range.
    ///
    /// A replacement that would move the read position past `i64::MAX` fails as a seek
    /// on a file does.
    pub fn apply(self, src: &[u8]) -> (r: Result<Vec<u8>, Error>)
        requires
            self.in_order(src@.len()),
        ensures
            r is Ok <==> self.seekable(src@.len()),
            r matches Ok(out) ==> out@ == self.applied(src@),
            r is Err ==> r matches Err(Error::Io(_)),
    {
        let ghost hs = self.ordered();
        let ghost whole = self.applied(src@);
        let ghost seekable = self.seekable(src@.len());
        let sorted = self.ordered_refs();
        let len = src.len();
        let ghost lenn: nat = len as nat;
        let mut out: Vec<u8> = Vec::new();
        let mut cur: u64 = 0;
        let mut j: usize = 0;
        assert(hs.skip(0) =~= hs);
        while j < sorted.len()
            invariant
                ref_models(sorted@) == hs,
                j <= hs.len(),
                len == src@.len(),
                lenn == len,
                out@ + apply_from(hs.skip(j as int), src@, cur as nat) == whole,
                in_order_from(hs.skip(j as int), lenn, cur as nat),
                seekable == seekable_from(hs.skip(j as int), lenn, cur as nat),
                seekable == self.seekable(src@.len()),
            decreases hs.len() - j,
        {
            let ghost t = hs.skip(j as int);
            let ghost h = t[0];
            assert(ref_models(sorted@)[j as int] == h);
            assert(t.drop_first() =~= hs.skip(j + 1));
            let hunk = sorted[j];
            let key = hunk.key();
            let hi: u64 = if key <= len as u64 {
                key
            } else {
                len as u64
            };
            let lo: u64 = if cur <= len as u64 {
                cur
            } else {
                len as u64
            };
            let after: u64 = if cur >= hi {
                cur
            } else {
                hi
            };
            let ghost out0 = out@;
            let mut p = lo as usize;
            while p < hi as usize
                invariant
                    lo <= p <= hi <= len,
                    len == src@.len(),
                    out@ == out0 + src@.subrange(lo as int, p as int),
                decreases hi - p,
            {
                out.push(src[p]);
                assert(src@.subrange(lo as int, p + 1) =~= src@.subrange(lo as int, p as int).push(
                    src@[p as int],
                ));
                p = p + 1;
            }
            let text = match hunk {
                Hunk::Insert(_, t) => t,
                Hunk::Replace(_, t) => t,
            };
            let bytes = text.as_str().as_bytes();
            let ghost out1 = out@;
            let mut q: usize = 0;
            while q < bytes.len()
                invariant
                    q <= bytes@.len(),
                    out@ == out1 + bytes@.take(q as int),
                decreases bytes@.len() - q,
            {
                out.push(bytes[q]);
                assert(bytes@.take(q + 1) =~= bytes@.take(q as int).push(bytes@[q as int]));
                q = q + 1;
            }
            assert(bytes@.take(bytes@.len() as int) =~= bytes@);
            assert(text@ == h.text());
            let next: u64 = match hunk {
                Hunk::Insert(_, _) => after,
                Hunk::Replace(r, _) => {
                    let count: u64 = if r.end > r.start {
                        r.end - r.start
                    } else {
                        0
                    };
                    if after > i64::MAX as u64 || count > (i64::MAX as u64) - after {
                        assert(h is Replace);
                        assert(h.skip() == count);
                        assert(!seekable_from(t, lenn, cur as nat));

                        return Err(Error::Io(invalid_seek()));
                    }
                    after + count
                },
            };
            assert(next as nat == next_cursor(h, lenn, cur as nat));
            assert(out@ =~= out0 + src@.subrange(lo as int, hi as int) + encode_utf8(h.text()));
            cur = next;
            j = j + 1;
        }
        let lo = if cur <= len as u64 {
            cur as usize
        } else {
            len
        };
        let ghost out0 = out@;
        let mut p = lo;
        while p < len
            invariant
                lo <= p <= len,
                len == src@.len(),
                out@ == out0 + src@.subrange(lo as int, p as int),
            decreases len - p,
        {
            out.push(src[p]);
            assert(src@.subrange(lo as int, p + 1) =~= src@.subrange(lo as int, p as int).push(
                src@[p as int],
            ));
            p = p + 1;
        }
        assert(out@ =~= whole);
        Ok(out)
    }
}

/// The error of a seek to an offset that a file cannot hold.
///
/// Calls `std::io::Error::new` with `ErrorKind::InvalidInput`; nothing is stated of the value.
#[verifier::external_body]
fn invalid_seek() -> std::io::Error {
    std::io::Error::new(
        std::io::ErrorKind::InvalidInput,
        "invalid seek to a negative or overflowing position",
    )
}

/// Positions order hunks totally.
pub proof fn lemma_by_position_total()
    ensures
        total_order(by_position()),
{
}

/// An empty patch applies, and writes the source unchanged.
pub proof fn lemma_apply_empty(p: Patch, src: Seq<u8>)
    requires
        p@.len() == 0,
    ensures
        p.in_order(src.len()),
        p.seekable(src.len()),
        p.applied(src) == src,
{
    assert(p.ordered().len() == 0);
    assert(src.subrange(0, src.len() as int) =~= src);
}

/// A patch of one insertion writes the source with the text put in at the position (at
/// the end when the position lies past it).
pub proof fn lemma_apply_insert(p: Patch, src: Seq<u8>, pos: u64, text: Seq<char>)
    requires
        p@ == seq![HunkModel::Insert(pos, text)],
    ensures
        p.in_order(src.len()),
        p.seekable(src.len()),
        p.applied(src) == src.take(min_nat(pos as nat, src.len()) as int) + encode_utf8(text)
            + src.skip(min_nat(pos as nat, src.len()) as int),
{
    let h = HunkModel::Insert(pos, text);
    assert(p@.drop_last() =~= Seq::<HunkModel>::empty());
    assert(sort_by(p@.drop_last(), by_position()) =~= Seq::<HunkModel>::empty());
    assert(p@.last() == h);
    assert(insert_by(Seq::<HunkModel>::empty(), h, by_position()) =~= seq![h]);
    assert(p.ordered() =~= seq![h]);
    let hs = p.ordered();
    assert(hs.drop_first() =~= Seq::<HunkModel>::empty());
    assert(in_order_from(hs.drop_first(), src.len(), next_cursor(h, src.len(), 0)));
    assert(seekable_from(hs.drop_first(), src.len(), next_cursor(h, src.len(), 0)));
    let k = min_nat(pos as nat, src.len());
    assert(next_cursor(h, src.len(), 0) == k);
    assert(apply_from(hs.drop_first(), src, k) == src.subrange(k as int, src.len() as int));
    assert(p.applied(src) == src.subrange(0, k as int) + encode_utf8(text) + src.subrange(
        k as int,
        src.len() as int,
    ));
    assert(src.subrange(0, k as int) =~= src.take(k as int));
    assert(src.subrange(k as int, src.len() as int) =~= src.skip(k as int));
}

/// A patch of one replacement of bytes that lie in the source writes the source with
/// those bytes replaced by the text.
pub proof fn lemma_apply_replace(p: Patch, src: Seq<u8>, start: u64, end: u64, text: Seq<char>)
    requires
        p@ == seq![HunkModel::Replace(start, end, text)],
        start <= end <= src.len(),
        end <= i64::MAX,
    ensures
        p.in_order(src.len()),
        p.seekable(src.len()),
        p.applied(src) == src.take(start as int) + encode_utf8(text) + src.skip(end as int),
{
    let h = HunkModel::Replace(start, end, text);
    assert(p@.drop_last() =~= Seq::<HunkModel>::empty());
    assert(sort_by(p@.drop_last(), by_position()) =~= Seq::<HunkModel>::empty());
    assert(p@.last() == h);
    assert(insert_by(Seq::<HunkModel>::empty(), h, by_position()) =~= seq![h]);
    assert(p.ordered() =~= seq![h]);
    let hs = p.ordered();
    assert(hs.drop_first() =~= Seq::<HunkModel>::empty());
    assert(next_cursor(h, src.len(), 0) == end);
    assert(in_order_from(hs.drop_first(), src.len(), next_cursor(h, src.len(), 0)));
    assert(seekable_from(hs.drop_first(), src.len(), next_cursor(h, src.len(), 0)));
    assert(apply_from(hs.drop_first(), src, end as nat) == src.subrange(end as int, src.len() as int));
    assert(p.applied(src) == src.subrange(0, start as int) + encode_utf8(text) + src.subrange(
        end as int,
        src.len() as int,
    ));
    assert(src.subrange(0, start as int) =~= src.take(start as int));
    assert(src.subrange(end as int, src.len() as int) =~= src.skip(end as int));
}

proof fn lemma_insertions_in_order(hs: Seq<HunkModel>, len: nat, cur: nat)
    requires
        forall|i: int| 0 <= i < hs.len() ==> #[trigger] hs[i] is Insert,
        sorted_by(hs, by_position()),
        hs.len() > 0 ==> cur <= hs[0].key(),
    ensures
        in_order_from(hs, len, cur),
        seekable_from(hs, len, cur),
    decreases hs.len(),
{
    if hs.len() > 0 {
        let t = hs.drop_first();
        let next = next_cursor(hs[0], len, cur);
        assert(next <= hs[0].key());
        if t.len() > 0 {
            assert((by_position())(hs[0], hs[1]));
            assert(t[0] == hs[1]);
        }
        assert forall|i: int| 0 <= i < t.len() implies #[trigger] t[i] is Insert by {
            assert(t[i] == hs[i + 1]);
        }
        assert forall|i: int, j: int| 0 <= i < j < t.len() implies #[trigger] (by_position())(
            t[i],
            t[j],
        ) by {
            assert(t[i] == hs[i + 1] && t[j] == hs[j + 1]);
        }
        lemma_insertions_in_order(t, len, next);
    }
}

/// A patch of insertions only applies to any source, whatever its positions.
pub proof fn lemma_insertions_apply(p: Patch, len: nat)
    requires
        forall|i: int| 0 <= i < p@.len() ==> #[trigger] p@[i] is Insert,
    ensures
        p.in_order(len),
        p.seekable(len),
{
    let hs = p.ordered();
    lemma_by_position_total();
    lemma_sort_by_sorted(p@, by_position());
    assert forall|i: int| 0 <= i < hs.len() implies #[trigger] hs[i] is Insert by {
        assert(hs.contains(hs[i]));
        lemma_sort_by_contains(p@, by_position(), hs[i]);
        let j = choose|j: int| 0 <= j < p@.len() && p@[j] == hs[i];
        assert(p@[j] is Insert);
    }
    lemma_insertions_in_order(hs, len, 0);
}

/// The offset of a hunk, as an integer.
pub open spec fn position_of() -> spec_fn(HunkModel) -> int {
    |h: HunkModel| h.key() as int
}

/// Hunks at the same position are applied in the order in which they were added.
pub proof fn lemma_same_position_in_added_order(p: Patch, k: u64)
    ensures
        with_key(p.ordered(), position_of(), k as int) == with_key(p@, position_of(), k as int),
{
    lemma_sort_by_key_stable(p@, by_position(), position_of(), k as int);
}

/// The hunk at `x`, if it is a replacement, lies within a source of `len` bytes, and
/// every hunk after it starts at or after its end.
pub open spec fn clear_after(hs: Seq<HunkModel>, x: int, len: nat) -> bool {
    match hs[x] {
        HunkModel::Replace(s, e, _) => s <= e <= len && forall|y: int|
            x < y < hs.len() ==> #[trigger] hs[y].key() >= e,
        HunkModel::Insert(_, _) => true,
    }
}

/// Every replacement of `hs` lies within the source and is clear of the hunks after it.
pub open spec fn replacements_clear(hs: Seq<HunkModel>, len: nat) -> bool {
    forall|x: int| 0 <= x < hs.len() ==> #[trigger] clear_after(hs, x, len)
}

proof fn lemma_clear_in_order(hs: Seq<HunkModel>, len: nat, cur: nat)
    requires
        sorted_by(hs, by_position()),
        replacements_clear(hs, len),
        len <= i64::MAX,
        hs.len() > 0 ==> cur <= hs[0].key(),
    ensures
        in_order_from(hs, len, cur),
        seekable_from(hs, len, cur),
    decreases hs.len(),
{
    if hs.len() > 0 {
        let t = hs.drop_first();
        let next = next_cursor(hs[0], len, cur);
        assert(clear_after(hs, 0, len));
        if t.len() > 0 {
            assert(t[0] == hs[1]);
            assert((by_position())(hs[0], hs[1]));
            assert(next <= t[0].key());
        }
        match hs[0] {
            HunkModel::Replace(s, e, _) => {
                assert(next == e);
            },
            HunkModel::Insert(_, _) => {},
        }
        assert forall|x: int| 0 <= x < t.len() implies #[trigger] clear_after(t, x, len) by {
            assert(clear_after(hs, x + 1, len));
            assert(t[x] == hs[x + 1]);
            match hs[x + 1] {
                HunkModel::Replace(s, e, _) => {
                    assert forall|y: int| x < y < t.len() implies #[trigger] t[y].key() >= e by {
                        assert(t[y] == hs[y + 1]);
                    }
                },
                HunkModel::Insert(_, _) => {},
            }
        }
        assert forall|i: int, j: int| 0 <= i < j < t.len() implies #[trigger] (by_position())(
            t[i],
            t[j],
        ) by {
            assert(t[i] == hs[i + 1] && t[j] == hs[j + 1]);
        }
        lemma_clear_in_order(t, len, next);
    }
}

/// A patch applies to a source of `len` bytes when each of its replacements lies within
/// the source and every hunk applied after a replacement starts at or after its end.
pub proof fn lemma_clear_patch_applies(p: Patch, len: nat)
    requires
        replacements_clear(p.ordered(), len),
        len <= i64::MAX,
    ensures
        p.in_order(len),
        p.seekable(len),
{
    lemma_by_position_total();
    lemma_sort_by_sorted(p@, by_position());
    lemma_clear_in_order(p.ordered(), len, 0);
}

proof fn lemma_in_order_keys_ge(hs: Seq<HunkModel>, len: nat, cur: nat, k: int)
    requires
        in_order_from(hs, len, cur),
        0 <= k < hs.len(),
    ensures
        hs[k].key() >= cur,
    decreases k,
{
    if k > 0 {
        let t = hs.drop_first();
        lemma_in_order_keys_ge(t, len, next_cursor(hs[0], len, cur), k - 1);
        assert(t[k - 1] == hs[k]);
    }
}

/// When the hunks apply from read position `cur`, a hunk after a replacement of bytes
/// within the source starts at or after the replacement's end.
pub proof fn lemma_in_order_after_replace(hs: Seq<HunkModel>, len: nat, cur: nat, x: int, y: int)
    requires
        in_order_from(hs, len, cur),
        0 <= x < y < hs.len(),
        hs[x] matches HunkModel::Replace(s, e, _) && s <= e <= len,
    ensures
        hs[y].key() >= hs[x]->Replace_1,
    decreases x,
{
    let t = hs.drop_first();
    let next = next_cursor(hs[0], len, cur);
    assert(t[y - 1] == hs[y]);
    if x == 0 {
        lemma_in_order_keys_ge(t, len, next, y - 1);
    } else {
        assert(t[x - 1] == hs[x]);
        lemma_in_order_after_replace(t, len, next, x - 1, y - 1);
    }
}

/// In a patch that applies to a source of `len` bytes, no hunk applied after a
/// replacement within the source starts before the replacement's end.
pub proof fn lemma_in_order_is_clear(p: Patch, len: nat)
    requires
        p.in_order(len),
        forall|x: int|
            0 <= x < p.ordered().len() && #[trigger] p.ordered()[x] is Replace ==> p.ordered()[x]->Replace_0
                <= p.ordered()[x]->Replace_1 <= len,
    ensures
        replacements_clear(p.ordered(), len),
{
    let hs = p.ordered();
    assert forall|x: int| 0 <= x < hs.len() implies #[trigger] clear_after(hs, x, len) by {
        if hs[x] is Replace {
            assert forall|y: int| x < y < hs.len() implies #[trigger] hs[y].key() >= hs[x]->Replace_1 by {
                lemma_in_order_after_replace(hs, len, 0, x, y);
            }
        }
    }
}

/// Where a hunk leaves the source: an insertion at its offset, a replacement at the end
/// of its range.
pub open spec fn end_of(h: HunkModel) -> nat {
    match h {
        HunkModel::Insert(p, _) => p as nat,
        HunkModel::Replace(_, e, _) => e as nat,
    }
}

/// Each replacement's range runs forwards, and each hunk starts at or after the place
/// where the one before it left the source.
pub open spec fn chained(hs: Seq<HunkModel>) -> bool {
    &&& forall|i: int|
        0 <= i < hs.len() ==> (#[trigger] hs[i] matches HunkModel::Replace(s, e, _) ==> s <= e)
    &&& forall|i: int| 0 < i < hs.len() ==> #[trigger] hs[i].key() >= end_of(hs[i - 1])
}

proof fn lemma_chained_from(hs: Seq<HunkModel>, len: nat, cur: nat)
    requires
        chained(hs),
        hs.len() > 0 ==> cur <= hs[0].key(),
    ensures
        in_order_from(hs, len, cur),
        (forall|i: int| 0 <= i < hs.len() ==> end_of(#[trigger] hs[i]) <= i64::MAX) ==> seekable_from(
            hs,
            len,
            cur,
        ),
    decreases hs.len(),
{
    if hs.len() > 0 {
        let t = hs.drop_first();
        let next = next_cursor(hs[0], len, cur);
        assert(next <= end_of(hs[0])) by {
            assert(hs[0] matches HunkModel::Replace(s, e, _) ==> s <= e);
        }
        if t.len() > 0 {
            assert(t[0] == hs[1]);
            assert(hs[1].key() >= end_of(hs[0]));
        }
        assert forall|i: int| 0 <= i < t.len() implies (#[trigger] t[i] matches HunkModel::Replace(
            s,
            e,
            _,
        ) ==> s <= e) by {
            assert(t[i] == hs[i + 1]);
        }
        assert forall|i: int| 0 < i < t.len() implies #[trigger] t[i].key() >= end_of(t[i - 1]) by {
            assert(t[i] == hs[i + 1] && t[i - 1] == hs[i]);
        }
        lemma_chained_from(t, len, next);
        if forall|i: int| 0 <= i < hs.len() ==> end_of(#[trigger] hs[i]) <= i64::MAX {
            assert(end_of(hs[0]) <= i64::MAX);
            assert forall|i: int| 0 <= i < t.len() implies end_of(#[trigger] t[i]) <= i64::MAX by {
                assert(t[i] == hs[i + 1]);
            }
        }
    }
}

/// A patch whose hunks, in the order in which they are applied, are chained applies to
/// a source of any length without copying backwards; and it never seeks out of range
/// when every hunk leaves the source at an offset that a file can hold.
pub proof fn lemma_chained_patch_applies(p: Patch, len: nat)
    requires
        chained(p.ordered()),
    ensures
        p.in_order(len),
        (forall|i: int| 0 <= i < p.ordered().len() ==> end_of(#[trigger] p.ordered()[i]) <= i64::MAX)
            ==> p.seekable(len),
{
    lemma_chained_from(p.ordered(), len, 0);
}

/// No two hunks share an offset.
pub open spec fn distinct_positions(hs: Seq<HunkModel>) -> bool {
    forall|i: int, j: int| 0 <= i < j < hs.len() ==> (#[trigger] hs[i]).key() != (#[trigger] hs[j]).key()
}

proof fn lemma_ordered_strict(p: Patch)
    requires
        distinct_positions(p@),
    ensures
        forall|i: int, j: int|
            0 <= i < j < p.ordered().len() ==> position_of()(#[trigger] p.ordered()[i]) < position_of()(
                #[trigger] p.ordered()[j],
            ),
{
    let hs = p.ordered();
    let pos = position_of();
    lemma_by_position_total();
    lemma_sort_by_sorted(p@, by_position());
    assert forall|i: int, j: int| 0 <= i < j < hs.len() implies pos(#[trigger] hs[i]) < pos(
        #[trigger] hs[j],
    ) by {
        assert((by_position())(hs[i], hs[j]));
        if pos(hs[i]) == pos(hs[j]) {
            let k = pos(hs[i]);
            lemma_with_key_at_most_one(p@, pos, k);
            lemma_same_position_in_added_order(p, k as u64);
            lemma_with_key_take_grows(hs, pos, k, i, j);
            lemma_with_key_index(hs, pos, k, j);
        }
    }
}

/// Insertions and replacements at distinct offsets may be added in any order: two
/// patches made of the same hunks apply alike.
pub proof fn lemma_order_of_edits_irrelevant(p: Patch, q: Patch, len: nat, src: Seq<u8>)
    requires
        p@.to_multiset() == q@.to_multiset(),
        distinct_positions(p@),
        distinct_positions(q@),
    ensures
        p.ordered() == q.ordered(),
        p.in_order(len) == q.in_order(len),
        p.seekable(len) == q.seekable(len),
        p.applied(src) == q.applied(src),
{
    lemma_ordered_strict(p);
    lemma_ordered_strict(q);
    lemma_sort_by_multiset(p@, by_position());
    lemma_sort_by_multiset(q@, by_position());
    lemma_strictly_sorted_unique(p.ordered(), q.ordered(), position_of());
}

/// `bytes`, each marked with whether it comes from the source.
pub open spec fn tagged(bytes: Seq<u8>, from_source: bool) -> Seq<(u8, bool)> {
    bytes.map_values(|b: u8| (b, from_source))
}

/// What applying `hs` (already in order) to `src` from read position `cur` writes, each
/// byte marked with whether it was copied from the source or written from a hunk.
pub open spec fn apply_marked(hs: Seq<HunkModel>, src: Seq<u8>, cur: nat) -> Seq<(u8, bool)>
    decreases hs.len(),
{
    let len = src.len();
    let lo = min_nat(cur, len);
    if hs.len() == 0 {
        tagged(src.subrange(lo as int, len as int), true)
    } else {
        let hi = max_nat(lo, min_nat(hs[0].key() as nat, len));
        tagged(src.subrange(lo as int, hi as int), true) + tagged(encode_utf8(hs[0].text()), false)
            + apply_marked(hs.drop_first(), src, next_cursor(hs[0], len, cur))
    }
}

/// The bytes of a marked output.
pub open spec fn bytes_of(s: Seq<(u8, bool)>) -> Seq<u8> {
    s.map_values(|x: (u8, bool)| x.0)
}

/// The bytes of a marked output that were copied from the source, in order.
pub open spec fn copied(s: Seq<(u8, bool)>) -> Seq<u8>
    decreases s.len(),
{
    if s.len() == 0 {
        seq![]
    } else if s.last().1 {
        copied(s.drop_last()).push(s.last().0)
    } else {
        copied(s.drop_last())
    }
}

proof fn lemma_copied_add(a: Seq<(u8, bool)>, b: Seq<(u8, bool)>)
    ensures
        copied(a + b) == copied(a) + copied(b),
    decreases b.len(),
{
    if b.len() == 0 {
        assert(a + b =~= a);
        assert(copied(a) + copied(b) =~= copied(a));
    } else {
        lemma_copied_add(a, b.drop_last());
        assert((a + b).drop_last() =~= a + b.drop_last());
        assert((a + b).last() == b.last());
        if b.last().1 {
            assert(copied(a) + copied(b.drop_last()).push(b.last().0) =~= (copied(a) + copied(
                b.drop_last(),
            )).push(b.last().0));
        }
    }
}

proof fn lemma_copied_tagged(bytes: Seq<u8>, from_source: bool)
    ensures
        copied(tagged(bytes, from_source)) == (if from_source {
            bytes
        } else {
            Seq::<u8>::empty()
        }),
    decreases bytes.len(),
{
    if bytes.len() > 0 {
        lemma_copied_tagged(bytes.drop_last(), from_source);
        assert(tagged(bytes, from_source).drop_last() =~= tagged(bytes.drop_last(), from_source));
        if from_source {
            assert(bytes.drop_last().push(bytes.last()) =~= bytes);
        }
    } else {
        assert(tagged(bytes, from_source) =~= Seq::<(u8, bool)>::empty());
    }
}

proof fn lemma_apply_marked(hs: Seq<HunkModel>, src: Seq<u8>, cur: nat)
    ensures
        bytes_of(apply_marked(hs, src, cur)) == apply_from(hs, src, cur),
        (forall|i: int| 0 <= i < hs.len() ==> #[trigger] hs[i] is Insert) ==> copied(
            apply_marked(hs, src, cur),
        ) == src.subrange(min_nat(cur, src.len()) as int, src.len() as int),
    decreases hs.len(),
{
    let len = src.len();
    let lo = min_nat(cur, len);
    if hs.len() == 0 {
        assert(bytes_of(tagged(src.subrange(lo as int, len as int), true)) =~= src.subrange(
            lo as int,
            len as int,
        ));
        lemma_copied_tagged(src.subrange(lo as int, len as int), true);
    } else {
        let hi = max_nat(lo, min_nat(hs[0].key() as nat, len));
        let next = next_cursor(hs[0], len, cur);
        let a = tagged(src.subrange(lo as int, hi as int), true);
        let b = tagged(encode_utf8(hs[0].text()), false);
        let rest = apply_marked(hs.drop_first(), src, next);
        lemma_apply_marked(hs.drop_first(), src, next);
        assert(bytes_of(a + b + rest) =~= bytes_of(a) + bytes_of(b) + bytes_of(rest));
        assert(bytes_of(a) =~= src.subrange(lo as int, hi as int));
        assert(bytes_of(b) =~= encode_utf8(hs[0].text()));
        if forall|i: int| 0 <= i < hs.len() ==> #[trigger] hs[i] is Insert {
            assert(hs[0] is Insert);
            assert forall|i: int| 0 <= i < hs.drop_first().len() implies #[trigger] hs.drop_first()[i] is Insert by {
                assert(hs.drop_first()[i] == hs[i + 1]);
            }
            assert(min_nat(next, len) == hi);
            lemma_copied_add(a + b, rest);
            lemma_copied_add(a, b);
            lemma_copied_tagged(src.subrange(lo as int, hi as int), true);
            lemma_copied_tagged(encode_utf8(hs[0].text()), false);
            assert(src.subrange(lo as int, hi as int) + Seq::<u8>::empty() + src.subrange(
                hi as int,
                len as int,
            ) =~= src.subrange(lo as int, len as int));
        }
    }
}

impl Patch {
    /// What applying the patch to `src` writes, each byte marked with whether it was
    /// copied from the source.
    pub open spec fn marked(self, src: Seq<u8>) -> Seq<(u8, bool)> {
        apply_marked(self.ordered(), src, 0)
    }
}

/// The marked output is the output; and when the patch only inserts, the bytes copied
/// from the source are the whole source: removing the inserted texts gives it back.
pub proof fn lemma_insertions_keep_source(p: Patch, src: Seq<u8>)
    ensures
        bytes_of(p.marked(src)) == p.applied(src),
        (forall|i: int| 0 <= i < p@.len() ==> #[trigger] p@[i] is Insert) ==> copied(p.marked(src))
            == src,
{
    let hs = p.ordered();
    lemma_apply_marked(hs, src, 0);
    if forall|i: int| 0 <= i < p@.len() ==> #[trigger] p@[i] is Insert {
        assert forall|i: int| 0 <= i < hs.len() implies #[trigger] hs[i] is Insert by {
            assert(hs.contains(hs[i]));
            lemma_sort_by_contains(p@, by_position(), hs[i]);
            let j = choose|j: int| 0 <= j < p@.len() && p@[j] == hs[i];
            assert(p@[j] is Insert);
        }
        assert(src.subrange(0, src.len() as int) =~= src);
    }
}

} // verus!
