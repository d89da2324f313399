//! An object of the print: its escaped name, the byte ranges of the G-code that print
//! it, and the points at which it was extruded.
use crate::text::{chars_of, is_alnum, is_alnum_char, string_of};
use std::ops::Range;
use vstd::prelude::*;

verus! {

/// The state of escaping after `s`: the text so far, and whether the last character
/// seen was dropped as a separator.
pub open spec fn escape_state(s: Seq<char>) -> (Seq<char>, bool)
    decreases s.len(),
{
    if s.len() == 0 {
        (seq![], false)
    } else {
        let (out, escaping) = escape_state(s.drop_last());
        let c = s.last();
        if is_alnum(c) {
            (out.push(c), false)
        } else if !escaping {
            (
                if out.len() > 0 {
                    out.push('_')
                } else {
                    out
                },
                true,
            )
        } else {
            (out, true)
        }
    }
}

/// `s` with each run of characters that are not ASCII letters or digits turned into one
/// `_`, and none at either end.
pub open spec fn escape(s: Seq<char>) -> Seq<char> {
    let out = escape_state(s).0;
    if out.len() > 0 && out.last() == '_' {
        out.drop_last()
    } else {
        out
    }
}

/// The ASCII letters and digits of `s`, in order.
pub open spec fn alnum_chars(s: Seq<char>) -> Seq<char>
    decreases s.len(),
{
    if s.len() == 0 {
        seq![]
    } else if is_alnum(s.last()) {
        alnum_chars(s.drop_last()).push(s.last())
    } else {
        alnum_chars(s.drop_last())
    }
}

/// `s` is a name as escaping leaves it: ASCII letters, digits and single `_` between them.
pub open spec fn is_escaped(s: Seq<char>) -> bool {
    &&& forall|i: int| 0 <= i < s.len() ==> is_alnum(#[trigger] s[i]) || s[i] == '_'
    &&& s.len() > 0 ==> is_alnum(s[0]) && is_alnum(s.last())
    &&& forall|i: int| 0 <= i < s.len() - 1 ==> !(#[trigger] s[i] == '_' && s[i + 1] == '_')
}

proof fn lemma_escape_state(s: Seq<char>)
    ensures
        ({
            let (out, escaping) = escape_state(s);
            &&& forall|i: int| 0 <= i < out.len() ==> is_alnum(#[trigger] out[i]) || out[i] == '_'
            &&& out.len() > 0 ==> is_alnum(out[0])
            &&& forall|i: int| 0 <= i < out.len() - 1 ==> !(#[trigger] out[i] == '_' && out[i + 1] == '_')
            &&& escaping && out.len() > 0 ==> out.last() == '_'
            &&& !escaping && out.len() > 0 ==> is_alnum(out.last())
            &&& alnum_chars(out) == alnum_chars(s)
        }),
    decreases s.len(),
{
    if s.len() > 0 {
        lemma_escape_state(s.drop_last());
        let (out, escaping) = escape_state(s.drop_last());
        let c = s.last();
        if is_alnum(c) {
            let o2 = out.push(c);
            assert(o2.drop_last() =~= out);
            assert forall|i: int| 0 <= i < o2.len() - 1 implies !(#[trigger] o2[i] == '_' && o2[i + 1] == '_') by {
                if i + 1 == out.len() {
                    assert(o2[i + 1] == c);
                } else {
                    assert(o2[i] == out[i] && o2[i + 1] == out[i + 1]);
                }
            }
        } else if !escaping && out.len() > 0 {
            let o2 = out.push('_');
            assert(o2.drop_last() =~= out);
            assert forall|i: int| 0 <= i < o2.len() - 1 implies !(#[trigger] o2[i] == '_' && o2[i + 1] == '_') by {
                if i + 1 == out.len() {
                    assert(o2[i] == out.last());
                } else {
                    assert(o2[i] == out[i] && o2[i + 1] == out[i + 1]);
                }
            }
        }
    }
}

/// What escaping gives is made of ASCII letters, digits and single `_` between them.
pub proof fn lemma_escape_is_escaped(s: Seq<char>)
    ensures
        is_escaped(escape(s)),
{
    lemma_escape_state(s);
    let out = escape_state(s).0;
    if out.len() > 0 && out.last() == '_' {
        let e = out.drop_last();
        if e.len() > 0 {
            assert(!(out[out.len() - 2] == '_' && out[out.len() - 1] == '_'));
            assert(e.last() == out[out.len() - 2]);
        }
        assert forall|i: int| 0 <= i < e.len() - 1 implies !(#[trigger] e[i] == '_' && e[i + 1] == '_') by {
            assert(e[i] == out[i] && e[i + 1] == out[i + 1]);
        }
        assert forall|i: int| 0 <= i < e.len() implies is_alnum(#[trigger] e[i]) || e[i] == '_' by {
            assert(e[i] == out[i]);
        }
    }
}

/// Escaping keeps every ASCII letter and digit of the name, in order, and adds none.
pub proof fn lemma_escape_keeps_alnums(s: Seq<char>)
    ensures
        alnum_chars(escape(s)) == alnum_chars(s),
{
    lemma_escape_state(s);
    let out = escape_state(s).0;
    if out.len() > 0 && out.last() == '_' {
        assert(out.drop_last().push('_') =~= out);
    }
}

/// A name made of ASCII letters, digits and single `_` between them escapes to itself.
pub proof fn lemma_escape_fixes_escaped(t: Seq<char>)
    requires
        is_escaped(t),
    ensures
        escape(t) == t,
{
    assert forall|i: int| 0 <= i <= t.len() implies #[trigger] escape_state(t.take(i)) == (
        t.take(i),
        i > 0 && t[i - 1] == '_',
    ) by {
        lemma_escape_prefix(t, i);
    }
    assert(t.take(t.len() as int) =~= t);
    assert(escape_state(t) == (t, t.len() > 0 && t[t.len() - 1] == '_'));
}

proof fn lemma_escape_prefix(t: Seq<char>, i: int)
    requires
        is_escaped(t),
        0 <= i <= t.len(),
    ensures
        escape_state(t.take(i)) == (t.take(i), i > 0 && t[i - 1] == '_'),
    decreases i,
{
    if i > 0 {
        lemma_escape_prefix(t, i - 1);
        let p = t.take(i);
        assert(p.drop_last() =~= t.take(i - 1));
        assert(p.last() == t[i - 1]);
        if !is_alnum(t[i - 1]) {
            assert(t[i - 1] == '_');
            assert(i - 1 > 0);
            assert(!(t[i - 2] == '_' && t[i - 1] == '_'));
        }
        assert(t.take(i - 1).push(t[i - 1]) =~= p);
    } else {
        assert(t.take(0) =~= Seq::<char>::empty());
    }
}

/// Escaping an escaped name changes nothing.
pub proof fn lemma_escape_idempotent(s: Seq<char>)
    ensures
        escape(escape(s)) == escape(s),
{
    lemma_escape_is_escaped(s);
    lemma_escape_fixes_escaped(escape(s));
}

/// Escapes an object's name for use in `EXCLUDE_OBJECT_*` commands.
pub fn escape_id(id: &str) -> (r: String)
    ensures
        r@ == escape(id@),
{
    let cs = chars_of(id);
    let mut escaped: Vec<char> = Vec::new();
    let mut escaping = false;
    let mut i: usize = 0;
    while i < cs.len()
        invariant
            i <= cs@.len(),
            cs@ == id@,
            (escaped@, escaping) == escape_state(cs@.take(i as int)),
        decreases cs@.len() - i,
    {
        let c = cs[i];
        proof {
            assert(cs@.take(i + 1).drop_last() =~= cs@.take(i as int));
            assert(cs@.take(i + 1).last() == c);
        }
        if is_alnum_char(c) {
            escaped.push(c);
            escaping = false;
        } else if !escaping {
            if escaped.len() > 0 {
                escaped.push('_');
            }
            escaping = true;
        }
        i = i + 1;
    }
    assert(cs@.take(cs@.len() as int) =~= cs@);
    let n = escaped.len();
    if n > 0 && escaped[n - 1] == '_' {
        escaped.pop();
    }
    string_of(&escaped, 0, escaped.len())
}

/// What a known object is, in mathematical terms.
pub struct ObjectModel<P> {
    pub id: Seq<char>,
    pub ranges: Seq<Range<u64>>,
    pub points: Seq<P>,
}

/// An object of the print that was seen with at least one extrusion.
#[derive(Debug)]
pub struct KnownObject<P> {
    id: String,
    ranges: Vec<Range<u64>>,
    points: Vec<P>,
}

impl<P> View for KnownObject<P> {
    type V = ObjectModel<P>;

    closed spec fn view(&self) -> ObjectModel<P> {
        ObjectModel { id: self.id@, ranges: self.ranges@, points: self.points@ }
    }
}

impl<P> KnownObject<P> {
    /// An object named `id` (escaped), printed by the bytes in `range`, extruded at `points`.
    pub fn new(id: &str, range: Range<u64>, points: Vec<P>) -> (r: Self)
        ensures
            r@ == (ObjectModel { id: escape(id@), ranges: seq![range], points: points@ }),
    {
        let mut ranges = Vec::new();
        ranges.push(range);
        let r = KnownObject { id: escape_id(id), ranges, points };
        assert(r@.ranges =~= seq![range]);
        r
    }

    /// Adds another range of bytes that print the object, and the points extruded there.
    pub fn union(&mut self, range: Range<u64>, points: Vec<P>)
        ensures
            final(self)@ == (ObjectModel {
                id: old(self)@.id,
                ranges: old(self)@.ranges.push(range),
                points: old(self)@.points + points@,
            }),
    {
        let mut points = points;
        self.ranges.push(range);
        self.points.append(&mut points);
    }

    /// The escaped name.
    pub fn id(&self) -> (r: &str)
        ensures
            r@ == self@.id,
    {
        self.id.as_str()
    }

    /// The ranges of bytes that print the object, in the order in which they were seen.
    pub fn ranges(&self) -> (r: &[Range<u64>])
        ensures
            r@ == self@.ranges,
    {
        self.ranges.as_slice()
    }

    /// The points at which the object was extruded, in order.
    pub fn points(&self) -> (r: &[P])
        ensures
            r@ == self@.points,
    {
        self.points.as_slice()
    }
}

} // verus!
