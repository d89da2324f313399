//! Stable insertion sort, as a specification.
use vstd::prelude::*;

verus! {

/// Inserts `x` into `s` just before the first element `e` for which `le(e, x)` fails,
/// so that `x` goes after every element that orders before it or ties with it.
pub open spec fn insert_by<T>(s: Seq<T>, x: T, le: spec_fn(T, T) -> bool) -> Seq<T>
    decreases s.len(),
{
    if s.len() == 0 {
        seq![x]
    } else if le(s[0], x) {
        seq![s[0]] + insert_by(s.drop_first(), x, le)
    } else {
        seq![x] + s
    }
}

/// Stable sort of `s` by the order `le`: the elements are inserted one after the other,
/// each after all earlier elements that order before it or tie with it.
pub open spec fn sort_by<T>(s: Seq<T>, le: spec_fn(T, T) -> bool) -> Seq<T>
    decreases s.len(),
{
    if s.len() == 0 {
        s
    } else {
        insert_by(sort_by(s.drop_last(), le), s.last(), le)
    }
}

/// `s` is ordered by `le`: every element orders before or ties with every later one.
pub open spec fn sorted_by<T>(s: Seq<T>, le: spec_fn(T, T) -> bool) -> bool {
    forall|i: int, j: int| 0 <= i < j < s.len() ==> #[trigger] le(s[i], s[j])
}

/// Insertion at the first element that does not order before `x`.
pub proof fn lemma_insert_by_at<T>(s: Seq<T>, x: T, le: spec_fn(T, T) -> bool, k: int)
    requires
        0 <= k <= s.len(),
        forall|i: int| 0 <= i < k ==> #[trigger] le(s[i], x),
        k < s.len() ==> !le(s[k], x),
    ensures
        insert_by(s, x, le) == s.take(k) + seq![x] + s.skip(k),
    decreases k,
{
    if k == 0 {
        if s.len() == 0 {
            assert(s.take(0) + seq![x] + s.skip(0) =~= seq![x]);
        } else {
            assert(s.take(0) + seq![x] + s.skip(0) =~= seq![x] + s);
        }
    } else {
        let t = s.drop_first();
        assert forall|i: int| 0 <= i < k - 1 implies #[trigger] le(t[i], x) by {
            assert(t[i] == s[i + 1]);
        }
        lemma_insert_by_at(t, x, le, k - 1);
        assert(seq![s[0]] + (t.take(k - 1) + seq![x] + t.skip(k - 1)) =~= s.take(k) + seq![x]
            + s.skip(k));
    }
}

/// Inserting into a sequence adds exactly one element.
pub proof fn lemma_insert_by_len<T>(s: Seq<T>, x: T, le: spec_fn(T, T) -> bool)
    ensures
        insert_by(s, x, le).len() == s.len() + 1,
    decreases s.len(),
{
    if s.len() > 0 && le(s[0], x) {
        lemma_insert_by_len(s.drop_first(), x, le);
    }
}

/// Sorting keeps the length.
pub proof fn lemma_sort_by_len<T>(s: Seq<T>, le: spec_fn(T, T) -> bool)
    ensures
        sort_by(s, le).len() == s.len(),
    decreases s.len(),
{
    if s.len() > 0 {
        lemma_sort_by_len(s.drop_last(), le);
        lemma_insert_by_len(sort_by(s.drop_last(), le), s.last(), le);
    }
}

/// The index of the first element of `s` that does not order before `x` (or the length).
pub open spec fn first_not_le<T>(s: Seq<T>, x: T, le: spec_fn(T, T) -> bool) -> int
    decreases s.len(),
{
    if s.len() == 0 {
        0
    } else if le(s[0], x) {
        1 + first_not_le(s.drop_first(), x, le)
    } else {
        0
    }
}

proof fn lemma_first_not_le<T>(s: Seq<T>, x: T, le: spec_fn(T, T) -> bool)
    ensures
        0 <= first_not_le(s, x, le) <= s.len(),
        forall|i: int| 0 <= i < first_not_le(s, x, le) ==> #[trigger] le(s[i], x),
        first_not_le(s, x, le) < s.len() ==> !le(s[first_not_le(s, x, le)], x),
    decreases s.len(),
{
    if s.len() > 0 && le(s[0], x) {
        let t = s.drop_first();
        lemma_first_not_le(t, x, le);
        assert forall|i: int| 0 <= i < first_not_le(s, x, le) implies #[trigger] le(s[i], x) by {
            if i > 0 {
                assert(s[i] == t[i - 1]);
            }
        }
    }
}

/// Inserting places `x` at the first element that does not order before it.
pub proof fn lemma_insert_by_split<T>(s: Seq<T>, x: T, le: spec_fn(T, T) -> bool)
    ensures
        insert_by(s, x, le) == s.take(first_not_le(s, x, le)) + seq![x] + s.skip(
            first_not_le(s, x, le),
        ),
{
    lemma_first_not_le(s, x, le);
    lemma_insert_by_at(s, x, le, first_not_le(s, x, le));
}

/// Inserting adds `x` and keeps every element.
pub proof fn lemma_insert_by_contains<T>(s: Seq<T>, x: T, le: spec_fn(T, T) -> bool, y: T)
    ensures
        insert_by(s, x, le).contains(y) <==> (y == x || s.contains(y)),
{
    lemma_insert_by_split(s, x, le);
    let k = first_not_le(s, x, le);
    lemma_first_not_le(s, x, le);
    let r = insert_by(s, x, le);
    if r.contains(y) {
        let j = choose|j: int| 0 <= j < r.len() && r[j] == y;
        if j < k {
            assert(s[j] == y);
        } else if j > k {
            assert(s[j - 1] == y);
        }
    }
    if s.contains(y) {
        let j = choose|j: int| 0 <= j < s.len() && s[j] == y;
        if j < k {
            assert(r[j] == y);
        } else {
            assert(r[j + 1] == y);
        }
    }
    if y == x {
        assert(r[k] == x);
    }
}

/// Sorting keeps exactly the elements.
pub proof fn lemma_sort_by_contains<T>(s: Seq<T>, le: spec_fn(T, T) -> bool, y: T)
    ensures
        sort_by(s, le).contains(y) <==> s.contains(y),
    decreases s.len(),
{
    if s.len() > 0 {
        lemma_sort_by_contains(s.drop_last(), le, y);
        lemma_insert_by_contains(sort_by(s.drop_last(), le), s.last(), le, y);
        if s.contains(y) && y != s.last() {
            let j = choose|j: int| 0 <= j < s.len() && s[j] == y;
            assert(s.drop_last()[j] == y);
        }
        if s.drop_last().contains(y) {
            let j = choose|j: int| 0 <= j < s.drop_last().len() && s.drop_last()[j] == y;
            assert(s[j] == y);
        }
        if y == s.last() {
            assert(s[s.len() - 1] == y);
        }
    }
}

/// `le` relates any two elements one way or the other, and chains.
pub open spec fn total_order<T>(le: spec_fn(T, T) -> bool) -> bool {
    &&& forall|a: T, b: T| #[trigger] le(a, b) || le(b, a)
    &&& forall|a: T, b: T, c: T| #[trigger] le(a, b) && #[trigger] le(b, c) ==> le(a, c)
}

/// Inserting into an ordered sequence keeps it ordered.
pub proof fn lemma_insert_by_sorted<T>(s: Seq<T>, x: T, le: spec_fn(T, T) -> bool)
    requires
        sorted_by(s, le),
        total_order(le),
    ensures
        sorted_by(insert_by(s, x, le), le),
{
    lemma_insert_by_split(s, x, le);
    lemma_first_not_le(s, x, le);
    let k = first_not_le(s, x, le);
    let r = insert_by(s, x, le);
    assert forall|i: int, j: int| 0 <= i < j < r.len() implies #[trigger] le(r[i], r[j]) by {
        if j < k {
            assert(r[i] == s[i] && r[j] == s[j]);
        } else if j == k {
            assert(r[i] == s[i] && r[j] == x);
        } else if i < k {
            assert(r[i] == s[i] && r[j] == s[j - 1]);
            assert(le(s[i], s[j - 1]) || i == j - 1);
        } else if i == k {
            assert(r[i] == x && r[j] == s[j - 1]);
            assert(le(x, s[k]));
            if k < j - 1 {
                assert(le(s[k], s[j - 1]));
            }
        } else {
            assert(r[i] == s[i - 1] && r[j] == s[j - 1]);
        }
    }
}

/// Sorting by a total order gives an ordered sequence.
pub proof fn lemma_sort_by_sorted<T>(s: Seq<T>, le: spec_fn(T, T) -> bool)
    requires
        total_order(le),
    ensures
        sorted_by(sort_by(s, le), le),
    decreases s.len(),
{
    if s.len() > 0 {
        lemma_sort_by_sorted(s.drop_last(), le);
        lemma_insert_by_sorted(sort_by(s.drop_last(), le), s.last(), le);
    }
}

/// The elements of `s` whose key is `k`, in order.
pub open spec fn with_key<T>(s: Seq<T>, key: spec_fn(T) -> int, k: int) -> Seq<T>
    decreases s.len(),
{
    if s.len() == 0 {
        seq![]
    } else if key(s.last()) == k {
        with_key(s.drop_last(), key, k).push(s.last())
    } else {
        with_key(s.drop_last(), key, k)
    }
}

/// Picking the elements with one key distributes over concatenation.
pub proof fn lemma_with_key_add<T>(a: Seq<T>, b: Seq<T>, key: spec_fn(T) -> int, k: int)
    ensures
        with_key(a + b, key, k) == with_key(a, key, k) + with_key(b, key, k),
    decreases b.len(),
{
    if b.len() == 0 {
        assert(a + b =~= a);
        assert(with_key(a, key, k) + with_key(b, key, k) =~= with_key(a, key, k));
    } else {
        lemma_with_key_add(a, b.drop_last(), key, k);
        assert((a + b).drop_last() =~= a + b.drop_last());
        assert((a + b).last() == b.last());
        if key(b.last()) == k {
            assert(with_key(a, key, k) + with_key(b.drop_last(), key, k).push(b.last())
                =~= (with_key(a, key, k) + with_key(b.drop_last(), key, k)).push(b.last()));
        }
    }
}

/// No element has key `k`: none is picked.
pub proof fn lemma_with_key_none<T>(s: Seq<T>, key: spec_fn(T) -> int, k: int)
    requires
        forall|i: int| 0 <= i < s.len() ==> #[trigger] key(s[i]) != k,
    ensures
        with_key(s, key, k) == Seq::<T>::empty(),
    decreases s.len(),
{
    if s.len() > 0 {
        assert(key(s[s.len() - 1]) != k);
        assert forall|i: int| 0 <= i < s.drop_last().len() implies #[trigger] key(s.drop_last()[i]) != k by {
            assert(s.drop_last()[i] == s[i]);
        }
        lemma_with_key_none(s.drop_last(), key, k);
    }
}

/// Sorting by a key is stable: the elements that share a key keep their order.
pub proof fn lemma_sort_by_key_stable<T>(s: Seq<T>, le: spec_fn(T, T) -> bool, key: spec_fn(T) -> int, k: int)
    requires
        forall|a: T, b: T| #[trigger] le(a, b) == (key(a) <= key(b)),
    ensures
        with_key(sort_by(s, le), key, k) == with_key(s, key, k),
    decreases s.len(),
{
    if s.len() > 0 {
        let x = s.last();
        let t = sort_by(s.drop_last(), le);
        lemma_sort_by_key_stable(s.drop_last(), le, key, k);
        assert(total_order(le));
        lemma_sort_by_sorted(s.drop_last(), le);
        lemma_insert_by_split(t, x, le);
        lemma_first_not_le(t, x, le);
        let m = first_not_le(t, x, le);
        let (front, back) = (t.take(m), t.skip(m));
        assert(t =~= front + back);
        lemma_with_key_add(front, back, key, k);
        lemma_with_key_add(front, seq![x], key, k);
        lemma_with_key_add(front + seq![x], back, key, k);
        assert(seq![x].drop_last() =~= Seq::<T>::empty());
        assert(seq![x].last() == x);
        assert(with_key(Seq::<T>::empty(), key, k) == Seq::<T>::empty());
        if key(x) == k {
            assert(with_key(seq![x], key, k) =~= seq![x]);
            assert forall|i: int| 0 <= i < back.len() implies #[trigger] key(back[i]) != k by {
                assert(back[i] == t[m + i]);
                assert(!le(t[m], x));
                if i > 0 {
                    assert(le(t[m], t[m + i]));
                }
            }
            lemma_with_key_none(back, key, k);
            assert(with_key(back, key, k) == Seq::<T>::empty());
            assert(with_key(front, key, k) + with_key(seq![x], key, k) + with_key(back, key, k)
                =~= with_key(front + back, key, k).push(x));
        } else {
            assert(with_key(seq![x], key, k) =~= Seq::<T>::empty());
            assert(with_key(front, key, k) + with_key(seq![x], key, k) + with_key(back, key, k)
                =~= with_key(front + back, key, k));
        }
    }
}

/// An element with key `k` stands, among the elements with that key, after as many of
/// them as come before it in `s`.
pub proof fn lemma_with_key_index<T>(s: Seq<T>, key: spec_fn(T) -> int, k: int, x: int)
    requires
        0 <= x < s.len(),
        key(s[x]) == k,
    ensures
        with_key(s.take(x), key, k).len() < with_key(s, key, k).len(),
        with_key(s, key, k)[with_key(s.take(x), key, k).len() as int] == s[x],
{
    assert(s =~= s.take(x + 1) + s.skip(x + 1));
    assert(s.take(x + 1).drop_last() =~= s.take(x));
    assert(s.take(x + 1).last() == s[x]);
    lemma_with_key_add(s.take(x + 1), s.skip(x + 1), key, k);
}

/// Of two elements with key `k`, the later one has more such elements before it.
pub proof fn lemma_with_key_take_grows<T>(s: Seq<T>, key: spec_fn(T) -> int, k: int, x: int, y: int)
    requires
        0 <= x < y <= s.len(),
        key(s[x]) == k,
    ensures
        with_key(s.take(x), key, k).len() < with_key(s.take(y), key, k).len(),
{
    let t = s.take(y);
    assert(t.take(x) =~= s.take(x));
    assert(t[x] == s[x]);
    lemma_with_key_index(t, key, k, x);
}

/// The elements with key `k` are elements of `s`.
pub proof fn lemma_with_key_from<T>(s: Seq<T>, key: spec_fn(T) -> int, k: int, j: int)
    requires
        0 <= j < with_key(s, key, k).len(),
    ensures
        s.contains(with_key(s, key, k)[j]),
    decreases s.len(),
{
    let front = s.drop_last();
    if s.len() > 0 {
        if key(s.last()) == k && j == with_key(front, key, k).len() {
            assert(s[s.len() - 1] == s.last());
        } else {
            lemma_with_key_from(front, key, k, j);
            let i = choose|i: int| 0 <= i < front.len() && front[i] == with_key(front, key, k)[j];
            assert(s[i] == front[i]);
        }
    }
}

/// Sorting keeps the elements, each as often as it occurs.
pub proof fn lemma_sort_by_multiset<T>(s: Seq<T>, le: spec_fn(T, T) -> bool)
    ensures
        sort_by(s, le).to_multiset() == s.to_multiset(),
    decreases s.len(),
{
    if s.len() > 0 {
        let t = sort_by(s.drop_last(), le);
        let x = s.last();
        lemma_sort_by_multiset(s.drop_last(), le);
        lemma_insert_by_split(t, x, le);
        lemma_first_not_le(t, x, le);
        let m = first_not_le(t, x, le);
        assert(insert_by(t, x, le) =~= t.insert(m, x));
        vstd::seq_lib::to_multiset_insert(t, m, x);
        assert(s =~= s.drop_last().push(x));
        vstd::seq_lib::to_multiset_build(s.drop_last(), x);
    }
}

/// With no two elements sharing a key, at most one element has key `k`.
pub proof fn lemma_with_key_at_most_one<T>(s: Seq<T>, key: spec_fn(T) -> int, k: int)
    requires
        forall|i: int, j: int| 0 <= i < j < s.len() ==> key(#[trigger] s[i]) != key(#[trigger] s[j]),
    ensures
        with_key(s, key, k).len() <= 1,
    decreases s.len(),
{
    if s.len() > 0 {
        let front = s.drop_last();
        assert forall|i: int, j: int| 0 <= i < j < front.len() implies key(#[trigger] front[i]) != key(
            #[trigger] front[j],
        ) by {
            assert(front[i] == s[i] && front[j] == s[j]);
        }
        if key(s.last()) == k {
            assert forall|i: int| 0 <= i < front.len() implies #[trigger] key(front[i]) != k by {
                assert(front[i] == s[i]);
                assert(key(s[i]) != key(s[s.len() - 1]));
            }
            lemma_with_key_none(front, key, k);
        } else {
            lemma_with_key_at_most_one(front, key, k);
        }
    }
}

/// Two sequences with the same elements whose keys strictly increase are equal.
pub proof fn lemma_strictly_sorted_unique<T>(a: Seq<T>, b: Seq<T>, key: spec_fn(T) -> int)
    requires
        a.to_multiset() == b.to_multiset(),
        forall|i: int, j: int| 0 <= i < j < a.len() ==> key(#[trigger] a[i]) < key(#[trigger] a[j]),
        forall|i: int, j: int| 0 <= i < j < b.len() ==> key(#[trigger] b[i]) < key(#[trigger] b[j]),
    ensures
        a == b,
    decreases a.len(),
{
    a.to_multiset_ensures();
    b.to_multiset_ensures();
    if a.len() == 0 {
        assert(a =~= b);
    } else {
        assert(a.contains(a[0]));
        assert(a.to_multiset().count(a[0]) > 0);
        assert(b.to_multiset().count(a[0]) > 0);
        assert(b.contains(a[0]));
        let j = choose|j: int| 0 <= j < b.len() && b[j] == a[0];
        assert(b.contains(b[0]));
        assert(b.to_multiset().count(b[0]) > 0);
        assert(a.to_multiset().count(b[0]) > 0);
        assert(a.contains(b[0]));
        let i = choose|i: int| 0 <= i < a.len() && a[i] == b[0];
        if i > 0 {
            assert(key(a[0]) < key(a[i]));
        }
        if j > 0 {
            assert(key(b[0]) < key(b[j]));
        }
        assert(j == 0);
        vstd::seq_lib::to_multiset_remove(a, 0);
        vstd::seq_lib::to_multiset_remove(b, 0);
        let (ra, rb) = (a.remove(0), b.remove(0));
        assert forall|x: int, y: int| 0 <= x < y < ra.len() implies key(#[trigger] ra[x]) < key(
            #[trigger] ra[y],
        ) by {
            assert(ra[x] == a[x + 1] && ra[y] == a[y + 1]);
        }
        assert forall|x: int, y: int| 0 <= x < y < rb.len() implies key(#[trigger] rb[x]) < key(
            #[trigger] rb[y],
        ) by {
            assert(rb[x] == b[x + 1] && rb[y] == b[y + 1]);
        }
        lemma_strictly_sorted_unique(ra, rb, key);
        assert forall|x: int| 0 <= x < a.len() implies a[x] == b[x] by {
            if x > 0 {
                assert(ra[x - 1] == a[x] && rb[x - 1] == b[x]);
            }
        }
        assert(a =~= b);
    }
}

/// The elements picked for key `k` have key `k`.
pub proof fn lemma_with_key_keys<T>(s: Seq<T>, key: spec_fn(T) -> int, k: int, j: int)
    requires
        0 <= j < with_key(s, key, k).len(),
    ensures
        key(with_key(s, key, k)[j]) == k,
    decreases s.len(),
{
    let front = s.drop_last();
    if s.len() > 0 {
        if !(key(s.last()) == k && j == with_key(front, key, k).len()) {
            lemma_with_key_keys(front, key, k, j);
        }
    }
}

/// Two sequences ordered by key that hold, for every key, the same elements with that
/// key in the same order are equal.
pub proof fn lemma_sorted_unique_by_keys<T>(a: Seq<T>, b: Seq<T>, key: spec_fn(T) -> int)
    requires
        forall|i: int, j: int| 0 <= i < j < a.len() ==> key(#[trigger] a[i]) <= key(#[trigger] a[j]),
        forall|i: int, j: int| 0 <= i < j < b.len() ==> key(#[trigger] b[i]) <= key(#[trigger] b[j]),
        forall|k: int| #[trigger] with_key(a, key, k) == with_key(b, key, k),
    ensures
        a == b,
    decreases a.len() + b.len(),
{
    if a.len() == 0 && b.len() == 0 {
        assert(a =~= b);
    } else if a.len() == 0 {
        let k = key(b.last());
        assert(with_key(b, key, k).len() > 0);
        assert(with_key(a, key, k).len() == 0);
    } else if b.len() == 0 {
        let k = key(a.last());
        assert(with_key(a, key, k).len() > 0);
        assert(with_key(b, key, k).len() == 0);
    } else {
        let ka = key(a.last());
        let kb = key(b.last());
        // the largest keys agree
        assert(with_key(a, key, ka).len() > 0);
        lemma_with_key_from(b, key, ka, 0);
        lemma_with_key_keys(b, key, ka, 0);
        let ib = choose|i: int| 0 <= i < b.len() && b[i] == with_key(b, key, ka)[0];
        if ib < b.len() - 1 {
            assert(key(b[ib]) <= key(b[b.len() - 1]));
        }
        assert(with_key(b, key, kb).len() > 0);
        lemma_with_key_from(a, key, kb, 0);
        lemma_with_key_keys(a, key, kb, 0);
        let ia = choose|i: int| 0 <= i < a.len() && a[i] == with_key(a, key, kb)[0];
        if ia < a.len() - 1 {
            assert(key(a[ia]) <= key(a[a.len() - 1]));
        }
        assert(ka == kb);
        // and so do the last elements
        assert(with_key(a, key, ka).last() == a.last());
        assert(with_key(b, key, kb).last() == b.last());
        let (fa, fb) = (a.drop_last(), b.drop_last());
        assert forall|k: int| #[trigger] with_key(fa, key, k) == with_key(fb, key, k) by {
            assert(with_key(a, key, k) == with_key(b, key, k));
            if k == ka {
                assert(with_key(fa, key, k) =~= with_key(a, key, k).drop_last());
                assert(with_key(fb, key, k) =~= with_key(b, key, k).drop_last());
            }
        }
        assert forall|i: int, j: int| 0 <= i < j < fa.len() implies key(#[trigger] fa[i]) <= key(
            #[trigger] fa[j],
        ) by {
            assert(fa[i] == a[i] && fa[j] == a[j]);
        }
        assert forall|i: int, j: int| 0 <= i < j < fb.len() implies key(#[trigger] fb[i]) <= key(
            #[trigger] fb[j],
        ) by {
            assert(fb[i] == b[i] && fb[j] == b[j]);
        }
        lemma_sorted_unique_by_keys(fa, fb, key);
        assert(a =~= fa.push(a.last()));
        assert(b =~= fb.push(b.last()));
    }
}

} // verus!
