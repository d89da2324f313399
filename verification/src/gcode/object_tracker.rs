//! Follows which object the G-code is printing, and turns what it saw into the
//! `EXCLUDE_OBJECT_*` commands of a patch.
use super::known_object::{escape, KnownObject, ObjectModel};
use super::lines::{doc_len, line_end, lines_view, prefix_len};
use super::parser::{comment_bounds, comment_text};
use crate::error::Error;
use crate::patch::{
    by_position, lemma_by_position_total, lemma_same_position_in_added_order, position_of, HunkModel,
    Patch,
};
use crate::sort::{
    lemma_insert_by_at, lemma_sort_by_contains, lemma_sort_by_len, lemma_sort_by_sorted,
    lemma_sorted_unique_by_keys, lemma_with_key_add, lemma_with_key_none, sort_by, total_order, with_key,
};
use crate::text::{chars_of, lemma_lex_le_total, lemma_lex_le_trans, lex_le, str_le};
use std::ops::Range;
use vstd::prelude::*;

verus! {

/// The object being printed: its name as the G-code gives it, where it started, and the
/// points extruded since.
pub struct ActiveModel<P> {
    pub key: Seq<char>,
    pub start: u64,
    pub points: Seq<P>,
}

/// What a tracker is, in mathematical terms: the names of the known objects as the
/// G-code gives them, the objects (in the order in which they were first closed), and
/// the object being printed.
pub struct TrackerModel<P> {
    pub keys: Seq<Seq<char>>,
    pub objects: Seq<ObjectModel<P>>,
    pub active: Option<ActiveModel<P>>,
}

/// The index of the first `k` in `keys`, or -1.
pub open spec fn first_index(keys: Seq<Seq<char>>, k: Seq<char>) -> int
    decreases keys.len(),
{
    if keys.len() == 0 {
        -1
    } else if keys[0] == k {
        0
    } else {
        let r = first_index(keys.drop_first(), k);
        if r < 0 {
            -1
        } else {
            r + 1
        }
    }
}

/// Starting the object `key` at `pos`: refused, with the name of the open object, while
/// another one is open.
pub open spec fn start_model<P>(m: TrackerModel<P>, key: Seq<char>, pos: u64) -> Result<
    TrackerModel<P>,
    Seq<char>,
> {
    match m.active {
        Some(a) => Err(a.key),
        None => Ok(
            TrackerModel {
                keys: m.keys,
                objects: m.objects,
                active: Some(ActiveModel { key, start: pos, points: seq![] }),
            },
        ),
    }
}

/// An extrusion: its point, if it has one, goes to the open object, if there is one.
pub open spec fn extrude_model<P>(m: TrackerModel<P>, point: Option<P>) -> TrackerModel<P> {
    match (m.active, point) {
        (Some(a), Some(p)) => TrackerModel {
            keys: m.keys,
            objects: m.objects,
            active: Some(ActiveModel { key: a.key, start: a.start, points: a.points.push(p) }),
        },
        _ => m,
    }
}

/// Closing the open object at `pos`: if it was extruded, the range from its start to
/// `pos` and its points go to the known object of the same name, which is created if
/// there is none; the open object is dropped either way.
pub open spec fn end_model<P>(m: TrackerModel<P>, pos: u64) -> TrackerModel<P> {
    match m.active {
        None => m,
        Some(a) => if a.points.len() == 0 {
            TrackerModel { keys: m.keys, objects: m.objects, active: None }
        } else {
            let i = first_index(m.keys, a.key);
            let range = Range { start: a.start, end: pos };
            if i >= 0 {
                TrackerModel {
                    keys: m.keys,
                    objects: m.objects.update(
                        i,
                        ObjectModel {
                            id: m.objects[i].id,
                            ranges: m.objects[i].ranges.push(range),
                            points: m.objects[i].points + a.points,
                        },
                    ),
                    active: None,
                }
            } else {
                TrackerModel {
                    keys: m.keys.push(a.key),
                    objects: m.objects.push(
                        ObjectModel { id: escape(a.key), ranges: seq![range], points: a.points },
                    ),
                    active: None,
                }
            }
        },
    }
}

/// `first_index` finds the first occurrence, and only that.
pub proof fn lemma_first_index<P>(keys: Seq<Seq<char>>, k: Seq<char>, i: int)
    requires
        0 <= i <= keys.len(),
        forall|j: int| 0 <= j < i ==> keys[j] != k,
        i < keys.len() ==> keys[i] == k,
    ensures
        first_index(keys, k) == (if i < keys.len() {
            i
        } else {
            -1
        }),
    decreases i,
{
    if i > 0 {
        let t = keys.drop_first();
        assert forall|j: int| 0 <= j < i - 1 implies t[j] != k by {
            assert(t[j] == keys[j + 1]);
        }
        lemma_first_index::<P>(t, k, i - 1);
    } else if keys.len() == 0 {
    }
}

proof fn lemma_first_index_bounds(keys: Seq<Seq<char>>, k: Seq<char>)
    ensures
        -1 <= first_index(keys, k) < keys.len(),
        first_index(keys, k) >= 0 ==> keys[first_index(keys, k)] == k,
    decreases keys.len(),
{
    if keys.len() > 0 && keys[0] != k {
        lemma_first_index_bounds(keys.drop_first(), k);
    }
}

/// Opening an object and closing it before anything was extruded leaves the tracker as
/// it was.
pub proof fn lemma_start_end_unextruded<P>(m: TrackerModel<P>, key: Seq<char>, start: u64, end: u64)
    requires
        m.active is None,
    ensures
        start_model(m, key, start) matches Ok(m2) && end_model(m2, end) == m,
{
}

/// Closing a second time changes nothing.
pub proof fn lemma_end_twice<P>(m: TrackerModel<P>, pos: u64, again: u64)
    ensures
        end_model(end_model(m, pos), again) == end_model(m, pos),
{
}

proof fn lemma_first_index_absent(keys: Seq<Seq<char>>, k: Seq<char>)
    requires
        first_index(keys, k) < 0,
    ensures
        forall|j: int| 0 <= j < keys.len() ==> keys[j] != k,
    decreases keys.len(),
{
    if keys.len() > 0 {
        let t = keys.drop_first();
        lemma_first_index_absent(t, k);
        assert forall|j: int| 0 <= j < keys.len() implies keys[j] != k by {
            if j > 0 {
                assert(keys[j] == t[j - 1]);
            }
        }
    }
}

/// Starting, extruding and ending keep a tracker well formed.
pub proof fn lemma_model_wf_steps<P>(m: TrackerModel<P>, key: Seq<char>, pos: u64, point: Option<P>)
    requires
        model_wf(m),
    ensures
        start_model(m, key, pos) matches Ok(m2) ==> model_wf(m2),
        model_wf(extrude_model(m, point)),
        model_wf(end_model(m, pos)),
{
    if let Some(a) = m.active {
        if a.points.len() > 0 {
            let i = first_index(m.keys, a.key);
            lemma_first_index_bounds(m.keys, a.key);
            let e = end_model(m, pos);
            if i >= 0 {
                assert forall|x: int| 0 <= x < e.objects.len() implies {
                    &&& #[trigger] e.objects[x].id == escape(e.keys[x])
                    &&& e.objects[x].ranges.len() > 0
                    &&& e.objects[x].points.len() > 0
                } by {
                    if x != i {
                        assert(e.objects[x] == m.objects[x]);
                    }
                }
            } else {
                lemma_first_index_absent(m.keys, a.key);
                assert forall|x: int| 0 <= x < e.objects.len() implies {
                    &&& #[trigger] e.objects[x].id == escape(e.keys[x])
                    &&& e.objects[x].ranges.len() > 0
                    &&& e.objects[x].points.len() > 0
                } by {
                    if x < m.objects.len() {
                        assert(e.objects[x] == m.objects[x]);
                        assert(e.keys[x] == m.keys[x]);
                    }
                }
                assert forall|x: int, y: int|
                    0 <= x < e.keys.len() && 0 <= y < e.keys.len() && x != y implies e.keys[x]
                    != e.keys[y] by {
                    if x < m.keys.len() && y < m.keys.len() {
                        assert(e.keys[x] == m.keys[x] && e.keys[y] == m.keys[y]);
                    }
                }
            }
        }
    }
}

/// `after` is `before` with its open object, if it was extruded, closed at `pos`: the
/// known object of that name has the range from the object's start to `pos` as its last
/// range. Otherwise the known objects are unchanged.
pub open spec fn closed_at<P>(before: TrackerModel<P>, after: TrackerModel<P>, pos: u64) -> bool {
    match before.active {
        Some(a) => if a.points.len() > 0 {
            exists|k: int|
                0 <= k < after.objects.len() && k < after.keys.len() && #[trigger] after.keys[k]
                    == a.key && after.objects[k].ranges.len() > 0 && after.objects[k].ranges.last()
                    == (Range { start: a.start, end: pos })
        } else {
            after.keys == before.keys && after.objects == before.objects
        },
        None => after.keys == before.keys && after.objects == before.objects,
    }
}

/// Ending closes the open object at the given offset, and leaves none open.
pub proof fn lemma_end_closes<P>(m: TrackerModel<P>, pos: u64)
    requires
        model_wf(m),
    ensures
        closed_at(m, end_model(m, pos), pos),
        end_model(m, pos).active is None,
{
    let e = end_model(m, pos);
    if let Some(a) = m.active {
        if a.points.len() > 0 {
            let i = first_index(m.keys, a.key);
            lemma_first_index_bounds(m.keys, a.key);
            if i >= 0 {
                assert(e.keys[i] == a.key);
                assert(e.objects[i].ranges.last() == (Range { start: a.start, end: pos }));
            } else {
                let k = m.keys.len() as int;
                assert(e.keys[k] == a.key);
                assert(e.objects[k].ranges =~= seq![Range { start: a.start, end: pos }]);
            }
        }
    }
}

/// A tracker that has seen nothing.
pub open spec fn empty_model<P>() -> TrackerModel<P> {
    TrackerModel { keys: seq![], objects: seq![], active: None }
}

/// What every tracker keeps: one object per name, no name twice, each object named by
/// its escaped name and seen with at least one range and one point.
pub open spec fn model_wf<P>(m: TrackerModel<P>) -> bool {
    &&& m.keys.len() == m.objects.len()
    &&& m.keys.no_duplicates()
    &&& forall|i: int|
        0 <= i < m.objects.len() ==> {
            &&& #[trigger] m.objects[i].id == escape(m.keys[i])
            &&& m.objects[i].ranges.len() > 0
            &&& m.objects[i].points.len() > 0
        }
}

/// Every range of every object, and the start of the open object, lie within the first
/// `bound` bytes, each range starting no later than it ends.
pub open spec fn spans_within<P>(m: TrackerModel<P>, bound: nat) -> bool {
    &&& forall|i: int, j: int|
        0 <= i < m.objects.len() && 0 <= j < m.objects[i].ranges.len() ==> {
            let r = #[trigger] m.objects[i].ranges[j];
            r.start <= r.end <= bound
        }
    &&& m.active matches Some(a) ==> a.start <= bound
}

/// Starting, extruding and ending at offsets within a bound keep all spans within it.
pub proof fn lemma_spans_within_steps<P>(m: TrackerModel<P>, bound: nat, key: Seq<char>, pos: u64, point: Option<P>)
    requires
        model_wf(m),
        spans_within(m, bound),
        pos <= bound,
        m.active matches Some(a) ==> a.start <= pos,
    ensures
        start_model(m, key, pos) matches Ok(m2) ==> spans_within(m2, bound),
        spans_within(extrude_model(m, point), bound),
        spans_within(end_model(m, pos), bound),
{
    let e = end_model(m, pos);
    if let Some(a) = m.active {
        if a.points.len() > 0 {
            let i = first_index(m.keys, a.key);
            lemma_first_index_bounds(m.keys, a.key);
            assert forall|x: int, y: int|
                0 <= x < e.objects.len() && 0 <= y < e.objects[x].ranges.len() implies {
                let r = #[trigger] e.objects[x].ranges[y];
                r.start <= r.end <= bound
            } by {
                if i >= 0 {
                    if x == i {
                        if y < m.objects[x].ranges.len() {
                            assert(e.objects[x].ranges[y] == m.objects[x].ranges[y]);
                        }
                    } else {
                        assert(e.objects[x] == m.objects[x]);
                    }
                } else if x < m.objects.len() {
                    assert(e.objects[x] == m.objects[x]);
                }
            }
        }
    }
}

/// `x` is the offset at which one of the lines begins, or the end of the file.
pub open spec fn on_lines(lines: Seq<Seq<char>>, x: u64) -> bool {
    exists|k: int| 0 <= k <= lines.len() && #[trigger] prefix_len(lines, k) == x
}

/// Every range of every object, and the start of the open object, begin and end where
/// lines begin or the file ends.
pub open spec fn spans_on_lines<P>(m: TrackerModel<P>, lines: Seq<Seq<char>>) -> bool {
    &&& forall|i: int, j: int|
        0 <= i < m.objects.len() && 0 <= j < m.objects[i].ranges.len() ==> {
            let r = #[trigger] m.objects[i].ranges[j];
            on_lines(lines, r.start) && on_lines(lines, r.end)
        }
    &&& m.active matches Some(a) ==> on_lines(lines, a.start)
}

/// Starting, extruding and ending where lines begin keep all spans on line boundaries.
pub proof fn lemma_on_lines_steps<P>(m: TrackerModel<P>, lines: Seq<Seq<char>>, key: Seq<char>, pos: u64, point: Option<P>)
    requires
        model_wf(m),
        spans_on_lines(m, lines),
        on_lines(lines, pos),
    ensures
        start_model(m, key, pos) matches Ok(m2) ==> spans_on_lines(m2, lines),
        spans_on_lines(extrude_model(m, point), lines),
        spans_on_lines(end_model(m, pos), lines),
{
    let e = end_model(m, pos);
    if let Some(a) = m.active {
        if a.points.len() > 0 {
            let i = first_index(m.keys, a.key);
            lemma_first_index_bounds(m.keys, a.key);
            assert forall|x: int, y: int|
                0 <= x < e.objects.len() && 0 <= y < e.objects[x].ranges.len() implies {
                let r = #[trigger] e.objects[x].ranges[y];
                on_lines(lines, r.start) && on_lines(lines, r.end)
            } by {
                if i >= 0 {
                    if x == i {
                        if y < m.objects[x].ranges.len() {
                            assert(e.objects[x].ranges[y] == m.objects[x].ranges[y]);
                        }
                    } else {
                        assert(e.objects[x] == m.objects[x]);
                    }
                } else if x < m.objects.len() {
                    assert(e.objects[x] == m.objects[x]);
                }
            }
        }
    }
}

/// Spans within a bound lie within any larger one.
pub proof fn lemma_spans_within_grow<P>(m: TrackerModel<P>, a: nat, b: nat)
    requires
        spans_within(m, a),
        a <= b,
    ensures
        spans_within(m, b),
{
    assert forall|i: int, j: int|
        0 <= i < m.objects.len() && 0 <= j < m.objects[i].ranges.len() implies {
        let r = #[trigger] m.objects[i].ranges[j];
        r.start <= r.end <= b
    } by {
        let r = m.objects[i].ranges[j];
        assert(r.start <= r.end <= a);
    }
}

/// `EXCLUDE_OBJECT_DEFINE NAME=<id> <description>` and a line feed.
pub open spec fn define_line(id: Seq<char>, desc: Seq<char>) -> Seq<char> {
    "EXCLUDE_OBJECT_DEFINE NAME="@ + id + " "@ + desc + "\n"@
}

/// `EXCLUDE_OBJECT_START NAME=<id>` and a line feed.
pub open spec fn start_line(id: Seq<char>) -> Seq<char> {
    "EXCLUDE_OBJECT_START NAME="@ + id + "\n"@
}

/// `EXCLUDE_OBJECT_END NAME=<id>` and a line feed.
pub open spec fn end_line(id: Seq<char>) -> Seq<char> {
    "EXCLUDE_OBJECT_END NAME="@ + id + "\n"@
}

/// The objects, each with its description.
pub open spec fn described<P>(objs: Seq<ObjectModel<P>>, descs: Seq<Seq<char>>) -> Seq<
    (ObjectModel<P>, Seq<char>),
> {
    Seq::new(objs.len(), |i: int| (objs[i], descs[i]))
}

/// Objects are defined in the order of their escaped names.
pub open spec fn by_id<P>() -> spec_fn((ObjectModel<P>, Seq<char>), (ObjectModel<P>, Seq<char>)) -> bool {
    |a: (ObjectModel<P>, Seq<char>), b: (ObjectModel<P>, Seq<char>)| lex_le(a.0.id, b.0.id)
}

/// Ranges are marked in the order of their starts.
pub open spec fn by_start() -> spec_fn((Seq<char>, Range<u64>), (Seq<char>, Range<u64>)) -> bool {
    |a: (Seq<char>, Range<u64>), b: (Seq<char>, Range<u64>)| a.1.start <= b.1.start
}

/// Each range of each object, with the object's escaped name, object after object.
pub open spec fn range_items<P>(objs: Seq<(ObjectModel<P>, Seq<char>)>) -> Seq<(Seq<char>, Range<u64>)>
    decreases objs.len(),
{
    if objs.len() == 0 {
        seq![]
    } else {
        let o = objs.last().0;
        range_items(objs.drop_last()) + o.ranges.map_values(|r: Range<u64>| (o.id, r))
    }
}

/// For each object, in order, the insertion of its definition at `header`.
pub open spec fn define_hunks<P>(objs: Seq<(ObjectModel<P>, Seq<char>)>, header: u64) -> Seq<HunkModel> {
    Seq::new(objs.len(), |i: int| HunkModel::Insert(header, define_line(objs[i].0.id, objs[i].1)))
}

/// For each range, in order, the insertion of its start marker at its start and of its
/// end marker at its end.
pub open spec fn range_hunks(items: Seq<(Seq<char>, Range<u64>)>) -> Seq<HunkModel>
    decreases items.len(),
{
    if items.len() == 0 {
        seq![]
    } else {
        let it = items.last();
        range_hunks(items.drop_last()) + seq![
            HunkModel::Insert(it.1.start, start_line(it.0)),
            HunkModel::Insert(it.1.end, end_line(it.0)),
        ]
    }
}

/// The hunks that mark the objects: their definitions at `header` in the order of
/// their names, then start and end markers around each range in the order of the starts.
pub open spec fn object_hunks<P>(objs: Seq<ObjectModel<P>>, descs: Seq<Seq<char>>, header: u64) -> Seq<HunkModel> {
    let sorted = sort_by(described(objs, descs), by_id());
    define_hunks(sorted, header) + range_hunks(sort_by(range_items(sorted), by_start()))
}

proof fn lemma_range_items_contains<P>(objs: Seq<(ObjectModel<P>, Seq<char>)>, j: int, r: int)
    requires
        0 <= j < objs.len(),
        0 <= r < objs[j].0.ranges.len(),
    ensures
        range_items(objs).contains((objs[j].0.id, objs[j].0.ranges[r])),
    decreases objs.len(),
{
    let o = objs.last().0;
    let tail = o.ranges.map_values(|x: Range<u64>| (o.id, x));
    if j == objs.len() - 1 {
        let a = range_items(objs.drop_last());
        assert(range_items(objs)[a.len() as int + r] == tail[r]);
    } else {
        lemma_range_items_contains(objs.drop_last(), j, r);
        let a = range_items(objs.drop_last());
        let k = choose|k: int| 0 <= k < a.len() && a[k] == (objs[j].0.id, objs[j].0.ranges[r]);
        assert(range_items(objs)[k] == a[k]);
    }
}

proof fn lemma_range_hunks_contains(items: Seq<(Seq<char>, Range<u64>)>, j: int)
    requires
        0 <= j < items.len(),
    ensures
        range_hunks(items).contains(HunkModel::Insert(items[j].1.start, start_line(items[j].0))),
        range_hunks(items).contains(HunkModel::Insert(items[j].1.end, end_line(items[j].0))),
    decreases items.len(),
{
    let a = range_hunks(items.drop_last());
    if j == items.len() - 1 {
        assert(range_hunks(items)[a.len() as int] == HunkModel::Insert(items[j].1.start, start_line(items[j].0)));
        assert(range_hunks(items)[a.len() as int + 1] == HunkModel::Insert(items[j].1.end, end_line(items[j].0)));
    } else {
        lemma_range_hunks_contains(items.drop_last(), j);
        assert(items.drop_last()[j] == items[j]);
        let k1 = choose|k: int| 0 <= k < a.len() && a[k] == HunkModel::Insert(items[j].1.start, start_line(items[j].0));
        let k2 = choose|k: int| 0 <= k < a.len() && a[k] == HunkModel::Insert(items[j].1.end, end_line(items[j].0));
        assert(range_hunks(items)[k1] == a[k1]);
        assert(range_hunks(items)[k2] == a[k2]);
    }
}

/// Every known object is defined with its description, and every range of it is marked
/// by a start marker at its start and an end marker at its end.
pub proof fn lemma_object_hunks_complete<P>(
    objs: Seq<ObjectModel<P>>,
    descs: Seq<Seq<char>>,
    header: u64,
    i: int,
    r: int,
)
    requires
        descs.len() == objs.len(),
        0 <= i < objs.len(),
        0 <= r < objs[i].ranges.len(),
    ensures
        object_hunks(objs, descs, header).contains(HunkModel::Insert(header, define_line(objs[i].id, descs[i]))),
        object_hunks(objs, descs, header).contains(HunkModel::Insert(objs[i].ranges[r].start, start_line(objs[i].id))),
        object_hunks(objs, descs, header).contains(HunkModel::Insert(objs[i].ranges[r].end, end_line(objs[i].id))),
{
    let d = described(objs, descs);
    let sorted = sort_by(d, by_id());
    let defs = define_hunks(sorted, header);
    let items = sort_by(range_items(sorted), by_start());
    let all = object_hunks(objs, descs, header);
    assert(all == defs + range_hunks(items));
    // the definition
    assert(d[i] == (objs[i], descs[i]));
    assert(d.contains(d[i]));
    lemma_sort_by_contains(d, by_id(), d[i]);
    let j = choose|j: int| 0 <= j < sorted.len() && sorted[j] == d[i];
    assert(all[j] == defs[j]);
    // the markers
    lemma_range_items_contains(sorted, j, r);
    let it = (objs[i].id, objs[i].ranges[r]);
    lemma_sort_by_contains(range_items(sorted), by_start(), it);
    let k = choose|k: int| 0 <= k < items.len() && items[k] == it;
    lemma_range_hunks_contains(items, k);
    let rh = range_hunks(items);
    let k1 = choose|m: int| 0 <= m < rh.len() && rh[m] == HunkModel::Insert(it.1.start, start_line(it.0));
    let k2 = choose|m: int| 0 <= m < rh.len() && rh[m] == HunkModel::Insert(it.1.end, end_line(it.0));
    assert(all[defs.len() as int + k1] == rh[k1]);
    assert(all[defs.len() as int + k2] == rh[k2]);
}

proof fn lemma_range_hunks_insertions(items: Seq<(Seq<char>, Range<u64>)>)
    ensures
        forall|i: int| 0 <= i < range_hunks(items).len() ==> #[trigger] range_hunks(items)[i] is Insert,
    decreases items.len(),
{
    if items.len() > 0 {
        lemma_range_hunks_insertions(items.drop_last());
    }
}

/// The hunks that mark the objects are all insertions.
pub proof fn lemma_object_hunks_insertions<P>(objs: Seq<ObjectModel<P>>, descs: Seq<Seq<char>>, header: u64)
    ensures
        forall|i: int|
            0 <= i < object_hunks(objs, descs, header).len() ==> #[trigger] object_hunks(
                objs,
                descs,
                header,
            )[i] is Insert,
{
    let sorted = sort_by(described(objs, descs), by_id());
    let defs = define_hunks(sorted, header);
    let items = sort_by(range_items(sorted), by_start());
    lemma_range_hunks_insertions(items);
    let all = object_hunks(objs, descs, header);
    assert forall|i: int| 0 <= i < all.len() implies #[trigger] all[i] is Insert by {
        if i >= defs.len() {
            assert(all[i] == range_hunks(items)[i - defs.len()]);
        }
    }
}

/// What formatting a tracker adds to a patch that holds `before`: its hunks followed by
/// the definitions and markers of the objects, or, while an object is open, its name.
pub open spec fn formatted<P>(m: TrackerModel<P>, before: Seq<HunkModel>, descs: Seq<Seq<char>>, header: u64) -> Result<
    Seq<HunkModel>,
    Seq<char>,
> {
    match m.active {
        Some(a) => Err(a.key),
        None => Ok(before + object_hunks(m.objects, descs, header)),
    }
}

proof fn lemma_by_id_total<P>()
    ensures
        total_order(by_id::<P>()),
{
    let le = by_id::<P>();
    assert forall|a: (ObjectModel<P>, Seq<char>), b: (ObjectModel<P>, Seq<char>)| #[trigger]
        le(a, b) || le(b, a) by {
        lemma_lex_le_total(a.0.id, b.0.id);
    }
    assert forall|
        a: (ObjectModel<P>, Seq<char>),
        b: (ObjectModel<P>, Seq<char>),
        c: (ObjectModel<P>, Seq<char>),
    | #[trigger] le(a, b) && #[trigger] le(b, c) implies le(a, c) by {
        lemma_lex_le_trans(a.0.id, b.0.id, c.0.id);
    }
}

proof fn lemma_range_hunks_at(items: Seq<(Seq<char>, Range<u64>)>, i: int)
    requires
        0 <= i < items.len(),
    ensures
        range_hunks(items).len() == 2 * items.len(),
        range_hunks(items)[2 * i] == HunkModel::Insert(items[i].1.start, start_line(items[i].0)),
        range_hunks(items)[2 * i + 1] == HunkModel::Insert(items[i].1.end, end_line(items[i].0)),
    decreases items.len(),
{
    let front = items.drop_last();
    let it = items.last();
    let pair = seq![
        HunkModel::Insert(it.1.start, start_line(it.0)),
        HunkModel::Insert(it.1.end, end_line(it.0)),
    ];
    assert(range_hunks(items) == range_hunks(front) + pair);
    if i < items.len() - 1 {
        lemma_range_hunks_at(front, i);
        assert(front[i] == items[i]);
    } else if items.len() > 1 {
        lemma_range_hunks_at(front, 0);
    } else {
        assert(range_hunks(front) == Seq::<HunkModel>::empty());
    }
}

proof fn lemma_range_items_from<P>(objs: Seq<(ObjectModel<P>, Seq<char>)>, k: int)
    requires
        0 <= k < range_items(objs).len(),
    ensures
        exists|j: int, r: int|
            0 <= j < objs.len() && 0 <= r < objs[j].0.ranges.len() && #[trigger] range_items(
                objs,
            )[k] == (objs[j].0.id, #[trigger] objs[j].0.ranges[r]),
    decreases objs.len(),
{
    let front = objs.drop_last();
    let a = range_items(front);
    let j = objs.len() - 1;
    if k < a.len() {
        lemma_range_items_from(front, k);
        let (j0, r0) = choose|j0: int, r0: int|
            0 <= j0 < front.len() && 0 <= r0 < front[j0].0.ranges.len() && #[trigger] range_items(
                front,
            )[k] == (front[j0].0.id, #[trigger] front[j0].0.ranges[r0]);
        assert(front[j0] == objs[j0]);
        assert(range_items(objs)[k] == a[k]);
        assert(range_items(objs)[k] == (objs[j0].0.id, objs[j0].0.ranges[r0]));
    } else {
        let r = k - a.len();
        assert(range_items(objs)[k] == (objs[j].0.id, objs[j].0.ranges[r]));
    }
}

/// The definitions come first, one per object, in the order of the objects' escaped
/// names; after them, for each range of each object, its start marker and its end
/// marker, in the order of the starts of the ranges.
pub proof fn lemma_object_hunks_ordered<P>(objs: Seq<ObjectModel<P>>, descs: Seq<Seq<char>>, header: u64)
    requires
        descs.len() == objs.len(),
    ensures
        forall|i: int, j: int|
            0 <= i < j < objs.len() ==> exists|a: int, b: int|
                #![trigger objs[a], objs[b]]
                0 <= a < objs.len() && 0 <= b < objs.len() && #[trigger] object_hunks(
                    objs,
                    descs,
                    header,
                )[i] == HunkModel::Insert(header, define_line(objs[a].id, descs[a]))
                    && #[trigger] object_hunks(objs, descs, header)[j] == HunkModel::Insert(
                    header,
                    define_line(objs[b].id, descs[b]),
                ) && lex_le(objs[a].id, objs[b].id),
        object_hunks(objs, descs, header).len() >= objs.len(),
        forall|k: int| 0 <= k < objs.len() ==> (#[trigger] object_hunks(objs, descs, header)[k]).key() == header,
        (object_hunks(objs, descs, header).len() - objs.len()) % 2 == 0,
        forall|i: int|
            0 <= i && objs.len() + 2 * i < object_hunks(objs, descs, header).len() ==> exists|
                a: int,
                r: int,
            |
                0 <= a < objs.len() && 0 <= r < objs[a].ranges.len() && #[trigger] object_hunks(
                    objs,
                    descs,
                    header,
                )[objs.len() + 2 * i] == HunkModel::Insert(
                    objs[a].ranges[r].start,
                    start_line(objs[a].id),
                ) && object_hunks(objs, descs, header)[objs.len() + 2 * i + 1] == HunkModel::Insert(
                    objs[a].ranges[r].end,
                    end_line(objs[a].id),
                ),
        forall|i: int, j: int|
            0 <= i < j && objs.len() + 2 * j < object_hunks(objs, descs, header).len() ==> (
            #[trigger] object_hunks(objs, descs, header)[objs.len() + 2 * i]).key() <= (
            #[trigger] object_hunks(objs, descs, header)[objs.len() + 2 * j]).key(),
{
    let d = described(objs, descs);
    let sorted = sort_by(d, by_id());
    let defs = define_hunks(sorted, header);
    let items = sort_by(range_items(sorted), by_start());
    let all = object_hunks(objs, descs, header);
    let n = objs.len() as int;
    lemma_sort_by_len(d, by_id());
    lemma_by_id_total::<P>();
    lemma_sort_by_sorted(d, by_id());
    lemma_sort_by_len(range_items(sorted), by_start());
    lemma_sort_by_sorted(range_items(sorted), by_start());
    assert(defs.len() == n);
    if items.len() > 0 {
        lemma_range_hunks_at(items, 0);
    }
    assert(all.len() == n + range_hunks(items).len());
    assert forall|k: int| 0 <= k < objs.len() implies (#[trigger] all[k]).key() == header by {
        assert(all[k] == defs[k]);
    }
    // where each definition comes from
    assert forall|i: int| 0 <= i < n implies exists|a: int|
        0 <= a < n && #[trigger] sorted[i] == d[a] by {
        assert(sorted.contains(sorted[i]));
        lemma_sort_by_contains(d, by_id(), sorted[i]);
    }
    assert forall|i: int, j: int| 0 <= i < j < objs.len() implies exists|a: int, b: int|
        #![trigger objs[a], objs[b]]
        0 <= a < objs.len() && 0 <= b < objs.len() && #[trigger] all[i] == HunkModel::Insert(
            header,
            define_line(objs[a].id, descs[a]),
        ) && #[trigger] all[j] == HunkModel::Insert(header, define_line(objs[b].id, descs[b]))
            && lex_le(objs[a].id, objs[b].id) by {
        let a = choose|a: int| 0 <= a < n && #[trigger] sorted[i] == d[a];
        let b = choose|b: int| 0 <= b < n && #[trigger] sorted[j] == d[b];
        assert(all[i] == defs[i]);
        assert(all[j] == defs[j]);
        assert((by_id::<P>())(sorted[i], sorted[j]));
        assert(d[a].0 == objs[a] && d[b].0 == objs[b]);
    }
    // where each marker comes from
    assert forall|i: int| 0 <= i && n + 2 * i < all.len() implies exists|a: int, r: int|
        0 <= a < n && 0 <= r < objs[a].ranges.len() && #[trigger] all[n + 2 * i] == HunkModel::Insert(
            objs[a].ranges[r].start,
            start_line(objs[a].id),
        ) && all[n + 2 * i + 1] == HunkModel::Insert(objs[a].ranges[r].end, end_line(objs[a].id)) by {
        lemma_range_hunks_at(items, i);
        assert(all[n + 2 * i] == range_hunks(items)[2 * i]);
        assert(all[n + 2 * i + 1] == range_hunks(items)[2 * i + 1]);
        assert(items.contains(items[i]));
        lemma_sort_by_contains(range_items(sorted), by_start(), items[i]);
        let k = choose|k: int| 0 <= k < range_items(sorted).len() && range_items(sorted)[k] == items[i];
        lemma_range_items_from(sorted, k);
        let (j, r) = choose|j: int, r: int|
            0 <= j < sorted.len() && 0 <= r < sorted[j].0.ranges.len() && #[trigger] range_items(
                sorted,
            )[k] == (sorted[j].0.id, #[trigger] sorted[j].0.ranges[r]);
        let a = choose|a: int| 0 <= a < n && #[trigger] sorted[j] == d[a];
        assert(sorted[j].0 == objs[a]);
    }
    assert forall|i: int, j: int| 0 <= i < j && n + 2 * j < all.len() implies (
    #[trigger] all[n + 2 * i]).key() <= (#[trigger] all[n + 2 * j]).key() by {
        lemma_range_hunks_at(items, i);
        lemma_range_hunks_at(items, j);
        assert(all[n + 2 * i] == range_hunks(items)[2 * i]);
        assert(all[n + 2 * j] == range_hunks(items)[2 * j]);
        assert((by_start())(items[i], items[j]));
    }
}

/// The definitions of the objects, in the order of their names.
pub open spec fn definition_hunks<P>(objs: Seq<ObjectModel<P>>, descs: Seq<Seq<char>>, header: u64) -> Seq<HunkModel> {
    define_hunks(sort_by(described(objs, descs), by_id()), header)
}

/// The ranges of the objects, each with the object's name, in the order in which they are
/// marked.
pub open spec fn marked_ranges<P>(objs: Seq<ObjectModel<P>>, descs: Seq<Seq<char>>) -> Seq<(Seq<char>, Range<u64>)> {
    sort_by(range_items(sort_by(described(objs, descs), by_id())), by_start())
}

/// The start and end markers, range after range.
pub open spec fn marker_hunks<P>(objs: Seq<ObjectModel<P>>, descs: Seq<Seq<char>>) -> Seq<HunkModel> {
    range_hunks(marked_ranges(objs, descs))
}

/// The ranges, in the order in which they are marked, do not overlap: each ends before
/// the next one starts.
pub open spec fn ranges_apart(items: Seq<(Seq<char>, Range<u64>)>) -> bool {
    &&& forall|i: int| 0 <= i < items.len() ==> (#[trigger] items[i]).1.start <= items[i].1.end
    &&& forall|i: int, j: int| 0 <= i < j < items.len() ==> (#[trigger] items[i]).1.end <= (
    #[trigger] items[j]).1.start
}

/// How many hunks at the front of `hs` lie before offset `k`.
pub open spec fn lead_below(hs: Seq<HunkModel>, k: u64) -> int
    decreases hs.len(),
{
    if hs.len() > 0 && hs[0].key() < k {
        1 + lead_below(hs.drop_first(), k)
    } else {
        0
    }
}

proof fn lemma_lead_below(hs: Seq<HunkModel>, k: u64)
    ensures
        0 <= lead_below(hs, k) <= hs.len(),
        forall|x: int| 0 <= x < lead_below(hs, k) ==> (#[trigger] hs[x]).key() < k,
        lead_below(hs, k) < hs.len() ==> hs[lead_below(hs, k)].key() >= k,
    decreases hs.len(),
{
    if hs.len() > 0 && hs[0].key() < k {
        let t = hs.drop_first();
        lemma_lead_below(t, k);
        assert forall|x: int| 0 <= x < lead_below(hs, k) implies (#[trigger] hs[x]).key() < k by {
            if x > 0 {
                assert(hs[x] == t[x - 1]);
            }
        }
        if lead_below(hs, k) < hs.len() {
            assert(hs[lead_below(hs, k)] == t[lead_below(t, k)]);
        }
    }
}

/// When the marked ranges do not overlap, the markers come in pairs: each range's start
/// marker, then its end marker; applying the patch writes them in that order, with the
/// definitions put in among them at the header, so that no other start marker comes
/// between a start marker and its end marker.
pub proof fn lemma_markers_nest<P>(objs: Seq<ObjectModel<P>>, descs: Seq<Seq<char>>, header: u64, p: Patch)
    requires
        descs.len() == objs.len(),
        ranges_apart(marked_ranges(objs, descs)),
        p@ == object_hunks(objs, descs, header),
    ensures
        object_hunks(objs, descs, header) == definition_hunks(objs, descs, header) + marker_hunks(
            objs,
            descs,
        ),
        marker_hunks(objs, descs).len() == 2 * marked_ranges(objs, descs).len(),
        forall|i: int|
            #![trigger marked_ranges(objs, descs)[i]]
            0 <= i < marked_ranges(objs, descs).len() ==> {
                let it = marked_ranges(objs, descs)[i];
                &&& marker_hunks(objs, descs)[2 * i] == HunkModel::Insert(it.1.start, start_line(it.0))
                &&& marker_hunks(objs, descs)[2 * i + 1] == HunkModel::Insert(it.1.end, end_line(it.0))
            },
        p.ordered() == marker_hunks(objs, descs).take(lead_below(marker_hunks(objs, descs), header))
            + definition_hunks(objs, descs, header) + marker_hunks(objs, descs).skip(
            lead_below(marker_hunks(objs, descs), header),
        ),
{
    let items = marked_ranges(objs, descs);
    let r = marker_hunks(objs, descs);
    let d = definition_hunks(objs, descs, header);
    let pos = position_of();
    let m = lead_below(r, header);
    let t = r.take(m) + d + r.skip(m);
    lemma_sort_by_len(described(objs, descs), by_id());
    if items.len() > 0 {
        lemma_range_hunks_at(items, 0);
    } else {
        assert(r.len() == 0);
    }
    assert forall|i: int| 0 <= i < items.len() implies {
        let it = #[trigger] items[i];
        &&& r[2 * i] == HunkModel::Insert(it.1.start, start_line(it.0))
        &&& r[2 * i + 1] == HunkModel::Insert(it.1.end, end_line(it.0))
    } by {
        lemma_range_hunks_at(items, i);
    }
    // the markers are in order of position
    assert forall|x: int, y: int| 0 <= x < y < r.len() implies (#[trigger] r[x]).key() <= (
    #[trigger] r[y]).key() by {
        let (i, j) = (x / 2, y / 2);
        lemma_range_hunks_at(items, i);
        lemma_range_hunks_at(items, j);
        assert(items[i].1.start <= items[i].1.end);
        if i < j {
            assert(items[i].1.end <= items[j].1.start);
            assert(items[j].1.start <= items[j].1.end);
        }
    }
    lemma_lead_below(r, header);
    assert forall|x: int| m <= x < r.len() implies (#[trigger] r[x]).key() >= header by {
        if x > m {
            assert(r[m].key() <= r[x].key());
        }
    }
    // `t` is in order of position
    assert forall|x: int, y: int| 0 <= x < y < t.len() implies pos(#[trigger] t[x]) <= pos(
        #[trigger] t[y],
    ) by {
        let (a, b) = (m, m + d.len());
        if x < a {
            assert(t[x] == r[x]);
        } else if x < b {
            assert(t[x] == d[x - a]);
        } else {
            assert(t[x] == r[x - d.len()]);
        }
        if y < a {
            assert(t[y] == r[y]);
        } else if y < b {
            assert(t[y] == d[y - a]);
        } else {
            assert(t[y] == r[y - d.len()]);
        }
    }
    // the applied order is in order of position
    let hs = p.ordered();
    lemma_by_position_total();
    lemma_sort_by_sorted(p@, by_position());
    assert forall|x: int, y: int| 0 <= x < y < hs.len() implies pos(#[trigger] hs[x]) <= pos(
        #[trigger] hs[y],
    ) by {
        assert((by_position())(hs[x], hs[y]));
    }
    // and both hold the hunks of each position in the same order
    assert(r =~= r.take(m) + r.skip(m));
    assert forall|k: int| #[trigger] with_key(hs, pos, k) == with_key(t, pos, k) by {
        lemma_with_key_add(d, r, pos, k);
        lemma_with_key_add(r.take(m), r.skip(m), pos, k);
        lemma_with_key_add(r.take(m), d, pos, k);
        lemma_with_key_add(r.take(m) + d, r.skip(m), pos, k);
        if 0 <= k <= u64::MAX {
            lemma_same_position_in_added_order(p, k as u64);
        } else {
            assert forall|x: int| 0 <= x < hs.len() implies #[trigger] pos(hs[x]) != k by {}
            assert forall|x: int| 0 <= x < t.len() implies #[trigger] pos(t[x]) != k by {}
            lemma_with_key_none(hs, pos, k);
            lemma_with_key_none(t, pos, k);
        }
        if k == header {
            assert forall|x: int| 0 <= x < r.take(m).len() implies #[trigger] pos(r.take(m)[x]) != k by {
                assert(r.take(m)[x] == r[x]);
            }
            lemma_with_key_none(r.take(m), pos, k);
            assert(with_key(r.take(m), pos, k) + with_key(d, pos, k) =~= with_key(d, pos, k));
        } else {
            assert forall|x: int| 0 <= x < d.len() implies #[trigger] pos(d[x]) != k by {}
            lemma_with_key_none(d, pos, k);
            assert(with_key(r.take(m), pos, k) + with_key(d, pos, k) =~= with_key(r.take(m), pos, k));
            assert(with_key(d, pos, k) + with_key(r, pos, k) =~= with_key(r, pos, k));
        }
    }
    lemma_sorted_unique_by_keys(hs, t, pos);
}

struct ActiveObject<P> {
    id: String,
    start_pos: u64,
    points: Vec<P>,
}

/// Follows the objects of a print as the G-code starts, extrudes and ends them.
///
/// The names are kept in a vector beside the objects (`keys[i]` names `objects[i]`) rather
/// than in a hash map keyed by name: for a map with `String` keys Verus proves nothing of
/// what a lookup finds, while the search over `keys` is proved to find the first equal
/// name, and `model_wf` keeps every name once.
pub struct ObjectTracker<P> {
    keys: Vec<String>,
    objects: Vec<KnownObject<P>>,
    active: Option<ActiveObject<P>>,
}

/// The names, as sequences of characters.
pub open spec fn keys_view(v: Seq<String>) -> Seq<Seq<char>> {
    v.map_values(|k: String| k@)
}

/// The objects, in mathematical terms.
pub open spec fn objects_view<P>(v: Seq<KnownObject<P>>) -> Seq<ObjectModel<P>> {
    v.map_values(|o: KnownObject<P>| o@)
}

impl<P> View for ObjectTracker<P> {
    type V = TrackerModel<P>;

    closed spec fn view(&self) -> TrackerModel<P> {
        TrackerModel {
            keys: keys_view(self.keys@),
            objects: objects_view(self.objects@),
            active: match self.active {
                Some(a) => Some(ActiveModel { key: a.id@, start: a.start_pos, points: a.points@ }),
                None => None,
            },
        }
    }
}

/// The entries of a definition list, in mathematical terms.
pub open spec fn entries_view<P>(v: Seq<(KnownObject<P>, String)>) -> Seq<(ObjectModel<P>, Seq<char>)> {
    v.map_values(|e: (KnownObject<P>, String)| (e.0@, e.1@))
}

/// The items of a range list, in mathematical terms.
pub open spec fn items_view<P>(v: Seq<(usize, Range<u64>)>, entries: Seq<(ObjectModel<P>, Seq<char>)>) -> Seq<(Seq<char>, Range<u64>)> {
    v.map_values(|e: (usize, Range<u64>)| (entries[e.0 as int].0.id, e.1))
}

fn marker(prefix: &str, id: &str) -> (r: String)
    ensures
        r@ == prefix@ + id@ + "\n"@,
{
    let mut s = prefix.to_owned();
    s.append(id);
    s.append("\n");
    s
}

impl<P> ObjectTracker<P> {
    /// A tracker that has seen nothing.
    pub fn new() -> (t: Self)
        ensures
            t@ == empty_model::<P>(),
    {
        let t = ObjectTracker { keys: Vec::new(), objects: Vec::new(), active: None };
        assert(t@.keys =~= Seq::<Seq<char>>::empty());
        assert(t@.objects =~= Seq::<ObjectModel<P>>::empty());
        t
    }

    /// The known objects, in the order in which they were first closed.
    pub fn objects(&self) -> (r: &[KnownObject<P>])
        ensures
            objects_view(r@) == self@.objects,
    {
        self.objects.as_slice()
    }

    /// Starts the object `id` at byte offset `pos`; refused while another object is open.
    pub fn start(&mut self, id: String, pos: u64) -> (r: Result<(), Error>)
        requires
            model_wf(old(self)@),
        ensures
            model_wf(final(self)@),
            match start_model(old(self)@, id@, pos) {
                Ok(m) => r is Ok && final(self)@ == m,
                Err(k) => r matches Err(Error::UnclosedObject(s)) && s@ == k && final(self)@ == old(
                    self,
                )@,
            },
    {
        if let Some(pending) = &self.active {
            return Err(Error::UnclosedObject(pending.id.clone()));
        }
        self.active = Some(ActiveObject { id, start_pos: pos, points: Vec::new() });
        assert(self@.active matches Some(a) && a.points =~= Seq::<P>::empty());
        Ok(())
    }

    /// Records an extrusion: `point` is its point, or nothing for a move that retracts.
    pub fn extrude(&mut self, point: Option<P>)
        requires
            model_wf(old(self)@),
        ensures
            model_wf(final(self)@),
            final(self)@ == extrude_model(old(self)@, point),
    {
        match point {
            Some(p) => {
                match self.active.take() {
                    Some(a) => {
                        let mut a = a;
                        a.points.push(p);
                        self.active = Some(a);
                    },
                    None => {},
                }
            },
            None => {},
        }
    }

    /// Closes the open object at byte offset `pos`.
    pub fn end(&mut self, pos: u64)
        requires
            model_wf(old(self)@),
        ensures
            model_wf(final(self)@),
            final(self)@ == end_model(old(self)@, pos),
    {
        let active = self.active.take();
        let a = match active {
            Some(a) => a,
            None => return ,
        };
        if a.points.len() == 0 {
            return ;
        }
        let ghost keys = keys_view(self.keys@);
        let ghost m0 = self@;
        let mut i: usize = 0;
        while i < self.keys.len() && self.keys[i] != a.id
            invariant
                i <= self.keys@.len(),
                keys == keys_view(self.keys@),
                forall|j: int| 0 <= j < i ==> keys[j] != a.id@,
            decreases self.keys@.len() - i,
        {
            i = i + 1;
        }
        proof {
            lemma_first_index::<P>(keys, a.id@, i as int);
        }
        let range = Range { start: a.start_pos, end: pos };
        let ghost objs = objects_view(self.objects@);
        if i < self.keys.len() {
            let mut o = self.objects.remove(i);
            o.union(range, a.points);
            self.objects.insert(i, o);
            assert(objects_view(self.objects@) =~= objs.update(
                i as int,
                ObjectModel {
                    id: objs[i as int].id,
                    ranges: objs[i as int].ranges.push(range),
                    points: objs[i as int].points + a.points@,
                },
            ));
        } else {
            let key = a.id.clone();
            let o = KnownObject::new(a.id.as_str(), range, a.points);
            self.keys.push(key);
            self.objects.push(o);
            assert(keys_view(self.keys@) =~= keys.push(a.id@));
            assert(objects_view(self.objects@) =~= objs.push(
                ObjectModel { id: escape(a.id@), ranges: seq![range], points: a.points@ },
            ));
            proof {
                let nk = keys_view(self.keys@);
                assert forall|x: int, y: int| 0 <= x < nk.len() && 0 <= y < nk.len() && x != y implies nk[x] != nk[y] by {
                    if y == nk.len() - 1 {
                        assert(keys[x] != a.id@);
                    } else if x == nk.len() - 1 {
                        assert(keys[y] != a.id@);
                    } else {
                        assert(m0.keys.no_duplicates());
                    }
                }
            }
        }
    }

    /// Adds to `patch` the definitions of the known objects at `header_pos`, each with its
    /// description (`descriptions[i]` describes the `i`-th known object), and the start and
    /// end markers around each range of each object; refused while an object is open.
    pub fn format_patch(self, patch: &mut Patch, header_pos: u64, descriptions: Vec<String>) -> (r:
        Result<(), Error>)
        requires
            descriptions@.len() == self@.objects.len(),
        ensures
            match self@.active {
                Some(a) => r matches Err(Error::UnclosedObject(s)) && s@ == a.key && final(patch)@
                    == old(patch)@,
                None => r is Ok && final(patch)@ == old(patch)@ + object_hunks(
                    self@.objects,
                    keys_view(descriptions@),
                    header_pos,
                ),
            },
            r is Ok ==> formatted(self@, old(patch)@, keys_view(descriptions@), header_pos) == Ok::<
                Seq<HunkModel>,
                Seq<char>,
            >(final(patch)@),
            r matches Err(Error::UnclosedObject(s)) ==> formatted(
                self@,
                old(patch)@,
                keys_view(descriptions@),
                header_pos,
            ) == Err::<Seq<HunkModel>, Seq<char>>(s@),
    {
        let ghost objs = self@.objects;
        let ghost descs = keys_view(descriptions@);
        let ghost d = described(objs, descs);
        let ghost p0 = patch@;
        let ghost old_model = self@;
        if let Some(pending) = self.active {
            return Err(Error::UnclosedObject(pending.id));
        }
        let mut objects = self.objects;
        let mut descriptions = descriptions;
        let mut entries: Vec<(KnownObject<P>, String)> = Vec::new();
        let n = objects.len();
        let mut i: usize = 0;
        assert(objs.skip(0) =~= objs);
        assert(descs.skip(0) =~= descs);
        assert(entries_view(entries@) =~= sort_by(d.take(0), by_id()));
        while i < n
            invariant
                n == objs.len(),
                descs.len() == n,
                d == described(objs, descs),
                i <= n,
                objects@.len() == n - i,
                descriptions@.len() == n - i,
                objects_view(objects@) == objs.skip(i as int),
                keys_view(descriptions@) == descs.skip(i as int),
                entries_view(entries@) == sort_by(d.take(i as int), by_id::<P>()),
            decreases n - i,
        {
            let ghost ov = objects@;
            let ghost dv = descriptions@;
            let o = objects.remove(0);
            let ds = descriptions.remove(0);
            proof {
                assert(objects_view(ov)[0] == objs[i as int]);
                assert(keys_view(dv)[0] == descs[i as int]);
                assert(objects_view(objects@) =~= objs.skip(i + 1)) by {
                    assert forall|m: int| 0 <= m < objects@.len() implies #[trigger] objects_view(
                        objects@,
                    )[m] == objs.skip(i + 1)[m] by {
                        assert(objects_view(ov)[m + 1] == objs.skip(i as int)[m + 1]);
                    }
                }
                assert(keys_view(descriptions@) =~= descs.skip(i + 1)) by {
                    assert forall|m: int| 0 <= m < descriptions@.len() implies #[trigger] keys_view(
                        descriptions@,
                    )[m] == descs.skip(i + 1)[m] by {
                        assert(keys_view(dv)[m + 1] == descs.skip(i as int)[m + 1]);
                    }
                }
            }
            let ghost ev = entries_view(entries@);
            let ghost x = (o@, ds@);
            assert(x == d[i as int]);
            let mut k: usize = 0;
            while k < entries.len() && str_le(entries[k].0.id(), o.id())
                invariant
                    k <= entries@.len(),
                    ev == entries_view(entries@),
                    x == (o@, ds@),
                    forall|j: int| 0 <= j < k ==> #[trigger] (by_id::<P>())(ev[j], x),
                decreases entries@.len() - k,
            {
                k = k + 1;
            }
            proof {
                lemma_insert_by_at(ev, x, by_id::<P>(), k as int);
            }
            entries.insert(k, (o, ds));
            proof {
                let t = d.take(i + 1);
                assert(t.drop_last() =~= d.take(i as int));
                assert(entries_view(entries@) =~= ev.take(k as int) + seq![x] + ev.skip(k as int));
            }
            i = i + 1;
        }
        assert(d.take(n as int) =~= d);
        let ghost sorted = entries_view(entries@);
        let ghost defs = define_hunks(sorted, header_pos);
        let mut j: usize = 0;
        while j < entries.len()
            invariant
                sorted == entries_view(entries@),
                defs == define_hunks(sorted, header_pos),
                j <= entries@.len(),
                patch@ == p0 + defs.take(j as int),
            decreases entries@.len() - j,
        {
            let e = &entries[j];
            let mut text = "EXCLUDE_OBJECT_DEFINE NAME=".to_owned();
            text.append(e.0.id());
            text.append(" ");
            text.append(e.1.as_str());
            text.append("\n");
            patch.insert(header_pos, text.as_str());
            assert(defs.take(j + 1) =~= defs.take(j as int).push(defs[j as int]));
            j = j + 1;
        }
        assert(defs.take(entries@.len() as int) =~= defs);
        let ghost p1 = patch@;
        let mut items: Vec<(usize, Range<u64>)> = Vec::new();
        let ghost all_items = range_items(sorted);
        j = 0;
        assert(items_view(items@, sorted) =~= range_items(sorted.take(0)));
        while j < entries.len()
            invariant
                sorted == entries_view(entries@),
                j <= entries@.len(),
                items_view(items@, sorted) == range_items(sorted.take(j as int)),
                forall|m: int| 0 <= m < items@.len() ==> (#[trigger] items@[m]).0 < entries@.len(),
            decreases entries@.len() - j,
        {
            let rs = entries[j].0.ranges();
            let ghost id = sorted[j as int].0.id;
            let ghost base = items_view(items@, sorted);
            let mut k: usize = 0;
            assert(sorted[j as int].0.ranges == rs@);
            while k < rs.len()
                invariant
                    j < entries@.len(),
                    sorted == entries_view(entries@),
                    id == sorted[j as int].0.id,
                    k <= rs@.len(),
                    items_view(items@, sorted) == base + rs@.take(k as int).map_values(
                        |r: Range<u64>| (id, r),
                    ),
                    forall|m: int| 0 <= m < items@.len() ==> (#[trigger] items@[m]).0 < entries@.len(),
                decreases rs@.len() - k,
            {
                let r = Range { start: rs[k].start, end: rs[k].end };
                let ghost before = items@;
                items.push((j, r));
                assert(r == rs@[k as int]);
                assert(rs@.take(k + 1) =~= rs@.take(k as int).push(rs@[k as int]));
                assert(items_view(items@, sorted) =~= items_view(before, sorted).push((id, r)));
                assert(rs@.take(k + 1).map_values(|r: Range<u64>| (id, r)) =~= rs@.take(
                    k as int,
                ).map_values(|r: Range<u64>| (id, r)).push((id, r)));
                assert(items_view(items@, sorted) =~= base + rs@.take(k + 1).map_values(
                    |r: Range<u64>| (id, r),
                ));
                k = k + 1;
            }
            proof {
                let t = sorted.take(j + 1);
                assert(t.drop_last() =~= sorted.take(j as int));
                assert(rs@.take(rs@.len() as int) =~= rs@);
                assert(items_view(items@, sorted) =~= range_items(t));
            }
            j = j + 1;
        }
        assert(sorted.take(entries@.len() as int) =~= sorted);
        // order the ranges by their starts
        let ghost its = items_view(items@, sorted);
        let mut rest = items;
        let mut ordered: Vec<(usize, Range<u64>)> = Vec::new();
        let ni = rest.len();
        let mut q: usize = 0;
        assert(its.skip(0) =~= its);
        assert(items_view(ordered@, sorted) =~= sort_by(its.take(0), by_start()));
        while q < ni
            invariant
                sorted == entries_view(entries@),
                ni == its.len(),
                q <= ni,
                rest@.len() == ni - q,
                items_view(rest@, sorted) == its.skip(q as int),
                items_view(ordered@, sorted) == sort_by(its.take(q as int), by_start()),
                forall|m: int| 0 <= m < rest@.len() ==> (#[trigger] rest@[m]).0 < entries@.len(),
                forall|m: int| 0 <= m < ordered@.len() ==> (#[trigger] ordered@[m]).0 < entries@.len(),
            decreases ni - q,
        {
            let ghost rv = rest@;
            let it = rest.remove(0);
            proof {
                assert(rest@ =~= rv.drop_first());
                assert(items_view(rv, sorted)[0] == its[q as int]);
                assert(items_view(rest@, sorted) =~= its.skip(q + 1)) by {
                    assert forall|m: int| 0 <= m < rest@.len() implies #[trigger] items_view(
                        rest@,
                        sorted,
                    )[m] == its.skip(q + 1)[m] by {
                        assert(items_view(rv, sorted)[m + 1] == its.skip(q as int)[m + 1]);
                    }
                }
                assert(rv[0] == it);
            }
            let ghost ov = items_view(ordered@, sorted);
            let ghost x = (sorted[it.0 as int].0.id, it.1);
            let start = it.1.start;
            let mut k: usize = 0;
            while k < ordered.len() && ordered[k].1.start <= start
                invariant
                    k <= ordered@.len(),
                    ov == items_view(ordered@, sorted),
                    start == x.1.start,
                    forall|m: int| 0 <= m < k ==> #[trigger] (by_start())(ov[m], x),
                decreases ordered@.len() - k,
            {
                k = k + 1;
            }
            proof {
                lemma_insert_by_at(ov, x, by_start(), k as int);
            }
            ordered.insert(k, it);
            proof {
                let t = its.take(q + 1);
                assert(t.drop_last() =~= its.take(q as int));
                assert(items_view(ordered@, sorted) =~= ov.take(k as int) + seq![x] + ov.skip(k as int));
            }
            q = q + 1;
        }
        assert(its.take(ni as int) =~= its);
        let ghost oit = items_view(ordered@, sorted);
        let mut m: usize = 0;
        assert(range_hunks(oit.take(0)) =~= Seq::<HunkModel>::empty());
        assert(patch@ =~= p1 + range_hunks(oit.take(0)));
        while m < ordered.len()
            invariant
                sorted == entries_view(entries@),
                oit == items_view(ordered@, sorted),
                m <= ordered@.len(),
                forall|t: int| 0 <= t < ordered@.len() ==> (#[trigger] ordered@[t]).0 < entries@.len(),
                patch@ == p1 + range_hunks(oit.take(m as int)),
            decreases ordered@.len() - m,
        {
            let it = &ordered[m];
            let id = entries[it.0].0.id();
            let st = marker("EXCLUDE_OBJECT_START NAME=", id);
            let en = marker("EXCLUDE_OBJECT_END NAME=", id);
            patch.insert(it.1.start, st.as_str());
            patch.insert(it.1.end, en.as_str());
            proof {
                let t = oit.take(m + 1);
                assert(t.drop_last() =~= oit.take(m as int));
                assert(t.last() == oit[m as int]);
            }
            m = m + 1;
        }
        assert(oit.take(ordered@.len() as int) =~= oit);
        assert(patch@ == p0 + object_hunks(objs, descs, header_pos));
        assert(formatted(old_model, p0, descs, header_pos) == Ok::<Seq<HunkModel>, Seq<char>>(
            patch@,
        ));
        Ok(())
    }

    /// A patch holding just the definitions and markers of the known objects.
    pub fn into_patch(self, header_pos: u64, descriptions: Vec<String>) -> (r: Result<Patch, Error>)
        requires
            descriptions@.len() == self@.objects.len(),
        ensures
            match self@.active {
                Some(a) => r matches Err(Error::UnclosedObject(s)) && s@ == a.key,
                None => r matches Ok(p) && p@ == object_hunks(
                    self@.objects,
                    keys_view(descriptions@),
                    header_pos,
                ),
            },
            r matches Ok(p) ==> formatted(
                self@,
                Seq::<HunkModel>::empty(),
                keys_view(descriptions@),
                header_pos,
            ) == Ok::<Seq<HunkModel>, Seq<char>>(p@),
            r matches Err(Error::UnclosedObject(s)) ==> formatted(
                self@,
                Seq::<HunkModel>::empty(),
                keys_view(descriptions@),
                header_pos,
            ) == Err::<Seq<HunkModel>, Seq<char>>(s@),
    {
        let mut patch = Patch::new();
        match self.format_patch(&mut patch, header_pos, descriptions) {
            Ok(()) => {
                assert(patch@ =~= Seq::<HunkModel>::empty() + object_hunks(
                    self@.objects,
                    keys_view(descriptions@),
                    header_pos,
                ));
                Ok(patch)
            },
            Err(e) => Err(e),
        }
    }
}

/// The index of the first line at or after `i` that is not a comment, or the number of lines.
pub open spec fn first_code_line(lines: Seq<Seq<char>>, i: int) -> int
    decreases lines.len() - i,
{
    if i < 0 || i >= lines.len() {
        lines.len() as int
    } else if comment_text(lines[i]) is None {
        i
    } else {
        first_code_line(lines, i + 1)
    }
}

/// Where the definitions of the objects go: after the leading comment lines and the
/// first line that follows them, or at the end of a file of comments only.
pub open spec fn header_offset(lines: Seq<Seq<char>>) -> nat {
    let h = first_code_line(lines, 0);
    if h < lines.len() {
        prefix_len(lines, h + 1)
    } else {
        doc_len(lines)
    }
}

/// The byte offset after the leading comment lines and the line that follows them.
pub fn last_comment(lines: &Vec<String>) -> (r: u64)
    requires
        doc_len(lines_view(lines@)) <= u64::MAX,
    ensures
        r == header_offset(lines_view(lines@)),
{
    let ghost ls = lines_view(lines@);
    let mut pos: u64 = 0;
    let mut i: usize = 0;
    while i < lines.len()
        invariant
            ls == lines_view(lines@),
            doc_len(ls) <= u64::MAX,
            i <= lines@.len(),
            pos == prefix_len(ls, i as int),
            first_code_line(ls, 0) == first_code_line(ls, i as int),
        decreases lines@.len() - i,
    {
        pos = line_end(lines, i, pos);
        let cs = chars_of(lines[i].as_str());
        assert(ls[i as int] == cs@);
        if comment_bounds(&cs).is_none() {
            return pos;
        }
        i = i + 1;
    }
    pos
}

} // verus!
