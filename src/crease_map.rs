//! The ordered crease sequence, its read-only snapshots and the registry that
//! allocates identities and publishes new versions.
//!
//! A version is a shared vector of entries kept in anchor-range order. Snapshots
//! hold the vector through an `Arc`, so taking one is a pointer copy, and every
//! mutation assembles a fresh vector whose entries point at the same creases.
use crate::anchor::{
    anchor_lt, range_le, range_lt, range_precedes, lemma_range_order, Anchor, MultiBufferRow,
    MultiBufferSnapshot, Point,
};
use crate::crease::Crease;
use std::collections::HashMap;
use std::ops::Range;
use std::sync::Arc;
use vstd::prelude::*;

verus! {

broadcast use vstd::std_specs::hash::group_hash_axioms;

/// Identity of a crease within one registry, issued in increasing order.
#[derive(Clone, Copy, Debug, PartialEq, Eq, Structural, PartialOrd, Ord, Hash)]
pub struct CreaseId(pub usize);

/// One stored crease with its identity.
pub struct CreaseItem<R> {
    pub id: CreaseId,
    pub crease: Arc<Crease<R>>,
}

impl<R> CreaseItem<R> {
    pub open spec fn entry(&self) -> (CreaseId, Crease<R>) {
        (self.id, *self.crease)
    }

    fn share(&self) -> (r: CreaseItem<R>)
        ensures
            r == *self,
    {
        CreaseItem { id: self.id, crease: self.crease.clone() }
    }
}

/// What a vector of items holds: identities with their creases, in order.
pub open spec fn entries_of<R>(items: Seq<CreaseItem<R>>) -> Seq<(CreaseId, Crease<R>)> {
    items.map_values(|it: CreaseItem<R>| it.entry())
}

pub open spec fn range_of<R>(e: (CreaseId, Crease<R>)) -> Range<Anchor> {
    e.1.range_spec()
}

/// Entries are in non-decreasing range order under `snapshot`.
pub open spec fn sorted<R>(es: Seq<(CreaseId, Crease<R>)>, snapshot: &MultiBufferSnapshot) -> bool {
    forall|i: int, j: int|
        0 <= i < j < es.len() ==> range_le(#[trigger] range_of(es[i]), #[trigger] range_of(es[j]), snapshot)
}

/// Creases are in non-decreasing range order under `snapshot`.
pub open spec fn creases_sorted<R>(cs: Seq<Crease<R>>, snapshot: &MultiBufferSnapshot) -> bool {
    forall|i: int, j: int|
        0 <= i < j < cs.len() ==> range_le(
            #[trigger] cs[i].range_spec(),
            #[trigger] cs[j].range_spec(),
            snapshot,
        )
}

/// The first position at or after `p` whose start anchor does not precede `target`.
pub open spec fn seek_start<R>(
    es: Seq<(CreaseId, Crease<R>)>,
    p: int,
    target: Anchor,
    snapshot: &MultiBufferSnapshot,
) -> int
    decreases es.len() - p,
{
    if 0 <= p < es.len() && anchor_lt(range_of(es[p]).start, target, snapshot) {
        seek_start(es, p + 1, target, snapshot)
    } else {
        p
    }
}

/// The first position at or after `p` whose range does not precede `target`.
pub open spec fn seek_range<R>(
    es: Seq<(CreaseId, Crease<R>)>,
    p: int,
    target: Range<Anchor>,
    snapshot: &MultiBufferSnapshot,
) -> int
    decreases es.len() - p,
{
    if 0 <= p < es.len() && range_lt(range_of(es[p]), target, snapshot) {
        seek_range(es, p + 1, target, snapshot)
    } else {
        p
    }
}

/// Scanning from `p`: the first entry that starts on `row` with a valid start,
/// skipping those that start earlier or are invalid, and giving up past `row`.
pub open spec fn scan_row<R>(
    es: Seq<(CreaseId, Crease<R>)>,
    p: int,
    row: u32,
    snapshot: &MultiBufferSnapshot,
) -> Option<int>
    decreases es.len() - p,
{
    if 0 <= p < es.len() {
        let start = range_of(es[p]).start;
        let start_row = start.resolve(snapshot).row;
        if start_row < row {
            scan_row(es, p + 1, row, snapshot)
        } else if start_row == row {
            if start.valid_in(snapshot) {
                Some(p)
            } else {
                scan_row(es, p + 1, row, snapshot)
            }
        } else {
            None
        }
    } else {
        None
    }
}

/// Whether a crease is reported for the row range `rows`: it starts at or after
/// `rows.start` and ends strictly before `rows.end`.
pub open spec fn within_rows<R>(
    c: Crease<R>,
    rows: Range<MultiBufferRow>,
    snapshot: &MultiBufferSnapshot,
) -> bool {
    let start_row = c.range_spec().start.resolve(snapshot).row;
    let end_row = c.range_spec().end.resolve(snapshot).row;
    !(end_row > rows.end.0) && start_row >= rows.start.0 && end_row < rows.end.0
}

/// The creases of `es` that lie within `rows`, in order.
pub open spec fn select_within<R>(
    es: Seq<(CreaseId, Crease<R>)>,
    rows: Range<MultiBufferRow>,
    snapshot: &MultiBufferSnapshot,
) -> Seq<Crease<R>>
    decreases es.len(),
{
    if es.len() == 0 {
        seq![]
    } else {
        let rest = select_within(es.drop_last(), rows, snapshot);
        if within_rows(es.last().1, rows, snapshot) {
            rest.push(es.last().1)
        } else {
            rest
        }
    }
}

/// The entries that a batch insert of `news` into `old` has written, and where
/// its cursor over `old` stands: each new entry goes after the old entries that
/// precede it, and the cursor never moves back.
pub open spec fn placed<R>(
    old: Seq<(CreaseId, Crease<R>)>,
    news: Seq<(CreaseId, Crease<R>)>,
    snapshot: &MultiBufferSnapshot,
) -> (Seq<(CreaseId, Crease<R>)>, int)
    decreases news.len(),
{
    if news.len() == 0 {
        (seq![], 0)
    } else {
        let (out, p) = placed(old, news.drop_last(), snapshot);
        let x = news.last();
        let q = seek_range(old, p, range_of(x), snapshot);
        (out + old.subrange(p, q) + seq![x], q)
    }
}

/// The sequence after a batch insert of `news` into `old`.
pub open spec fn spliced<R>(
    old: Seq<(CreaseId, Crease<R>)>,
    news: Seq<(CreaseId, Crease<R>)>,
    snapshot: &MultiBufferSnapshot,
) -> Seq<(CreaseId, Crease<R>)> {
    let (out, p) = placed(old, news, snapshot);
    out + old.subrange(p, old.len() as int)
}

/// The entries a batch insert creates: consecutive identities from `first`.
pub open spec fn new_entries<R>(cs: Seq<Crease<R>>, first: int) -> Seq<(CreaseId, Crease<R>)> {
    Seq::new(cs.len(), |i: int| (CreaseId((first + i) as usize), cs[i]))
}

/// The reverse index after a batch insert: `index` with a record for each of
/// `cs`, under consecutive identities from `first`.
pub open spec fn index_with<R>(index: Map<usize, Range<Anchor>>, cs: Seq<Crease<R>>, first: int) -> Map<
    usize,
    Range<Anchor>,
> {
    Map::new(
        |k: usize| index.contains_key(k) || first <= k < first + cs.len(),
        |k: usize|
            if first <= k < first + cs.len() {
                cs[k - first].range_spec()
            } else {
                index[k]
            },
    )
}

pub proof fn lemma_seek_range_bounds<R>(
    es: Seq<(CreaseId, Crease<R>)>,
    p: int,
    target: Range<Anchor>,
    snapshot: &MultiBufferSnapshot,
)
    requires
        0 <= p <= es.len(),
    ensures
        p <= seek_range(es, p, target, snapshot) <= es.len(),
    decreases es.len() - p,
{
    if p < es.len() && range_lt(range_of(es[p]), target, snapshot) {
        lemma_seek_range_bounds(es, p + 1, target, snapshot);
    }
}

pub proof fn lemma_seek_start_bounds<R>(
    es: Seq<(CreaseId, Crease<R>)>,
    p: int,
    target: Anchor,
    snapshot: &MultiBufferSnapshot,
)
    requires
        0 <= p <= es.len(),
    ensures
        p <= seek_start(es, p, target, snapshot) <= es.len(),
    decreases es.len() - p,
{
    if p < es.len() && anchor_lt(range_of(es[p]).start, target, snapshot) {
        lemma_seek_start_bounds(es, p + 1, target, snapshot);
    }
}

/// An immutable version of the crease sequence.
pub struct CreaseSnapshot<R> {
    creases: Arc<Vec<CreaseItem<R>>>,
}

impl<R> CreaseSnapshot<R> {
    /// The entries of this version, in sequence order.
    pub closed spec fn entries(&self) -> Seq<(CreaseId, Crease<R>)> {
        entries_of(self.creases@)
    }

    /// An empty version.
    pub fn new(snapshot: &MultiBufferSnapshot) -> (r: CreaseSnapshot<R>)
        ensures
            r.entries() == Seq::<(CreaseId, Crease<R>)>::empty(),
    {
        let r = CreaseSnapshot { creases: Arc::new(Vec::new()) };
        assert(r.entries() =~= Seq::<(CreaseId, Crease<R>)>::empty());
        r
    }

    /// Another handle on the same version.
    pub fn share(&self) -> (r: CreaseSnapshot<R>)
        ensures
            r.entries() == self.entries(),
    {
        CreaseSnapshot { creases: self.creases.clone() }
    }

    /// The number of creases in this version.
    pub fn len(&self) -> (r: usize)
        ensures
            r == self.entries().len(),
    {
        self.creases.len()
    }

    /// Index of the first entry whose start anchor does not precede `target`.
    fn seek(&self, target: &Anchor, snapshot: &MultiBufferSnapshot) -> (p: usize)
        requires
            snapshot.wf(),
        ensures
            p == seek_start(self.entries(), 0, *target, snapshot),
            p <= self.entries().len(),
    {
        let items = &*self.creases;
        let ghost es = self.entries();
        let mut p: usize = 0;
        proof {
            lemma_seek_start_bounds(es, 0, *target, snapshot);
        }
        while p < items.len() && items[p].crease.range().start.precedes(target, snapshot)
            invariant
                es == entries_of(items@),
                p <= items@.len(),
                seek_start(es, p as int, *target, snapshot) == seek_start(es, 0, *target, snapshot),
                snapshot.wf(),
            decreases items@.len() - p,
        {
            p = p + 1;
        }
        p
    }

    /// The first crease that starts on `row`, skipping creases whose start is no
    /// longer valid in `snapshot`.
    pub fn query_row<'a>(&'a self, row: MultiBufferRow, snapshot: &'a MultiBufferSnapshot) -> (r:
        Option<&'a Crease<R>>)
        requires
            snapshot.wf(),
        ensures
            ({
                let es = self.entries();
                let from = seek_start(
                    es,
                    0,
                    snapshot.anchor_before_spec(Point { row: row.0, column: 0 }),
                    snapshot,
                );
                match scan_row(es, from, row.0, snapshot) {
                    Some(i) => r is Some && *r->0 == es[i].1,
                    None => r is None,
                }
            }),
    {
        let start = snapshot.anchor_before(Point::new(row.0, 0));
        let items = &*self.creases;
        let ghost es = self.entries();
        let ghost from = seek_start(es, 0, start, snapshot);
        let mut p = self.seek(&start, snapshot);
        while p < items.len()
            invariant
                es == entries_of(items@),
                p <= items@.len(),
                scan_row(es, p as int, row.0, snapshot) == scan_row(es, from, row.0, snapshot),
                es == self.entries(),
                start == snapshot.anchor_before_spec(Point { row: row.0, column: 0 }),
                from == seek_start(es, 0, start, snapshot),
                snapshot.wf(),
            decreases items@.len() - p,
        {
            let crease: &Crease<R> = &*items[p].crease;
            assert(es[p as int] == items@[p as int].entry());
            let anchor = crease.range().start;
            let start_row = anchor.to_point(snapshot).row;
            if start_row < row.0 {
                p = p + 1;
            } else if start_row == row.0 {
                if anchor.is_valid(snapshot) {
                    return Some(crease);
                }
                p = p + 1;
            } else {
                return None;
            }
        }
        None
    }

    /// The creases from the one nearest `rows.start` on that start at or after
    /// `rows.start` and end strictly before `rows.end`.
    pub fn creases_in_range<'a>(
        &'a self,
        rows: Range<MultiBufferRow>,
        snapshot: &'a MultiBufferSnapshot,
    ) -> (r: Vec<&'a Crease<R>>)
        requires
            snapshot.wf(),
        ensures
            ({
                let es = self.entries();
                let from = seek_start(
                    es,
                    0,
                    snapshot.anchor_before_spec(Point { row: rows.start.0, column: 0 }),
                    snapshot,
                );
                let sel = select_within(es.subrange(from, es.len() as int), rows, snapshot);
                &&& r@.len() == sel.len()
                &&& forall|k: int| 0 <= k < sel.len() ==> *(#[trigger] r@[k]) == sel[k]
            }),
    {
        let start = snapshot.anchor_before(Point::new(rows.start.0, 0));
        let items = &*self.creases;
        let ghost es = self.entries();
        let from = self.seek(&start, snapshot);
        let mut p = from;
        let mut out: Vec<&'a Crease<R>> = Vec::new();
        while p < items.len()
            invariant
                es == entries_of(items@),
                from <= p <= items@.len(),
                ({
                    let sel = select_within(es.subrange(from as int, p as int), rows, snapshot);
                    &&& out@.len() == sel.len()
                    &&& forall|k: int| 0 <= k < sel.len() ==> *(#[trigger] out@[k]) == sel[k]
                }),
                es == self.entries(),
                start == snapshot.anchor_before_spec(Point { row: rows.start.0, column: 0 }),
                from == seek_start(es, 0, start, snapshot),
                snapshot.wf(),
            decreases items@.len() - p,
        {
            let crease: &'a Crease<R> = &*items[p].crease;
            assert(es[p as int] == items@[p as int].entry());
            let ghost before = es.subrange(from as int, p as int);
            assert(es.subrange(from as int, p + 1).drop_last() =~= before);
            let range = crease.range();
            let start_row = range.start.to_point(snapshot).row;
            let end_row = range.end.to_point(snapshot).row;
            p = p + 1;
            if end_row > rows.end.0 {
            } else if start_row >= rows.start.0 && end_row < rows.end.0 {
                out.push(crease);
            }
        }
        assert(es.subrange(from as int, p as int) =~= es.subrange(from as int, es.len() as int));
        out
    }

    /// Every entry in sequence order, with its range resolved in `snapshot`.
    pub fn crease_items_with_offsets(&self, snapshot: &MultiBufferSnapshot) -> (r: Vec<
        (CreaseId, Range<Point>),
    >)
        requires
            snapshot.wf(),
        ensures
            r@.len() == self.entries().len(),
            forall|k: int|
                0 <= k < r@.len() ==> (#[trigger] r@[k]).0 == self.entries()[k].0 && r@[k].1.start
                    == range_of(self.entries()[k]).start.resolve(snapshot) && r@[k].1.end
                    == range_of(self.entries()[k]).end.resolve(snapshot),
    {
        let items = &*self.creases;
        let ghost es = self.entries();
        let mut out: Vec<(CreaseId, Range<Point>)> = Vec::new();
        let mut p: usize = 0;
        while p < items.len()
            invariant
                es == entries_of(items@),
                p <= items@.len(),
                out@.len() == p,
                forall|k: int|
                    0 <= k < p ==> (#[trigger] out@[k]).0 == es[k].0 && out@[k].1.start
                        == range_of(es[k]).start.resolve(snapshot) && out@[k].1.end == range_of(
                        es[k],
                    ).end.resolve(snapshot),
                es == self.entries(),
                snapshot.wf(),
            decreases items@.len() - p,
        {
            assert(es[p as int] == items@[p as int].entry());
            let range = items[p].crease.range();
            let start = range.start.to_point(snapshot);
            let end = range.end.to_point(snapshot);
            out.push((items[p].id, Range { start, end }));
            p = p + 1;
        }
        out
    }
}


/// An entry copied from the previous version: its record is in the previous index.
pub open spec fn kept_entry<R>(e: (CreaseId, Crease<R>), index: Map<usize, Range<Anchor>>, first: int) -> bool {
    &&& e.0.0 < first
    &&& index.contains_key(e.0.0)
    &&& index[e.0.0] == range_of(e)
}

/// An entry created by the batch: the `e.0 - first`-th of `cs`, among the first `i`.
pub open spec fn fresh_entry<R>(e: (CreaseId, Crease<R>), cs: Seq<Crease<R>>, first: int, i: int) -> bool {
    &&& first <= e.0.0 < first + i
    &&& e.1 == cs[e.0.0 - first]
}

/// What holds of the entries `o` written so far by a batch insert that has placed
/// `i` of `cs` and copied `old[..p]`.
pub open spec fn building<R>(
    o: Seq<(CreaseId, Crease<R>)>,
    old: Seq<(CreaseId, Crease<R>)>,
    index: Map<usize, Range<Anchor>>,
    cs: Seq<Crease<R>>,
    first: int,
    i: int,
    p: int,
    snapshot: &MultiBufferSnapshot,
    ordered: bool,
) -> bool {
    &&& 0 <= i <= cs.len()
    &&& 0 <= p <= old.len()
    &&& forall|k: int| 0 <= k < o.len() ==> kept_entry(#[trigger] o[k], index, first) || fresh_entry(o[k], cs, first, i)
    &&& forall|a: int, b: int| 0 <= a < b < o.len() ==> (#[trigger] o[a]).0 != (#[trigger] o[b]).0
    &&& forall|k: int, j: int|
        0 <= k < o.len() && p <= j < old.len() && (#[trigger] o[k]).0.0 < first ==> o[k].0 != (#[trigger] old[j]).0
    &&& ordered ==> sorted(o, snapshot)
    &&& ordered && p < old.len() ==> forall|k: int| 0 <= k < o.len() ==> range_le(#[trigger] range_of(o[k]), range_of(old[p]), snapshot)
    &&& ordered && i < cs.len() ==> forall|k: int| 0 <= k < o.len() ==> range_le(#[trigger] range_of(o[k]), cs[i].range_spec(), snapshot)
    &&& forall|j: int| 0 <= j < p ==> #[trigger] has_entry(o, old[j].0.0)
    &&& forall|t: int| 0 <= t < i ==> #[trigger] has_entry(o, (first + t) as usize)
}

/// Some entry of `es` has identity `key`.
pub open spec fn has_entry<R>(es: Seq<(CreaseId, Crease<R>)>, key: usize) -> bool {
    exists|k: int| 0 <= k < es.len() && (#[trigger] es[k]).0.0 == key
}

proof fn lemma_has_entry_push<R>(es: Seq<(CreaseId, Crease<R>)>, e: (CreaseId, Crease<R>), key: usize)
    ensures
        has_entry(es, key) ==> has_entry(es.push(e), key),
        e.0.0 == key ==> has_entry(es.push(e), key),
{
    if has_entry(es, key) {
        let k = choose|k: int| 0 <= k < es.len() && (#[trigger] es[k]).0.0 == key;
        assert(es.push(e)[k] == es[k]);
    }
    if e.0.0 == key {
        assert(es.push(e)[es.len() as int] == e);
    }
}

/// The previous version's entries, as the registry invariant leaves them.
pub open spec fn well_kept<R>(
    old: Seq<(CreaseId, Crease<R>)>,
    index: Map<usize, Range<Anchor>>,
    first: int,
) -> bool {
    &&& forall|j: int| 0 <= j < old.len() ==> kept_entry(#[trigger] old[j], index, first)
    &&& forall|a: int, b: int| 0 <= a < b < old.len() ==> (#[trigger] old[a]).0 != (#[trigger] old[b]).0
}

proof fn lemma_building_copy<R>(
    o: Seq<(CreaseId, Crease<R>)>,
    old: Seq<(CreaseId, Crease<R>)>,
    index: Map<usize, Range<Anchor>>,
    cs: Seq<Crease<R>>,
    first: int,
    i: int,
    p: int,
    snapshot: &MultiBufferSnapshot,
    ordered: bool,
)
    requires
        building(o, old, index, cs, first, i, p, snapshot, ordered),
        well_kept(old, index, first),
        p < old.len(),
        ordered ==> sorted(old, snapshot),
        ordered && i < cs.len() ==> range_lt(range_of(old[p]), cs[i].range_spec(), snapshot),
    ensures
        building(o.push(old[p]), old, index, cs, first, i, p + 1, snapshot, ordered),
{
    let o2 = o.push(old[p]);
    assert(kept_entry(old[p], index, first));
    assert forall|j: int| 0 <= j < p + 1 implies #[trigger] has_entry(o2, old[j].0.0) by {
        lemma_has_entry_push(o, old[p], old[j].0.0);
    }
    assert forall|t: int| 0 <= t < i implies #[trigger] has_entry(o2, (first + t) as usize) by {
        lemma_has_entry_push(o, old[p], (first + t) as usize);
    }
    assert forall|k: int, j: int|
        0 <= k < o2.len() && p + 1 <= j < old.len() && (#[trigger] o2[k]).0.0 < first implies o2[k].0 != (#[trigger] old[j]).0 by {
        if k < o.len() {
        } else {
        }
    }
    if ordered {
        if p + 1 < old.len() {
            assert forall|k: int| 0 <= k < o2.len() implies range_le(#[trigger] range_of(o2[k]), range_of(old[p + 1]), snapshot) by {
                lemma_range_order(range_of(o2[k]), range_of(old[p]), range_of(old[p + 1]), snapshot);
            }
        }
        if i < cs.len() {
            assert forall|k: int| 0 <= k < o2.len() implies range_le(#[trigger] range_of(o2[k]), cs[i].range_spec(), snapshot) by {
                lemma_range_order(range_of(o2[k]), range_of(old[p]), cs[i].range_spec(), snapshot);
            }
        }
        assert forall|a: int, b: int| 0 <= a < b < o2.len() implies range_le(#[trigger] range_of(o2[a]), #[trigger] range_of(o2[b]), snapshot) by {
            if b == o.len() {
            }
        }
    }
}

proof fn lemma_building_place<R>(
    o: Seq<(CreaseId, Crease<R>)>,
    old: Seq<(CreaseId, Crease<R>)>,
    index: Map<usize, Range<Anchor>>,
    cs: Seq<Crease<R>>,
    first: int,
    i: int,
    p: int,
    snapshot: &MultiBufferSnapshot,
    ordered: bool,
)
    requires
        building(o, old, index, cs, first, i, p, snapshot, ordered),
        well_kept(old, index, first),
        i < cs.len(),
        0 <= first,
        first + cs.len() <= usize::MAX,
        ordered ==> creases_sorted(cs, snapshot),
        p < old.len() ==> !range_lt(range_of(old[p]), cs[i].range_spec(), snapshot),
    ensures
        building(o.push((CreaseId((first + i) as usize), cs[i])), old, index, cs, first, i + 1, p, snapshot, ordered),
{
    let x = (CreaseId((first + i) as usize), cs[i]);
    let o2 = o.push(x);
    assert(range_of(x) == cs[i].range_spec());
    assert forall|j: int| 0 <= j < p implies #[trigger] has_entry(o2, old[j].0.0) by {
        lemma_has_entry_push(o, x, old[j].0.0);
    }
    assert forall|t: int| 0 <= t < i + 1 implies #[trigger] has_entry(o2, (first + t) as usize) by {
        lemma_has_entry_push(o, x, (first + t) as usize);
    }
    assert forall|k: int| 0 <= k < o2.len() implies kept_entry(#[trigger] o2[k], index, first) || fresh_entry(o2[k], cs, first, i + 1) by {
        if k < o.len() {
            assert(kept_entry(o[k], index, first) || fresh_entry(o[k], cs, first, i));
        }
    }
    assert forall|a: int, b: int| 0 <= a < b < o2.len() implies (#[trigger] o2[a]).0 != (#[trigger] o2[b]).0 by {
        if b == o.len() {
            assert(kept_entry(o[a], index, first) || fresh_entry(o[a], cs, first, i));
        }
    }
    if ordered {
        if p < old.len() {
            assert forall|k: int| 0 <= k < o2.len() implies range_le(#[trigger] range_of(o2[k]), range_of(old[p]), snapshot) by {
                lemma_range_order(range_of(o2[k]), cs[i].range_spec(), range_of(old[p]), snapshot);
            }
        }
        if i + 1 < cs.len() {
            assert(range_le(cs[i].range_spec(), cs[i + 1].range_spec(), snapshot));
            assert forall|k: int| 0 <= k < o2.len() implies range_le(#[trigger] range_of(o2[k]), cs[i + 1].range_spec(), snapshot) by {
                lemma_range_order(range_of(o2[k]), cs[i].range_spec(), cs[i + 1].range_spec(), snapshot);
            }
        }
        assert forall|a: int, b: int| 0 <= a < b < o2.len() implies range_le(#[trigger] range_of(o2[a]), #[trigger] range_of(o2[b]), snapshot) by {
            if b == o.len() {
            }
        }
    }
}

/// Whether identity `k` is among `ids`.
pub open spec fn listed(ids: Seq<CreaseId>, k: usize) -> bool {
    exists|j: int| 0 <= j < ids.len() && (#[trigger] ids[j]).0 == k
}

/// `es` without the entries whose identity is among `ids`, order kept.
pub open spec fn drop_listed<R>(es: Seq<(CreaseId, Crease<R>)>, ids: Seq<CreaseId>) -> Seq<(CreaseId, Crease<R>)>
    decreases es.len(),
{
    if es.len() == 0 {
        seq![]
    } else {
        let rest = drop_listed(es.drop_last(), ids);
        if listed(ids, es.last().0.0) {
            rest
        } else {
            rest.push(es.last())
        }
    }
}

/// The reverse index without the records of `ids`.
pub open spec fn index_without(index: Map<usize, Range<Anchor>>, ids: Seq<CreaseId>) -> Map<usize, Range<Anchor>> {
    Map::new(|k: usize| index.contains_key(k) && !listed(ids, k), |k: usize| index[k])
}

/// The mutable owner of the crease sequence: it issues identities, keeps the
/// reverse index from identity to range, and publishes a new snapshot on each
/// change.
pub struct CreaseMap<R> {
    snapshot: CreaseSnapshot<R>,
    next_id: CreaseId,
    id_to_range: HashMap<usize, Range<Anchor>>,
}

impl<R> CreaseMap<R> {
    /// The entries of the current version.
    pub closed spec fn entries(&self) -> Seq<(CreaseId, Crease<R>)> {
        self.snapshot.entries()
    }

    /// The identity the next inserted crease receives.
    pub closed spec fn next(&self) -> int {
        self.next_id.0 as int
    }

    /// The reverse index: identity to the range the crease was inserted with.
    pub closed spec fn index(&self) -> Map<usize, Range<Anchor>> {
        self.id_to_range@
    }

    /// Every stored crease has a distinct identity below `next()` and a record in
    /// the index with its range; every record has an identity below `next()`.
    pub open spec fn wf(&self) -> bool {
        &&& well_kept(self.entries(), self.index(), self.next())
        &&& forall|key: usize| #[trigger] self.index().contains_key(key) ==> key < self.next() && has_entry(self.entries(), key)
    }

    /// An empty registry.
    pub fn new(snapshot: &MultiBufferSnapshot) -> (r: CreaseMap<R>)
        ensures
            r.wf(),
            r.entries() == Seq::<(CreaseId, Crease<R>)>::empty(),
            r.next() == 0,
            r.index() == Map::<usize, Range<Anchor>>::empty(),
    {
        let r = CreaseMap {
            snapshot: CreaseSnapshot::new(snapshot),
            next_id: CreaseId(0),
            id_to_range: HashMap::new(),
        };
        assert(r.index() =~= Map::<usize, Range<Anchor>>::empty());
        r
    }

    /// The current version; later changes to the registry leave it as it is.
    pub fn snapshot(&self) -> (r: CreaseSnapshot<R>)
        ensures
            r.entries() == self.entries(),
    {
        self.snapshot.share()
    }

    /// Inserts `creases` in the order given and returns their identities, one per
    /// crease, consecutive from `next()`. Each crease is placed after the entries
    /// that precede it, scanning forward from where the previous one was placed;
    /// the batch is expected in ascending range order and is not reordered.
    pub fn insert(&mut self, creases: Vec<Crease<R>>, snapshot: &MultiBufferSnapshot) -> (ids: Vec<
        CreaseId,
    >)
        requires
            old(self).wf(),
            snapshot.wf(),
            old(self).next() + creases@.len() <= usize::MAX,
        ensures
            final(self).wf(),
            ids@.len() == creases@.len(),
            forall|k: int| 0 <= k < ids@.len() ==> #[trigger] ids@[k] == CreaseId((old(self).next() + k) as usize),
            final(self).next() == old(self).next() + creases@.len(),
            final(self).index() == index_with(old(self).index(), creases@, old(self).next()),
            final(self).entries() == spliced(old(self).entries(), new_entries(creases@, old(self).next()), snapshot),
            sorted(old(self).entries(), snapshot) && creases_sorted(creases@, snapshot) ==> sorted(final(self).entries(), snapshot),
    {
        let ghost old_es = self.entries();
        let ghost old_index = self.index();
        let ghost first = self.next();
        let ghost cs = creases@;
        let ghost n: int = cs.len() as int;
        let ghost news = new_entries(cs, first);
        let ghost ordered = sorted(old_es, snapshot) && creases_sorted(cs, snapshot);
        let shared = self.snapshot.creases.clone();
        let items: &Vec<CreaseItem<R>> = &*shared;

        let mut creases = creases;
        let mut pending: Vec<Crease<R>> = Vec::new();
        while creases.len() > 0
            invariant
                creases@.len() + pending@.len() == n,
                n == cs.len(),
                creases@ == cs.subrange(0, creases@.len() as int),
                forall|j: int| 0 <= j < pending@.len() ==> #[trigger] pending@[j] == cs[n - 1 - j],
            decreases creases@.len(),
        {
            let ghost before = creases@;
            let c = creases.pop().unwrap();
            assert(c == cs[creases@.len() as int]);
            assert(creases@ =~= cs.subrange(0, creases@.len() as int));
            pending.push(c);
        }

        let mut out: Vec<CreaseItem<R>> = Vec::new();
        let mut ids: Vec<CreaseId> = Vec::new();
        let mut p: usize = 0;
        let mut i: usize = 0;
        assert(entries_of(out@) =~= placed(old_es, news.take(0), snapshot).0);
        while pending.len() > 0
            invariant
                i + pending@.len() == n,
                n == cs.len(),
                0 <= first,
                forall|j: int| 0 <= j < pending@.len() ==> #[trigger] pending@[j] == cs[n - 1 - j],
                old_es == entries_of(items@),
                old_es.len() == items@.len(),
                news == new_entries(cs, first),
                placed(old_es, news.take(i as int), snapshot) == (entries_of(out@), p as int),
                building(entries_of(out@), old_es, old_index, cs, first, i as int, p as int, snapshot, ordered),
                well_kept(old_es, old_index, first),
                forall|key: usize| #[trigger] old_index.contains_key(key) ==> key < first && has_entry(old_es, key),
                ordered == (sorted(old_es, snapshot) && creases_sorted(cs, snapshot)),
                self.next() == first + i,
                first + n <= usize::MAX,
                self.index() == index_with(old_index, cs.take(i as int), first),
                ids@.len() == i,
                forall|k: int| 0 <= k < i ==> #[trigger] ids@[k] == CreaseId((first + k) as usize),
                snapshot.wf(),
            decreases pending@.len(),
        {
            let crease = pending.pop().unwrap();
            assert(crease == cs[i as int]);
            let range = Range { start: crease.range().start, end: crease.range().end };
            assert(range == cs[i as int].range_spec());
            let ghost out0 = entries_of(out@);
            let ghost p0 = p as int;
            proof {
                lemma_seek_range_bounds(old_es, p0, range, snapshot);
            }
            while p < items.len() && range_precedes(items[p].crease.range(), &range, snapshot)
                invariant
                    0 <= p0 <= p <= items@.len(),
                    old_es == entries_of(items@),
                old_es.len() == items@.len(),
                    seek_range(old_es, p as int, range, snapshot) == seek_range(old_es, p0, range, snapshot),
                    entries_of(out@) == out0 + old_es.subrange(p0, p as int),
                    building(entries_of(out@), old_es, old_index, cs, first, i as int, p as int, snapshot, ordered),
                    well_kept(old_es, old_index, first),
                    forall|key: usize| #[trigger] old_index.contains_key(key) ==> key < first && has_entry(old_es, key),
                    ordered == (sorted(old_es, snapshot) && creases_sorted(cs, snapshot)),
                    i < n,
                    n == cs.len(),
                    range == cs[i as int].range_spec(),
                    snapshot.wf(),
                decreases items@.len() - p,
            {
                assert(old_es[p as int] == items@[p as int].entry());
                proof {
                    lemma_building_copy(entries_of(out@), old_es, old_index, cs, first, i as int, p as int, snapshot, ordered);
                }
                let item = items[p].share();
                let ghost prev = entries_of(out@);
                out.push(item);
                assert(entries_of(out@) =~= prev.push(old_es[p as int]));
                assert(old_es.subrange(p0, p + 1) =~= old_es.subrange(p0, p as int).push(old_es[p as int]));
                assert(entries_of(out@) =~= out0 + old_es.subrange(p0, p + 1));
                p = p + 1;
            }
            if p < items.len() {
                assert(old_es[p as int] == items@[p as int].entry());
            }
            proof {
                lemma_building_place(entries_of(out@), old_es, old_index, cs, first, i as int, p as int, snapshot, ordered);
                assert(news.take(i + 1).drop_last() =~= news.take(i as int));
                assert(news.take(i + 1).last() == news[i as int]);
            }
            let id = self.next_id;
            self.next_id = CreaseId(id.0 + 1);
            self.id_to_range.insert(id.0, range);
            let ghost prev = entries_of(out@);
            out.push(CreaseItem { id, crease: Arc::new(crease) });
            assert(news[i as int] == (id, cs[i as int]));
            assert(entries_of(out@) =~= prev.push(news[i as int]));
            ids.push(id);
            assert(entries_of(out@) =~= out0 + old_es.subrange(p0, p as int) + seq![news[i as int]]);
            assert(self.index() =~= index_with(old_index, cs.take(i + 1), first));
            i = i + 1;
        }
        assert(news.take(n) =~= news);
        assert(cs.take(n) =~= cs);
        let ghost placed_out = entries_of(out@);
        let ghost pn = p as int;
        while p < items.len()
            invariant
                0 <= pn <= p <= items@.len(),
                old_es == entries_of(items@),
                old_es.len() == items@.len(),
                entries_of(out@) == placed_out + old_es.subrange(pn, p as int),
                building(entries_of(out@), old_es, old_index, cs, first, n, p as int, snapshot, ordered),
                n == cs.len(),
                well_kept(old_es, old_index, first),
                forall|key: usize| #[trigger] old_index.contains_key(key) ==> key < first && has_entry(old_es, key),
                self.next() == first + n,
                0 <= first,
                self.index() == index_with(old_index, cs, first),
                ordered == (sorted(old_es, snapshot) && creases_sorted(cs, snapshot)),
                snapshot.wf(),
            decreases items@.len() - p,
        {
            assert(old_es[p as int] == items@[p as int].entry());
            proof {
                lemma_building_copy(entries_of(out@), old_es, old_index, cs, first, n, p as int, snapshot, ordered);
            }
            let item = items[p].share();
            let ghost prev = entries_of(out@);
            out.push(item);
            assert(entries_of(out@) =~= prev.push(old_es[p as int]));
            assert(old_es.subrange(pn, p + 1) =~= old_es.subrange(pn, p as int).push(old_es[p as int]));
            assert(entries_of(out@) =~= placed_out + old_es.subrange(pn, p + 1));
            p = p + 1;
        }
        self.snapshot = CreaseSnapshot { creases: Arc::new(out) };
        proof {
            let es = self.entries();
            let idx = self.index();
            assert forall|k: int| 0 <= k < es.len() implies kept_entry(#[trigger] es[k], idx, self.next()) by {
                assert(kept_entry(es[k], old_index, first) || fresh_entry(es[k], cs, first, n as int));
            }
            assert forall|key: usize| #[trigger] idx.contains_key(key) implies key < self.next() && has_entry(es, key) by {
                if first <= key < first + n {
                    let t = key - first;
                    assert(has_entry(es, (first + t) as usize));
                } else {
                    assert(old_index.contains_key(key));
                    let j = choose|j: int| 0 <= j < old_es.len() && (#[trigger] old_es[j]).0.0 == key;
                    assert(has_entry(es, old_es[j].0.0));
                }
            }
        }
        ids
    }

    /// Removes the creases with the given identities; identities that are not
    /// stored are ignored. Every other crease stays, in its place.
    pub fn remove(&mut self, ids: Vec<CreaseId>, snapshot: &MultiBufferSnapshot)
        requires
            old(self).wf(),
            snapshot.wf(),
        ensures
            final(self).wf(),
            final(self).next() == old(self).next(),
            final(self).index() == index_without(old(self).index(), ids@),
            final(self).entries() == drop_listed(old(self).entries(), ids@),
            sorted(old(self).entries(), snapshot) ==> sorted(final(self).entries(), snapshot),
    {
        let ghost old_es = self.entries();
        let ghost old_index = self.index();
        let ghost ordered = sorted(old_es, snapshot);
        let mut i: usize = 0;
        assert(old_index =~= index_without(old_index, ids@.take(0)));
        while i < ids.len()
            invariant
                i <= ids@.len(),
                self.index() == index_without(old_index, ids@.take(i as int)),
                self.entries() == old_es,
                self.next_id == old(self).next_id,
            decreases ids@.len() - i,
        {
            self.id_to_range.remove(&ids[i].0);
            proof {
                assert forall|k: usize| listed(ids@.take(i + 1), k) == (listed(ids@.take(i as int), k) || ids@[i as int].0 == k) by {
                    if listed(ids@.take(i + 1), k) {
                        let j = choose|j: int| 0 <= j < i + 1 && (#[trigger] ids@.take(i + 1)[j]).0 == k;
                        if j < i {
                            assert(ids@.take(i as int)[j] == ids@.take(i + 1)[j]);
                        }
                    }
                    if listed(ids@.take(i as int), k) {
                        let j = choose|j: int| 0 <= j < i && (#[trigger] ids@.take(i as int)[j]).0 == k;
                        assert(ids@.take(i + 1)[j] == ids@.take(i as int)[j]);
                    }
                    if ids@[i as int].0 == k {
                        assert(ids@.take(i + 1)[i as int] == ids@[i as int]);
                    }
                }
            }
            assert(self.index() =~= index_without(old_index, ids@.take(i + 1)));
            i = i + 1;
        }
        assert(ids@.take(ids@.len() as int) =~= ids@);
        let shared = self.snapshot.creases.clone();
        let items: &Vec<CreaseItem<R>> = &*shared;
        let mut out: Vec<CreaseItem<R>> = Vec::new();
        let mut p: usize = 0;
        assert(entries_of(out@) =~= drop_listed(old_es.take(0), ids@));
        while p < items.len()
            invariant
                p <= items@.len(),
                old_es == entries_of(items@),
                old_es.len() == items@.len(),
                self.index() == index_without(old_index, ids@),
                well_kept(old_es, old_index, old(self).next()),
                self.next_id == old(self).next_id,
                forall|key: usize| #[trigger] old_index.contains_key(key) ==> key < old(self).next() && has_entry(old_es, key),
                ordered == sorted(old_es, snapshot),
                entries_of(out@) == drop_listed(old_es.take(p as int), ids@),
                forall|k: int| 0 <= k < out@.len() ==> kept_entry(#[trigger] entries_of(out@)[k], self.index(), old(self).next()),
                forall|a: int, b: int| 0 <= a < b < out@.len() ==> (#[trigger] entries_of(out@)[a]).0 != (#[trigger] entries_of(out@)[b]).0,
                forall|k: int, j: int| 0 <= k < out@.len() && p <= j < old_es.len() ==> (#[trigger] entries_of(out@)[k]).0 != (#[trigger] old_es[j]).0,
                ordered ==> sorted(entries_of(out@), snapshot),
                ordered ==> forall|k: int, j: int| 0 <= k < out@.len() && p <= j < old_es.len() ==> range_le(#[trigger] range_of(entries_of(out@)[k]), #[trigger] range_of(old_es[j]), snapshot),
            decreases items@.len() - p,
        {
            assert(old_es[p as int] == items@[p as int].entry());
            assert(kept_entry(old_es[p as int], old_index, old(self).next()));
            assert(old_es.take(p + 1).drop_last() =~= old_es.take(p as int));
            assert(old_es.take(p + 1).last() == old_es[p as int]);
            let ghost prev = entries_of(out@);
            if self.id_to_range.contains_key(&items[p].id.0) {
                let item = items[p].share();
                out.push(item);
                assert(entries_of(out@) =~= prev.push(old_es[p as int]));
                assert(forall|j: int| p < j < old_es.len() ==> old_es[p as int].0 != (#[trigger] old_es[j]).0);
            }
            p = p + 1;
        }
        assert(old_es.take(old_es.len() as int) =~= old_es);
        self.snapshot = CreaseSnapshot { creases: Arc::new(out) };
        proof {
            let idx = self.index();
            assert forall|key: usize| #[trigger] idx.contains_key(key) implies key < self.next() && has_entry(self.entries(), key) by {
                assert(old_index.contains_key(key));
                let j = choose|j: int| 0 <= j < old_es.len() && (#[trigger] old_es[j]).0.0 == key;
                lemma_remove_keeps_others(old_es, ids@, j);
                let k = choose|k: int| 0 <= k < drop_listed(old_es, ids@).len() && #[trigger] drop_listed(old_es, ids@)[k] == old_es[j];
                assert(self.entries()[k].0.0 == key);
            }
        }
    }
}

/// Identities are issued in increasing order: within each batch and from one
/// batch to the next, so no two issued identities are equal.
pub proof fn lemma_identities_increase<R>(
    m0: CreaseMap<R>,
    ids1: Seq<CreaseId>,
    m1: CreaseMap<R>,
    ids2: Seq<CreaseId>,
)
    requires
        forall|k: int| 0 <= k < ids1.len() ==> #[trigger] ids1[k] == CreaseId((m0.next() + k) as usize),
        m1.next() == m0.next() + ids1.len(),
        forall|k: int| 0 <= k < ids2.len() ==> #[trigger] ids2[k] == CreaseId((m1.next() + k) as usize),
        0 <= m0.next(),
        m1.next() + ids2.len() <= usize::MAX,
    ensures
        forall|a: int, b: int| 0 <= a < b < ids1.len() ==> (#[trigger] ids1[a]).0 < (#[trigger] ids1[b]).0,
        forall|a: int, b: int| 0 <= a < b < ids2.len() ==> (#[trigger] ids2[a]).0 < (#[trigger] ids2[b]).0,
        forall|a: int, b: int| 0 <= a < ids1.len() && 0 <= b < ids2.len() ==> (#[trigger] ids1[a]).0 < (#[trigger] ids2[b]).0,
{
}

/// A crease inserted into an empty registry is found by `query_row` on the row
/// where its start lies, provided that start is valid, and on no other row.
pub proof fn lemma_single_crease_query_row<R>(
    c: Crease<R>,
    first: int,
    row: u32,
    snapshot: &MultiBufferSnapshot,
)
    requires
        snapshot.wf(),
        c.range_spec().start.valid_in(snapshot),
    ensures
        ({
            let es = spliced(Seq::empty(), new_entries(seq![c], first), snapshot);
            let from = seek_start(es, 0, snapshot.anchor_before_spec(Point { row, column: 0 }), snapshot);
            &&& es == seq![(CreaseId(first as usize), c)]
            &&& scan_row(es, from, row, snapshot) == if row == c.range_spec().start.resolve(snapshot).row {
                Some(0int)
            } else {
                None
            }
        }),
{
    let news = new_entries(seq![c], first);
    let empty = Seq::<(CreaseId, Crease<R>)>::empty();
    assert(news.drop_last() =~= Seq::<(CreaseId, Crease<R>)>::empty());
    assert(placed(empty, news.drop_last(), snapshot) == (empty, 0int));
    assert(empty.subrange(0, 0) =~= empty);
    let es = spliced(empty, news, snapshot);
    assert(es =~= seq![(CreaseId(first as usize), c)]);
    let target = snapshot.anchor_before_spec(Point { row, column: 0 });
    let from = seek_start(es, 0, target, snapshot);
    assert(seek_start(es, 1, target, snapshot) == 1);
    assert(scan_row(es, 1, row, snapshot) is None);
}

/// Removing never drops an entry whose identity was not asked for.
pub proof fn lemma_remove_keeps_others<R>(es: Seq<(CreaseId, Crease<R>)>, ids: Seq<CreaseId>, j: int)
    requires
        0 <= j < es.len(),
        !listed(ids, es[j].0.0),
    ensures
        exists|k: int| 0 <= k < drop_listed(es, ids).len() && #[trigger] drop_listed(es, ids)[k] == es[j],
    decreases es.len(),
{
    let rest = drop_listed(es.drop_last(), ids);
    if j == es.len() - 1 {
        assert(drop_listed(es, ids)[rest.len() as int] == es[j]);
    } else {
        assert(es.drop_last()[j] == es[j]);
        lemma_remove_keeps_others(es.drop_last(), ids, j);
        let k = choose|k: int| 0 <= k < rest.len() && #[trigger] rest[k] == es[j];
        assert(drop_listed(es, ids)[k] == es[j]);
    }
}

/// Removing the same identities a second time changes neither the entries nor
/// the reverse index.
pub proof fn lemma_remove_twice<R>(
    es: Seq<(CreaseId, Crease<R>)>,
    index: Map<usize, Range<Anchor>>,
    ids: Seq<CreaseId>,
)
    ensures
        drop_listed(drop_listed(es, ids), ids) == drop_listed(es, ids),
        index_without(index_without(index, ids), ids) == index_without(index, ids),
    decreases es.len(),
{
    assert(index_without(index_without(index, ids), ids) =~= index_without(index, ids));
    if es.len() > 0 {
        let rest = drop_listed(es.drop_last(), ids);
        lemma_remove_twice(es.drop_last(), index, ids);
        if !listed(ids, es.last().0.0) {
            assert(rest.push(es.last()).drop_last() =~= rest);
        }
    }
}
} // verus!
