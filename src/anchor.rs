//! Positions in a buffer version, and anchors resolved against such a version.
//!
//! A [`MultiBufferSnapshot`] is described by the length of each of its lines. An
//! [`Anchor`] records the position it was made at and which side it leans to; a
//! snapshot resolves it by clipping that position into its own text, and reports it
//! invalid when the position no longer lies inside that text.
use std::ops::Range;
use vstd::prelude::*;
use vstd::string::StringSliceAdditionalSpecFns;

verus! {

/// A coordinate in a buffer: zero-based row and column.
#[derive(Clone, Copy, Debug, PartialEq, Eq, Structural)]
pub struct Point {
    pub row: u32,
    pub column: u32,
}

impl Point {
    pub fn new(row: u32, column: u32) -> (r: Point)
        ensures
            r == (Point { row, column }),
    {
        Point { row, column }
    }
}

/// A row of a buffer.
#[derive(Clone, Copy, Debug, PartialEq, Eq, Structural)]
pub struct MultiBufferRow(pub u32);

/// The side an anchor leans to when text is inserted exactly at its position.
#[derive(Clone, Copy, Debug, PartialEq, Eq, Structural)]
pub enum Bias {
    Left,
    Right,
}

/// An edit-stable reference to a position, resolved relative to a snapshot.
#[derive(Clone, Copy, Debug, PartialEq, Eq, Structural)]
pub struct Anchor {
    pub point: Point,
    pub bias: Bias,
}

/// One version of a buffer's text, given by the length of each line.
pub struct MultiBufferSnapshot {
    line_lens: Vec<u32>,
}

impl MultiBufferSnapshot {
    /// Line lengths of this version; a buffer always has at least one line.
    pub closed spec fn lines(&self) -> Seq<u32> {
        self.line_lens@
    }

    pub open spec fn wf(&self) -> bool {
        &&& 1 <= self.lines().len() <= u32::MAX
    }

    /// The last position of the text.
    pub open spec fn max_point(&self) -> Point {
        Point {
            row: (self.lines().len() - 1) as u32,
            column: self.lines().last(),
        }
    }

    /// The position of the text nearest to `p`.
    pub open spec fn clip(&self, p: Point) -> Point {
        if p.row < self.lines().len() {
            Point {
                row: p.row,
                column: if p.column <= self.lines()[p.row as int] {
                    p.column
                } else {
                    self.lines()[p.row as int]
                },
            }
        } else {
            self.max_point()
        }
    }

    /// Whether `p` lies inside the text.
    pub open spec fn contains(&self, p: Point) -> bool {
        p.row < self.lines().len() && p.column <= self.lines()[p.row as int]
    }

    /// A snapshot with the given line lengths; no lines at all is one empty line.
    pub fn new(line_lens: Vec<u32>) -> (r: MultiBufferSnapshot)
        requires
            line_lens@.len() <= u32::MAX,
        ensures
            r.wf(),
            line_lens@.len() > 0 ==> r.lines() == line_lens@,
            line_lens@.len() == 0 ==> r.lines() == seq![0u32],
    {
        let mut line_lens = line_lens;
        if line_lens.len() == 0 {
            line_lens.push(0);
            assert(line_lens@ =~= seq![0u32]);
        }
        MultiBufferSnapshot { line_lens }
    }

    /// The snapshot of `text`: lines are separated by `\n`, columns count bytes.
    pub fn from_text(text: &str) -> (r: MultiBufferSnapshot)
        requires
            text.spec_bytes().len() < u32::MAX,
        ensures
            r.wf(),
            r.lines().len() == line_lengths(text.spec_bytes()).len(),
            forall|i: int| 0 <= i < r.lines().len() ==> r.lines()[i] == #[trigger] line_lengths(text.spec_bytes())[i],
    {
        let bytes = text.as_bytes();
        let ghost b = text.spec_bytes();
        let mut lens: Vec<u32> = Vec::new();
        lens.push(0);
        let mut p: usize = 0;
        assert(b.take(0).len() == 0);
        while p < bytes.len()
            invariant
                bytes@ == b,
                b.len() < u32::MAX,
                p <= b.len(),
                1 <= lens@.len() <= p + 1,
                lens@.len() == line_lengths(b.take(p as int)).len(),
                forall|i: int| 0 <= i < lens@.len() ==> lens@[i] == #[trigger] line_lengths(b.take(p as int))[i],
                forall|i: int| 0 <= i < lens@.len() ==> #[trigger] lens@[i] <= p,
            decreases b.len() - p,
        {
            assert(b.take(p + 1).drop_last() =~= b.take(p as int));
            assert(b.take(p + 1).last() == b[p as int]);
            if bytes[p] == 10u8 {
                lens.push(0);
            } else {
                let last = lens.len() - 1;
                let n = lens[last];
                lens.set(last, n + 1);
            }
            p = p + 1;
        }
        assert(b.take(b.len() as int) =~= b);
        MultiBufferSnapshot { line_lens: lens }
    }

    pub fn line_count(&self) -> (r: u32)
        requires
            self.wf(),
        ensures
            r == self.lines().len(),
    {
        self.line_lens.len() as u32
    }

    fn clip_point(&self, p: Point) -> (r: Point)
        requires
            self.wf(),
        ensures
            r == self.clip(p),
    {
        let n = self.line_lens.len();
        if (p.row as usize) < n {
            let len = self.line_lens[p.row as usize];
            Point { row: p.row, column: if p.column <= len { p.column } else { len } }
        } else {
            Point { row: (n - 1) as u32, column: self.line_lens[n - 1] }
        }
    }

    pub open spec fn anchor_before_spec(&self, point: Point) -> Anchor {
        Anchor { point: self.clip(point), bias: Bias::Left }
    }

    /// An anchor at the clipped `point` that stays before text inserted there.
    pub fn anchor_before(&self, point: Point) -> (r: Anchor)
        requires
            self.wf(),
        ensures
            r == self.anchor_before_spec(point),
    {
        Anchor { point: self.clip_point(point), bias: Bias::Left }
    }

    /// An anchor at the clipped `point` that stays after text inserted there.
    pub fn anchor_after(&self, point: Point) -> (r: Anchor)
        requires
            self.wf(),
        ensures
            r == (Anchor { point: self.clip(point), bias: Bias::Right }),
    {
        Anchor { point: self.clip_point(point), bias: Bias::Right }
    }
}

/// The byte length of each `\n`-separated line of `bytes`.
pub open spec fn line_lengths(bytes: Seq<u8>) -> Seq<int>
    decreases bytes.len(),
{
    if bytes.len() == 0 {
        seq![0int]
    } else {
        let ls = line_lengths(bytes.drop_last());
        if bytes.last() == 10u8 {
            ls.push(0)
        } else {
            ls.update(ls.len() - 1, ls.last() + 1)
        }
    }
}

impl Anchor {
    pub open spec fn resolve(&self, snapshot: &MultiBufferSnapshot) -> Point {
        snapshot.clip(self.point)
    }

    pub open spec fn valid_in(&self, snapshot: &MultiBufferSnapshot) -> bool {
        snapshot.contains(self.point)
    }

    /// The coordinate this anchor denotes in `snapshot`.
    pub fn to_point(&self, snapshot: &MultiBufferSnapshot) -> (r: Point)
        requires
            snapshot.wf(),
        ensures
            r == self.resolve(snapshot),
    {
        snapshot.clip_point(self.point)
    }

    /// Whether the text this anchor refers to is still present in `snapshot`.
    pub fn is_valid(&self, snapshot: &MultiBufferSnapshot) -> (r: bool)
        requires
            snapshot.wf(),
        ensures
            r == self.valid_in(snapshot),
    {
        let n = snapshot.line_lens.len();
        (self.point.row as usize) < n && self.point.column <= snapshot.line_lens[self.point.row
            as usize]
    }

    /// Whether `self` comes strictly before `other` in `snapshot`.
    pub fn precedes(&self, other: &Anchor, snapshot: &MultiBufferSnapshot) -> (r: bool)
        requires
            snapshot.wf(),
        ensures
            r == anchor_lt(*self, *other, snapshot),
    {
        let p = self.to_point(snapshot);
        let q = other.to_point(snapshot);
        p.row < q.row || (p.row == q.row && (p.column < q.column || (p.column == q.column
            && self.bias == Bias::Left && other.bias == Bias::Right)))
    }
}

/// Anchors are ordered by resolved position, a left-leaning one before a
/// right-leaning one at the same position.
pub open spec fn anchor_lt(a: Anchor, b: Anchor, snapshot: &MultiBufferSnapshot) -> bool {
    let p = a.resolve(snapshot);
    let q = b.resolve(snapshot);
    p.row < q.row || (p.row == q.row && (p.column < q.column || (p.column == q.column && a.bias
        == Bias::Left && b.bias == Bias::Right)))
}

/// Anchor ranges are ordered by start, and among equal starts the longer first.
pub open spec fn range_lt(a: Range<Anchor>, b: Range<Anchor>, snapshot: &MultiBufferSnapshot) -> bool {
    anchor_lt(a.start, b.start, snapshot) || (!anchor_lt(b.start, a.start, snapshot) && anchor_lt(
        b.end,
        a.end,
        snapshot,
    ))
}

/// `a` does not come after `b`.
pub open spec fn range_le(a: Range<Anchor>, b: Range<Anchor>, snapshot: &MultiBufferSnapshot) -> bool {
    !range_lt(b, a, snapshot)
}

/// Whether range `a` comes strictly before range `b` in `snapshot`.
pub fn range_precedes(a: &Range<Anchor>, b: &Range<Anchor>, snapshot: &MultiBufferSnapshot) -> (r:
    bool)
    requires
        snapshot.wf(),
    ensures
        r == range_lt(*a, *b, snapshot),
{
    a.start.precedes(&b.start, snapshot) || (!b.start.precedes(&a.start, snapshot)
        && b.end.precedes(&a.end, snapshot))
}

/// The order on ranges is a strict weak order: `range_le` is total and transitive.
pub proof fn lemma_range_order(
    a: Range<Anchor>,
    b: Range<Anchor>,
    c: Range<Anchor>,
    snapshot: &MultiBufferSnapshot,
)
    ensures
        range_le(a, b, snapshot) || range_le(b, a, snapshot),
        range_le(a, b, snapshot) && range_le(b, c, snapshot) ==> range_le(a, c, snapshot),
        range_lt(a, b, snapshot) && range_le(b, c, snapshot) ==> range_lt(a, c, snapshot),
        range_le(a, b, snapshot) && range_lt(b, c, snapshot) ==> range_lt(a, c, snapshot),
{
}

} // verus!
