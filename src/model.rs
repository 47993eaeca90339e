use vstd::prelude::*;
use crate::geometry::{contains_point, distance_sq, overlaps, Rect};
use crate::grid::{cell_before, GridShape};
use crate::index::ItemRecord;
use crate::tuning::{OPTIMIZE_AVERAGE_LIMIT, OPTIMIZE_MAX_LIMIT, OPTIMIZE_MIN_ITEMS};

verus! {

/// The abstract contents of a sequence of records.
pub open spec fn records(v: Seq<ItemRecord>) -> Seq<(Seq<char>, Rect)> {
    v.map_values(|r: ItemRecord| r@)
}

pub open spec fn record_of(o: Option<ItemRecord>) -> Option<(Seq<char>, Rect)> {
    match o {
        Some(rec) => Some(rec@),
        None => None,
    }
}

/// No identifier occurs twice.
pub open spec fn unique_ids(s: Seq<(Seq<char>, Rect)>) -> bool {
    forall|i: int, j: int| 0 <= i < s.len() && 0 <= j < s.len() && i != j ==> s[i].0 != s[j].0
}

pub open spec fn has_id(s: Seq<(Seq<char>, Rect)>, id: Seq<char>) -> bool {
    exists|j: int| 0 <= j < s.len() && s[j].0 == id
}

/// Where `id` stands in `s` (meaningful when `has_id(s, id)`).
pub open spec fn position_of(s: Seq<(Seq<char>, Rect)>, id: Seq<char>) -> int {
    choose|j: int| 0 <= j < s.len() && s[j].0 == id
}

/// `e` written into `s`: an entry with the same identifier is overwritten in
/// place, otherwise `e` is appended.
pub open spec fn upsert(s: Seq<(Seq<char>, Rect)>, e: (Seq<char>, Rect)) -> Seq<(Seq<char>, Rect)> {
    if has_id(s, e.0) {
        s.update(position_of(s, e.0), e)
    } else {
        s.push(e)
    }
}

/// The item `id` is registered with a box that covers the cell.
pub open spec fn indexed_at(
    s: Seq<(Seq<char>, Rect)>,
    shape: GridShape,
    id: Seq<char>,
    row: int,
    col: int,
) -> bool {
    exists|j: int| 0 <= j < s.len() && s[j].0 == id && shape.covers(s[j].1, row, col)
}

/// What an index holds: its registry of items in insertion order, and the
/// geometry of its grid.
pub struct SpatialIndexView {
    pub entries: Seq<(Seq<char>, Rect)>,
    pub shape: GridShape,
    pub last_query_micros: u64,
}

/// `es` written one after the other into `s`.
pub open spec fn upsert_all(
    s: Seq<(Seq<char>, Rect)>,
    es: Seq<(Seq<char>, Rect)>,
) -> Seq<(Seq<char>, Rect)>
    decreases es.len(),
{
    if es.len() == 0 {
        s
    } else {
        upsert(upsert_all(s, es.drop_last()), es.last())
    }
}

/// Sum of `f` over the first `cols` cells of a row.
pub open spec fn sum_row(f: spec_fn(int, int) -> nat, row: int, cols: int) -> nat
    decreases cols,
{
    if cols <= 0 {
        0
    } else {
        sum_row(f, row, cols - 1) + f(row, cols - 1)
    }
}

/// Sum of `f` over the first `rows` rows of `cols` cells.
pub open spec fn sum_grid(f: spec_fn(int, int) -> nat, rows: int, cols: int) -> nat
    decreases rows,
{
    if rows <= 0 {
        0
    } else {
        sum_grid(f, rows - 1, cols) + sum_row(f, rows - 1, cols)
    }
}

pub open spec fn larger(a: nat, b: nat) -> nat {
    if a >= b {
        a
    } else {
        b
    }
}

/// Largest value of `f` over the first `cols` cells of a row (0 if none).
pub open spec fn max_row(f: spec_fn(int, int) -> nat, row: int, cols: int) -> nat
    decreases cols,
{
    if cols <= 0 {
        0
    } else {
        larger(max_row(f, row, cols - 1), f(row, cols - 1))
    }
}

/// Largest value of `f` over the first `rows` rows of `cols` cells.
pub open spec fn max_grid(f: spec_fn(int, int) -> nat, rows: int, cols: int) -> nat
    decreases rows,
{
    if rows <= 0 {
        0
    } else {
        larger(max_grid(f, rows - 1, cols), max_row(f, rows - 1, cols))
    }
}

/// Chebyshev distance between cells `(a, b)` and `(c, d)`.
pub open spec fn ring_distance(a: int, b: int, c: int, d: int) -> int {
    let dr = if a >= c {
        a - c
    } else {
        c - a
    };
    let dc = if b >= d {
        b - d
    } else {
        d - b
    };
    if dr >= dc {
        dr
    } else {
        dc
    }
}

/// Some cell within ring distance `r` of `(sr, sc)` holds the rectangle.
pub open spec fn reaches(shape: GridShape, b: Rect, sr: int, sc: int, r: int) -> bool {
    &&& vstd::math::max(shape.row_lo(b), sr - r) < vstd::math::min(shape.row_hi(b), sr + r + 1)
    &&& vstd::math::max(shape.col_lo(b), sc - r) < vstd::math::min(shape.col_hi(b), sc + r + 1)
}

/// A rectangle in a cell within ring distance `r` reaches ring `r`.
pub(crate) proof fn lemma_reaches_from_cell(shape: GridShape, b: Rect, sr: int, sc: int, r: int, row: int, col: int)
    requires
        shape.covers(b, row, col),
        ring_distance(row, col, sr, sc) <= r,
    ensures
        reaches(shape, b, sr, sc, r),
{
}

/// The cell through which a rectangle reaches ring `r`.
pub(crate) proof fn lemma_reaches_witness(shape: GridShape, b: Rect, sr: int, sc: int, r: int)
    requires
        reaches(shape, b, sr, sc, r),
    ensures
        shape.covers(b, vstd::math::max(shape.row_lo(b), sr - r), vstd::math::max(shape.col_lo(b), sc - r)),
        ring_distance(vstd::math::max(shape.row_lo(b), sr - r), vstd::math::max(shape.col_lo(b), sc - r), sr, sc) <= r,
{
}

/// Once the square of radius `r` spans the grid, larger rings reach the
/// same rectangles.
pub(crate) proof fn lemma_reaches_saturated(shape: GridShape, b: Rect, sr: int, sc: int, r: int, r2: int)
    requires
        sr - r <= 0,
        sc - r <= 0,
        sr + r + 1 >= shape.rows,
        sc + r + 1 >= shape.cols,
        r <= r2,
        shape.row_lo(b) >= 0,
        shape.col_lo(b) >= 0,
    ensures
        reaches(shape, b, sr, sc, r2) == reaches(shape, b, sr, sc, r),
{
}

/// Some `k` in `(lo, hi]` is the first there where `p` holds, or `hi`.
pub(crate) proof fn lemma_first_after(p: spec_fn(int) -> bool, lo: int, hi: int) -> (k: int)
    requires
        lo < hi,
    ensures
        lo < k <= hi,
        forall|i: int| lo < i < k ==> !#[trigger] p(i),
        p(k) || k == hi,
    decreases hi - lo,
{
    if p(lo + 1) || lo + 1 == hi {
        lo + 1
    } else {
        lemma_first_after(p, lo + 1, hi)
    }
}

/// Cell `(rr, cc)` comes before the scan position `(row, col)` of ring `r`
/// around `(sr, sc)`: it lies in an inner ring, or in ring `r` before the
/// position in row-major order.
pub open spec fn scanned(rr: int, cc: int, sr: int, sc: int, r: int, row: int, col: int) -> bool {
    ring_distance(rr, cc, sr, sc) < r || (ring_distance(rr, cc, sr, sc) == r && cell_before(
        (rr, cc),
        (row, col),
    ))
}

/// A search candidate: a registry index and the squared distance of its
/// box, within the bound.
pub open spec fn candidate_ok(
    entries: Seq<(Seq<char>, Rect)>,
    c: Option<(usize, u128)>,
    x: int,
    y: int,
    max_sq: int,
) -> bool {
    match c {
        Some(b) => 0 <= b.0 < entries.len() && b.1 == distance_sq(entries[b.0 as int].1, x, y) && b.1
            <= max_sq,
        None => true,
    }
}

impl SpatialIndexView {
    /// `e` is registered, overlaps the region, and shares a cell with it:
    /// what a region query over `region` returns.
    pub open spec fn in_region(self, e: (Seq<char>, Rect), region: Rect) -> bool {
        &&& self.entries.contains(e)
        &&& overlaps(e.1, region)
        &&& self.shape.shares_cell(e.1, region)
    }

    /// `e` is registered, holds the point, and is filed in the cell holding
    /// the point: what a point query returns.
    pub open spec fn at_point(self, e: (Seq<char>, Rect), x: int, y: int) -> bool {
        match self.shape.cell_of(x, y) {
            Some(c) => self.entries.contains(e) && contains_point(e.1, x, y) && self.shape.covers(
                e.1,
                c.0,
                c.1,
            ),
            None => false,
        }
    }

    /// `e` is another registered item that collides with `item`: what a
    /// collision query for `item` returns.
    pub open spec fn collides(self, e: (Seq<char>, Rect), item: (Seq<char>, Rect)) -> bool {
        &&& e.0 != item.0
        &&& self.in_region(e, item.1)
    }

    /// How many rings around the point's cell a search out to
    /// `max_distance` may visit: the distance over the cell size, rounded up.
    pub open spec fn search_radius(self, max_distance: int) -> int {
        crate::grid::end_index(max_distance, self.shape.cell_size)
    }

    /// `e` is registered, lies within `max_distance` of the point, and sits
    /// in a cell within ring `r` of the point's cell.
    pub open spec fn nearby(self, e: (Seq<char>, Rect), x: int, y: int, max_distance: int, r: int) -> bool {
        &&& self.entries.contains(e)
        &&& distance_sq(e.1, x, y) <= max_distance * max_distance
        &&& match self.shape.cell_of(x, y) {
            Some(c) => reaches(self.shape, e.1, c.0, c.1, r),
            None => false,
        }
    }

    /// After ring `r` the search may stop: something was found no farther
    /// than `r` cell sizes, the least distance any item beyond the searched
    /// rings could have.
    pub open spec fn search_stops(self, x: int, y: int, max_distance: int, r: int) -> bool {
        exists|e: (Seq<char>, Rect)|
            #[trigger] self.nearby(e, x, y, max_distance, r) && distance_sq(e.1, x, y) <= (r
                * self.shape.cell_size) * (r * self.shape.cell_size)
    }

    /// `r` is the ring after which the search ends: the first where it may
    /// stop, or the last it may visit.
    pub open spec fn is_stop_ring(self, x: int, y: int, max_distance: int, r: int) -> bool {
        &&& 0 <= r <= self.search_radius(max_distance)
        &&& forall|i: int| 0 <= i < r ==> !#[trigger] self.search_stops(x, y, max_distance, i)
        &&& (self.search_stops(x, y, max_distance, r) || r == self.search_radius(max_distance))
    }

    /// What a nearest-item search gives when it ends after ring `r`: nothing
    /// if no item is nearby, else a nearby item of least distance.
    pub open spec fn nearest_after(
        self,
        res: Option<(Seq<char>, Rect)>,
        x: int,
        y: int,
        max_distance: int,
        r: int,
    ) -> bool {
        match res {
            None => forall|e: (Seq<char>, Rect)| !#[trigger] self.nearby(e, x, y, max_distance, r),
            Some(f) => self.nearby(f, x, y, max_distance, r) && forall|e: (Seq<char>, Rect)|
                #[trigger] self.nearby(e, x, y, max_distance, r) ==> distance_sq(f.1, x, y)
                    <= distance_sq(e.1, x, y),
        }
    }

    /// How many registered items are filed in the cell.
    pub open spec fn load(self, row: int, col: int) -> nat {
        Set::new(|id: Seq<char>| indexed_at(self.entries, self.shape, id, row, col)).len()
    }

    pub open spec fn load_fn(self) -> spec_fn(int, int) -> nat {
        |r: int, c: int| self.load(r, c)
    }

    /// 1 for a cell holding at least one item, else 0.
    pub open spec fn occupancy_fn(self) -> spec_fn(int, int) -> nat {
        |r: int, c: int|
            if self.load(r, c) > 0 {
                1nat
            } else {
                0nat
            }
    }

    /// Memberships over all cells: an item counts once per cell it is in.
    pub open spec fn memberships(self) -> nat {
        sum_grid(self.load_fn(), self.shape.rows, self.shape.cols)
    }

    /// How many cells hold at least one item.
    pub open spec fn occupied(self) -> nat {
        sum_grid(self.occupancy_fn(), self.shape.rows, self.shape.cols)
    }

    /// The most items any one cell holds.
    pub open spec fn max_load(self) -> nat {
        max_grid(self.load_fn(), self.shape.rows, self.shape.cols)
    }

    /// The re-tuning gate: many items, and cells that are crowded on average
    /// or at worst.
    pub open spec fn needs_tuning(self) -> bool {
        &&& self.entries.len() > OPTIMIZE_MIN_ITEMS
        &&& (self.memberships() > OPTIMIZE_AVERAGE_LIMIT * self.occupied() || self.max_load()
            > OPTIMIZE_MAX_LIMIT)
    }
}

} // verus!
