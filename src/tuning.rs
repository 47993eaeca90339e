use vstd::prelude::*;
use crate::geometry::Rect;
use crate::index::{ItemRecord, SpatialIndexStats};
use crate::model::records;

verus! {

/// The number of items a tuned cell should hold on average.
pub const TARGET_DENSITY: u32 = 10;

/// The smallest cell side the density heuristic picks.
pub const MIN_TUNED_CELL_SIZE: u32 = 50;

/// The largest cell side the density heuristic picks.
pub const MAX_TUNED_CELL_SIZE: u32 = 500;

/// The cell side used when there is nothing to tune it on.
pub const DEFAULT_CELL_SIZE: u32 = 100;

/// An index is worth re-tuning only above this many items.
pub const OPTIMIZE_MIN_ITEMS: usize = 1000;

/// Re-tune when occupied cells hold more than this many items on average.
pub const OPTIMIZE_AVERAGE_LIMIT: u64 = 100;

/// Re-tune when some cell holds more than this many items.
pub const OPTIMIZE_MAX_LIMIT: usize = 200;

/// Side of the square universe, anchored at the origin, that re-tuning
/// rebuilds the index over.
pub const REBUILD_EXTENT: u32 = 2000;

/// The re-tuning policy: re-tune an index of more than `OPTIMIZE_MIN_ITEMS`
/// items whose occupied cells average more than `OPTIMIZE_AVERAGE_LIMIT`
/// items, or whose fullest cell holds more than `OPTIMIZE_MAX_LIMIT`.
pub fn should_optimize(stats: &SpatialIndexStats) -> (r: bool)
    ensures
        r == (stats.total_elements > OPTIMIZE_MIN_ITEMS && (stats.total_memberships
            > OPTIMIZE_AVERAGE_LIMIT * stats.occupied_cells || stats.max_elements_per_cell
            > OPTIMIZE_MAX_LIMIT)),
{
    stats.total_elements > OPTIMIZE_MIN_ITEMS && (stats.average_exceeds(OPTIMIZE_AVERAGE_LIMIT)
        || stats.max_elements_per_cell > OPTIMIZE_MAX_LIMIT)
}

/// The total area of the boxes in `s`.
pub open spec fn area_sum(s: Seq<(Seq<char>, Rect)>) -> int
    decreases s.len(),
{
    if s.len() == 0 {
        0
    } else {
        area_sum(s.drop_last()) + s.last().1.width * s.last().1.height
    }
}

/// The density heuristic: a cell should hold `TARGET_DENSITY` items of the
/// average area, so its side is the square root of that many average areas,
/// rounded down and clamped to `[MIN_TUNED_CELL_SIZE, MAX_TUNED_CELL_SIZE]`.
/// With no items the side is `DEFAULT_CELL_SIZE`.
pub open spec fn is_tuned_cell_size(size: int, count: int, area: int) -> bool {
    if count == 0 {
        size == DEFAULT_CELL_SIZE
    } else {
        &&& MIN_TUNED_CELL_SIZE <= size <= MAX_TUNED_CELL_SIZE
        &&& (size == MIN_TUNED_CELL_SIZE || size * size * count <= TARGET_DENSITY * area)
        &&& (size == MAX_TUNED_CELL_SIZE || (size + 1) * (size + 1) * count > TARGET_DENSITY
            * area)
    }
}

/// A tuned cell size always lies in `[50, 500]`.
pub proof fn lemma_tuned_size_bounds(size: int, count: int, area: int)
    requires
        is_tuned_cell_size(size, count, area),
    ensures
        MIN_TUNED_CELL_SIZE <= size <= MAX_TUNED_CELL_SIZE,
{
}

/// The cell side that the density heuristic picks for `elements`.
pub fn calculate_optimal_cell_size(elements: &[ItemRecord]) -> (size: u32)
    ensures
        is_tuned_cell_size(size as int, elements@.len() as int, area_sum(records(elements@))),
{
    let n = elements.len();
    if n == 0 {
        return DEFAULT_CELL_SIZE;
    }
    let ghost all = records(elements@);
    let mut total: u128 = 0;
    let mut i: usize = 0;
    while i < n
        invariant
            n == elements@.len(),
            all == records(elements@),
            i <= n,
            total == area_sum(all.subrange(0, i as int)),
            total <= i * 0x1_0000_0000_0000_0000,
        decreases n - i,
    {
        let b = elements[i].bounds;
        let w = b.width as u128;
        let h = b.height as u128;
        assert(w * h <= 0x1_0000_0000_0000_0000) by (nonlinear_arith)
            requires
                w <= 0xffff_ffff,
                h <= 0xffff_ffff,
        ;
        let a = w * h;
        assert(all.subrange(0, i + 1).drop_last() =~= all.subrange(0, i as int));
        assert(all.subrange(0, i + 1).last() == all[i as int]);
        assert(i * 0x1_0000_0000_0000_0000 + 0x1_0000_0000_0000_0000 <= 0xffff_ffff_ffff_ffff
            * 0x1_0000_0000_0000_0000) by (nonlinear_arith)
            requires
                i < n,
                n <= 0xffff_ffff_ffff_ffff,
        ;
        total = total + a;
        i += 1;
    }
    assert(all.subrange(0, n as int) =~= all);
    // Beyond this bound the comparison below holds for every candidate size,
    // so capping the area changes nothing and keeps the arithmetic in range.
    let cap: u128 = 0x1_0000_0000_0000_0000_0000_0000;
    let area = if total > cap {
        cap
    } else {
        total
    };
    let count = n as u128;
    let mut size: u32 = MIN_TUNED_CELL_SIZE;
    loop
        invariant
            MIN_TUNED_CELL_SIZE <= size <= MAX_TUNED_CELL_SIZE,
            count == n,
            1 <= n <= 0xffff_ffff_ffff_ffff,
            area == if total > cap {
                cap
            } else {
                total
            },
            area <= cap,
            cap == 0x1_0000_0000_0000_0000_0000_0000,
            total == area_sum(records(elements@)),
            size == MIN_TUNED_CELL_SIZE || size * size * n <= TARGET_DENSITY * total,
        ensures
            MIN_TUNED_CELL_SIZE <= size <= MAX_TUNED_CELL_SIZE,
            size == MIN_TUNED_CELL_SIZE || size * size * n <= TARGET_DENSITY * total,
            size == MAX_TUNED_CELL_SIZE || (size + 1) * (size + 1) * n > TARGET_DENSITY * total,
        decreases MAX_TUNED_CELL_SIZE - size,
    {
        if size >= MAX_TUNED_CELL_SIZE {
            break;
        }
        let next = (size + 1) as u128;
        assert(next * next <= 501 * 501) by (nonlinear_arith)
            requires
                next <= 501,
        ;
        assert(next * next * count <= 501 * 501 * 0xffff_ffff_ffff_ffff) by (nonlinear_arith)
            requires
                next * next <= 501 * 501,
                count <= 0xffff_ffff_ffff_ffff,
        ;
        let fits = next * next * count <= 10 * area;
        proof {
            if total > cap {
                assert(next * next * count <= 10 * area);
                assert(fits);
                assert(next * next * n <= TARGET_DENSITY * total);
            } else {
                assert(fits == (next * next * n <= TARGET_DENSITY * total));
            }
        }
        if !fits {
            break;
        }
        size = size + 1;
    }
    size
}

} // verus!
