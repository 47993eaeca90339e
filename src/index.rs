use vstd::prelude::*;
use crate::geometry::{contains_point, distance_sq, overlaps, Rect};
use crate::grid::{lemma_common_cell, lemma_shared_witness, SpatialGrid};
use crate::model::{
    candidate_ok, has_id, indexed_at, larger, lemma_first_after, lemma_reaches_from_cell,
    lemma_reaches_saturated, lemma_reaches_witness, max_grid, max_row, position_of, reaches,
    record_of, records, scanned, sum_grid, sum_row, unique_ids, upsert, upsert_all,
    SpatialIndexView,
};
use crate::order::{sort_by_id, sorted_by_id};
use crate::tuning::{
    area_sum, calculate_optimal_cell_size, is_tuned_cell_size, should_optimize, DEFAULT_CELL_SIZE,
    OPTIMIZE_MIN_ITEMS, REBUILD_EXTENT,
};

verus! {

/// An indexed item: its identifier and its bounding box.
#[derive(Debug, Clone)]
pub struct ItemRecord {
    pub id: String,
    pub bounds: Rect,
}

impl View for ItemRecord {
    type V = (Seq<char>, Rect);

    open spec fn view(&self) -> (Seq<char>, Rect) {
        (self.id@, self.bounds)
    }
}

impl ItemRecord {
    pub fn new(id: String, bounds: Rect) -> (r: ItemRecord)
        ensures
            r@ == (id@, bounds),
    {
        ItemRecord { id, bounds }
    }

    pub fn duplicate(&self) -> (r: ItemRecord)
        ensures
            r@ == self@,
    {
        ItemRecord { id: self.id.clone(), bounds: self.bounds }
    }
}

/// A snapshot of how full the index is.
#[derive(Debug, Clone, Copy, PartialEq, Eq, Structural)]
pub struct SpatialIndexStats {
    pub total_elements: usize,
    pub total_cells: u64,
    pub occupied_cells: u64,
    /// Memberships over all cells; divided by `occupied_cells` it is the
    /// average number of items per occupied cell.
    pub total_memberships: u128,
    pub max_elements_per_cell: usize,
    pub memory_usage_bytes: u128,
    pub last_query_time_micros: u64,
}

impl SpatialIndexStats {
    /// Whether occupied cells hold more than `limit` items on average (an
    /// index with no occupied cell averages zero).
    pub fn average_exceeds(&self, limit: u64) -> (r: bool)
        ensures
            r == (self.total_memberships > limit * self.occupied_cells),
    {
        let l = limit as u128;
        let o = self.occupied_cells as u128;
        assert(l * o <= 0xffff_ffff_ffff_ffff * 0xffff_ffff_ffff_ffff) by (nonlinear_arith)
            requires
                l <= 0xffff_ffff_ffff_ffff,
                o <= 0xffff_ffff_ffff_ffff,
        ;
        self.total_memberships > l * o
    }
}

/// The grid, the registry of boxes and the last query time, kept together
/// as one unit: every mutation goes through `&mut self`, so a reader never
/// sees the grid and the registry out of step.
pub struct SpatialIndexManager {
    grid: SpatialGrid,
    items: Vec<ItemRecord>,
    last_query_micros: u64,
}

impl View for SpatialIndexManager {
    type V = SpatialIndexView;

    closed spec fn view(&self) -> SpatialIndexView {
        SpatialIndexView {
            entries: records(self.items@),
            shape: self.grid.shape(),
            last_query_micros: self.last_query_micros,
        }
    }
}

impl SpatialIndexManager {
    /// The grid holds each registered item in exactly the cells its box
    /// covers, and nothing else.
    pub closed spec fn wf(&self) -> bool {
        &&& self.grid.wf()
        &&& unique_ids(records(self.items@))
        &&& forall|row: int, col: int, id: Seq<char>|
            0 <= row < self.grid.rows && 0 <= col < self.grid.cols ==> (
            #[trigger] self.grid.ids_at(row, col).contains(id) <==> indexed_at(
                records(self.items@),
                self.grid.shape(),
                id,
                row,
                col,
            ))
    }

    /// An empty index over `bounds`; a cell size that is not positive is
    /// replaced by the default.
    pub fn new(bounds: Rect, cell_size: i32) -> (m: SpatialIndexManager)
        ensures
            m.wf(),
            m@.entries == Seq::<(Seq<char>, Rect)>::empty(),
            m@.last_query_micros == 0,
            m@.shape.well_formed(),
            m@.shape.bounds == bounds,
            m@.shape.cell_size == if cell_size > 0 {
                cell_size as int
            } else {
                DEFAULT_CELL_SIZE as int
            },
    {
        let size: u32 = if cell_size > 0 {
            cell_size as u32
        } else {
            DEFAULT_CELL_SIZE
        };
        let m = SpatialIndexManager {
            grid: SpatialGrid::new(bounds, size),
            items: Vec::new(),
            last_query_micros: 0,
        };
        assert(records(m.items@) =~= Seq::<(Seq<char>, Rect)>::empty());
        m
    }

    /// Where the item `id` stands in the registry.
    fn position(&self, id: &String) -> (r: Option<usize>)
        ensures
            r matches Some(j) ==> j < self.items@.len() && records(self.items@)[j as int].0 == id@,
            r is None ==> !has_id(records(self.items@), id@),
    {
        let mut j: usize = 0;
        while j < self.items.len()
            invariant
                j <= self.items@.len(),
                forall|k: int| 0 <= k < j ==> records(self.items@)[k].0 != id@,
            decreases self.items.len() - j,
        {
            if self.items[j].id == *id {
                return Some(j);
            }
            j += 1;
        }
        None
    }

    /// Moves the item at `j` to `bounds`: its cells change from those of its
    /// old box to those of the new one.
    fn relocate(&mut self, j: usize, bounds: Rect)
        requires
            old(self).wf(),
            j < old(self).items@.len(),
        ensures
            final(self).wf(),
            final(self)@.shape == old(self)@.shape,
            final(self)@.last_query_micros == old(self)@.last_query_micros,
            final(self)@.entries == old(self)@.entries.update(
                j as int,
                (old(self)@.entries[j as int].0, bounds),
            ),
    {
        let ghost pre = records(self.items@);
        let ghost shape = self.grid.shape();
        let id = self.items[j].id.clone();
        let old_bounds = self.items[j].bounds;
        assert(pre[j as int] == (id@, old_bounds));
        self.grid.clear_membership(&id, &old_bounds);
        self.grid.add_membership(&id, &bounds);
        self.items[j] = ItemRecord { id, bounds };
        let ghost post = records(self.items@);
        assert(post =~= pre.update(j as int, (id@, bounds)));
        assert forall|row: int, col: int, x: Seq<char>|
            0 <= row < self.grid.rows && 0 <= col < self.grid.cols implies (
            #[trigger] self.grid.ids_at(row, col).contains(x) <==> indexed_at(
                post,
                shape,
                x,
                row,
                col,
            )) by {
            if x == id@ {
                if indexed_at(pre, shape, x, row, col) {
                    let k = choose|k: int|
                        0 <= k < pre.len() && pre[k].0 == x && shape.covers(pre[k].1, row, col);
                    assert(k == j);
                }
                if shape.covers(old_bounds, row, col) {
                    assert(pre[j as int].0 == x);
                }
                if indexed_at(post, shape, x, row, col) {
                    let k = choose|k: int|
                        0 <= k < post.len() && post[k].0 == x && shape.covers(post[k].1, row, col);
                    if k != j {
                        assert(pre[k].0 == pre[j as int].0);
                    }
                }
                if shape.covers(bounds, row, col) {
                    assert(post[j as int].0 == x);
                }
            } else {
                if indexed_at(pre, shape, x, row, col) {
                    let k = choose|k: int|
                        0 <= k < pre.len() && pre[k].0 == x && shape.covers(pre[k].1, row, col);
                    assert(post[k] == pre[k]);
                }
                if indexed_at(post, shape, x, row, col) {
                    let k = choose|k: int|
                        0 <= k < post.len() && post[k].0 == x && shape.covers(post[k].1, row, col);
                    assert(post[k] == pre[k]);
                }
            }
        }
        assert(unique_ids(post)) by {
            assert forall|a: int, b: int|
                0 <= a < post.len() && 0 <= b < post.len() && a != b implies post[a].0
                != post[b].0 by {
                assert(pre[a].0 == post[a].0 && pre[b].0 == post[b].0);
            }
        }
    }

    /// Appends a record whose identifier is not registered yet.
    fn append(&mut self, rec: ItemRecord)
        requires
            old(self).wf(),
            !has_id(old(self)@.entries, rec@.0),
        ensures
            final(self).wf(),
            final(self)@.shape == old(self)@.shape,
            final(self)@.last_query_micros == old(self)@.last_query_micros,
            final(self)@.entries == old(self)@.entries.push(rec@),
    {
        let ghost pre = records(self.items@);
        let ghost shape = self.grid.shape();
        let ghost id = rec.id@;
        self.grid.add_membership(&rec.id, &rec.bounds);
        let ghost b = rec.bounds;
        self.items.push(rec);
        let ghost post = records(self.items@);
        assert(post =~= pre.push((id, b)));
        let ghost n = pre.len();
        assert forall|row: int, col: int, x: Seq<char>|
            0 <= row < self.grid.rows && 0 <= col < self.grid.cols implies (
            #[trigger] self.grid.ids_at(row, col).contains(x) <==> indexed_at(
                post,
                shape,
                x,
                row,
                col,
            )) by {
            if indexed_at(pre, shape, x, row, col) {
                let k = choose|k: int|
                    0 <= k < pre.len() && pre[k].0 == x && shape.covers(pre[k].1, row, col);
                assert(post[k] == pre[k]);
            }
            if x == id && shape.covers(b, row, col) {
                assert(post[n as int] == (id, b));
            }
            if indexed_at(post, shape, x, row, col) {
                let k = choose|k: int|
                    0 <= k < post.len() && post[k].0 == x && shape.covers(post[k].1, row, col);
                if k < n {
                    assert(post[k] == pre[k]);
                }
            }
        }
        assert(unique_ids(post)) by {
            assert forall|a: int, c: int|
                0 <= a < post.len() && 0 <= c < post.len() && a != c implies post[a].0
                != post[c].0 by {
                if a < n && c < n {
                    assert(pre[a] == post[a] && pre[c] == post[c]);
                } else if a < n {
                    assert(pre[a] == post[a]);
                } else {
                    assert(pre[c] == post[c]);
                }
            }
        }
    }

    /// Registers the item, or moves it to its new box if its identifier is
    /// already registered.
    pub fn add_element(&mut self, element: &ItemRecord) -> (r: bool)
        requires
            old(self).wf(),
        ensures
            r,
            final(self).wf(),
            final(self)@.shape == old(self)@.shape,
            final(self)@.last_query_micros == old(self)@.last_query_micros,
            final(self)@.entries == upsert(old(self)@.entries, element@),
    {
        match self.position(&element.id) {
            Some(j) => {
                proof {
                    let s = records(self.items@);
                    assert(has_id(s, element@.0));
                    let k = position_of(s, element@.0);
                    assert(k == j);
                }
                self.relocate(j, element.bounds);
            },
            None => {
                self.append(element.duplicate());
            },
        }
        true
    }

    /// Moves a registered item to `new_bounds`; an unknown identifier
    /// changes nothing and gives `false`.
    pub fn update_element(&mut self, element_id: &str, new_bounds: Rect) -> (r: bool)
        requires
            old(self).wf(),
        ensures
            final(self).wf(),
            r == has_id(old(self)@.entries, element_id@),
            final(self)@.shape == old(self)@.shape,
            final(self)@.last_query_micros == old(self)@.last_query_micros,
            r ==> final(self)@.entries == old(self)@.entries.update(
                position_of(old(self)@.entries, element_id@),
                (element_id@, new_bounds),
            ),
            !r ==> final(self)@.entries == old(self)@.entries,
    {
        let id = element_id.to_owned();
        match self.position(&id) {
            Some(j) => {
                proof {
                    let s = records(self.items@);
                    assert(has_id(s, id@));
                    let k = position_of(s, id@);
                    assert(k == j);
                }
                self.relocate(j, new_bounds);
                true
            },
            None => false,
        }
    }

    /// Unregisters the item and clears it from the cells of its box; an
    /// unknown identifier changes nothing and gives `false`.
    pub fn remove_element(&mut self, element_id: &str) -> (r: bool)
        requires
            old(self).wf(),
        ensures
            final(self).wf(),
            r == has_id(old(self)@.entries, element_id@),
            final(self)@.shape == old(self)@.shape,
            final(self)@.last_query_micros == old(self)@.last_query_micros,
            r ==> final(self)@.entries == old(self)@.entries.remove(
                position_of(old(self)@.entries, element_id@),
            ),
            !r ==> final(self)@.entries == old(self)@.entries,
    {
        let id = element_id.to_owned();
        match self.position(&id) {
            Some(j) => {
                let ghost pre = records(self.items@);
                let ghost shape = self.grid.shape();
                proof {
                    assert(has_id(pre, id@));
                    let k = position_of(pre, id@);
                    assert(k == j);
                }
                let b = self.items[j].bounds;
                self.grid.clear_membership(&id, &b);
                self.items.remove(j);
                let ghost post = records(self.items@);
                assert(post =~= pre.remove(j as int));
                assert forall|row: int, col: int, x: Seq<char>|
                    0 <= row < self.grid.rows && 0 <= col < self.grid.cols implies (
                    #[trigger] self.grid.ids_at(row, col).contains(x) <==> indexed_at(
                        post,
                        shape,
                        x,
                        row,
                        col,
                    )) by {
                    if indexed_at(pre, shape, x, row, col) && x != id@ {
                        let k = choose|k: int|
                            0 <= k < pre.len() && pre[k].0 == x && shape.covers(pre[k].1, row, col);
                        if k < j {
                            assert(post[k] == pre[k]);
                        } else {
                            assert(post[k - 1] == pre[k]);
                        }
                    }
                    if x == id@ && shape.covers(b, row, col) {
                        assert(pre[j as int].0 == x);
                    }
                    if indexed_at(post, shape, x, row, col) {
                        let k = choose|k: int|
                            0 <= k < post.len() && post[k].0 == x && shape.covers(post[k].1, row, col);
                        let k2 = if k < j { k } else { k + 1 };
                        assert(post[k] == pre[k2]);
                        assert(k2 != j);
                        assert(pre[k2].0 != pre[j as int].0);
                    }
                }
                assert(unique_ids(post)) by {
                    assert forall|a: int, c: int|
                        0 <= a < post.len() && 0 <= c < post.len() && a != c implies post[a].0
                        != post[c].0 by {
                        let a2 = if a < j { a } else { a + 1 };
                        let c2 = if c < j { c } else { c + 1 };
                        assert(post[a] == pre[a2] && post[c] == pre[c2]);
                    }
                }
                true
            },
            None => false,
        }
    }

    /// Whether some record of `out` carries `id`.
    fn holds_id(out: &Vec<ItemRecord>, id: &String) -> (r: bool)
        ensures
            r == has_id(records(out@), id@),
    {
        let mut t: usize = 0;
        while t < out.len()
            invariant
                t <= out@.len(),
                forall|k: int| 0 <= k < t ==> records(out@)[k].0 != id@,
            decreases out.len() - t,
        {
            if out[t].id == *id {
                assert(records(out@)[t as int].0 == id@);
                return true;
            }
            t += 1;
        }
        false
    }

    /// The items whose box overlaps the region (exclusive test), each once.
    /// Candidates come from the cells the region meets, so an item counts
    /// when it also shares one of those cells.
    pub fn query_region(&self, x: i32, y: i32, width: u32, height: u32) -> (out: Vec<ItemRecord>)
        requires
            self.wf(),
        ensures
            unique_ids(records(out@)),
            sorted_by_id(records(out@)),
            forall|e: (Seq<char>, Rect)|
                #[trigger] records(out@).contains(e) <==> self@.in_region(
                    e,
                    Rect { x, y, width, height },
                ),
    {
        let rect = Rect::new(x, y, width, height);
        let ghost shape = self.grid.shape();
        let ghost entries = records(self.items@);
        let cells = self.grid.get_intersecting_cells(x, y, width, height);
        let mut out: Vec<ItemRecord> = Vec::new();
        let mut k: usize = 0;
        while k < cells.len()
            invariant
                self.wf(),
                shape == self.grid.shape(),
                entries == records(self.items@),
                k <= cells@.len(),
                forall|t: int| 0 <= t < cells@.len() ==> shape.covers(rect, #[trigger] cells@[t].0 as int, cells@[t].1 as int),
                forall|row: int, col: int|
                    shape.covers(rect, row, col) ==> cells@.contains((row as usize, col as usize)),
                unique_ids(records(out@)),
                forall|t: int| 0 <= t < out@.len() ==> entries.contains(#[trigger] records(out@)[t])
                    && overlaps(records(out@)[t].1, rect) && shape.shares_cell(records(out@)[t].1, rect),
                forall|j: int, kk: int|
                    0 <= j < entries.len() && 0 <= kk < k && shape.covers(#[trigger] entries[j].1, #[trigger] cells@[kk].0 as int, cells@[kk].1 as int)
                        && overlaps(entries[j].1, rect) ==> records(out@).contains(entries[j]),
            decreases cells.len() - k,
        {
            let (row, col) = cells[k];
            assert(shape.covers(rect, row as int, col as int));
            let ghost ids = self.grid.ids_at(row as int, col as int);
            let n = self.grid.cells[row][col].elements.len();
            let mut m: usize = 0;
            while m < n
                invariant
                    self.wf(),
                    shape == self.grid.shape(),
                    entries == records(self.items@),
                    k < cells@.len(),
                    (row, col) == cells@[k as int],
                    shape.covers(rect, row as int, col as int),
                    ids == self.grid.ids_at(row as int, col as int),
                    n == ids.len(),
                    m <= n,
                    unique_ids(records(out@)),
                    forall|t: int| 0 <= t < out@.len() ==> entries.contains(#[trigger] records(out@)[t])
                        && overlaps(records(out@)[t].1, rect) && shape.shares_cell(records(out@)[t].1, rect),
                    forall|j: int, kk: int|
                        0 <= j < entries.len() && 0 <= kk < k && shape.covers(#[trigger] entries[j].1, #[trigger] cells@[kk].0 as int, cells@[kk].1 as int)
                            && overlaps(entries[j].1, rect) ==> records(out@).contains(entries[j]),
                    forall|j: int, mm: int|
                        0 <= j < entries.len() && 0 <= mm < m && #[trigger] ids[mm] == #[trigger] entries[j].0
                            && overlaps(entries[j].1, rect) ==> records(out@).contains(entries[j]),
                decreases n - m,
            {
                let id = &self.grid.cells[row][col].elements[m];
                assert(id@ == ids[m as int]);
                assert(ids.contains(id@));
                if !Self::holds_id(&out, id) {
                    match self.position(id) {
                        Some(j) => {
                            if self.items[j].bounds.intersects(&rect) {
                                proof {
                                    let w = choose|w: int| 0 <= w < entries.len() && entries[w].0 == id@
                                        && shape.covers(entries[w].1, row as int, col as int);
                                    assert(w == j);
                                    lemma_common_cell(shape, entries[w].1, rect, row as int, col as int);
                                }
                                let ghost before = records(out@);
                                out.push(self.items[j].duplicate());
                                proof {
                                    let after = records(out@);
                                    assert(after =~= before.push(entries[j as int]));
                                    assert(after[before.len() as int] == entries[j as int]);
                                    assert(entries.contains(entries[j as int]));
                                    assert forall|a: int, c: int| 0 <= a < after.len() && 0 <= c < after.len() && a != c
                                        implies after[a].0 != after[c].0 by {
                                        if a < before.len() && c < before.len() {
                                            assert(after[a] == before[a] && after[c] == before[c]);
                                        } else if a < before.len() {
                                            assert(after[a] == before[a]);
                                        } else if c < before.len() {
                                            assert(after[c] == before[c]);
                                        }
                                    }
                                    assert forall|e: (Seq<char>, Rect)| before.contains(e) implies after.contains(e) by {
                                        let t = choose|t: int| 0 <= t < before.len() && before[t] == e;
                                        assert(after[t] == e);
                                    }
                                    assert forall|jj: int, mm: int|
                                        0 <= jj < entries.len() && 0 <= mm < m + 1 && #[trigger] ids[mm] == #[trigger] entries[jj].0
                                            && overlaps(entries[jj].1, rect) implies after.contains(entries[jj]) by {
                                        if mm == m {
                                            if jj != j {
                                                assert(entries[jj].0 != entries[j as int].0);
                                            }
                                        } else {
                                            assert(before.contains(entries[jj]));
                                        }
                                    }
                                }
                            } else {
                                proof {
                                    assert forall|jj: int, mm: int|
                                        0 <= jj < entries.len() && 0 <= mm < m + 1 && #[trigger] ids[mm] == #[trigger] entries[jj].0
                                            && overlaps(entries[jj].1, rect) implies records(out@).contains(entries[jj]) by {
                                        if mm == m && jj != j {
                                            assert(entries[jj].0 != entries[j as int].0);
                                        }
                                    }
                                }
                            }
                        },
                        None => {
                            proof {
                                let w = choose|w: int| 0 <= w < entries.len() && entries[w].0 == id@
                                    && shape.covers(entries[w].1, row as int, col as int);
                                assert(has_id(entries, id@));
                            }
                        },
                    }
                } else {
                    proof {
                        let out_v = records(out@);
                        assert forall|jj: int, mm: int|
                            0 <= jj < entries.len() && 0 <= mm < m + 1 && #[trigger] ids[mm] == #[trigger] entries[jj].0
                                && overlaps(entries[jj].1, rect) implies out_v.contains(entries[jj]) by {
                            if mm == m {
                                let t = choose|t: int| 0 <= t < out_v.len() && out_v[t].0 == id@;
                                assert(entries.contains(out_v[t]));
                                let w = choose|w: int| 0 <= w < entries.len() && entries[w] == out_v[t];
                                if w != jj {
                                    assert(entries[w].0 != entries[jj].0);
                                }
                            }
                        }
                    }
                }
                m += 1;
            }
            proof {
                assert forall|j: int, kk: int|
                    0 <= j < entries.len() && 0 <= kk < k + 1 && shape.covers(#[trigger] entries[j].1, #[trigger] cells@[kk].0 as int, cells@[kk].1 as int)
                        && overlaps(entries[j].1, rect) implies records(out@).contains(entries[j]) by {
                    if kk == k {
                        assert(indexed_at(entries, shape, entries[j].0, row as int, col as int));
                        assert(self.grid.ids_at(row as int, col as int).contains(entries[j].0));
                        let mm = choose|mm: int| 0 <= mm < ids.len() && ids[mm] == entries[j].0;
                    }
                }
            }
            k += 1;
        }
        proof {
            let out_v = records(out@);
            assert forall|e: (Seq<char>, Rect)|
                #[trigger] out_v.contains(e) <==> (entries.contains(e) && overlaps(e.1, rect)
                    && shape.shares_cell(e.1, rect)) by {
                if out_v.contains(e) {
                    let t = choose|t: int| 0 <= t < out_v.len() && out_v[t] == e;
                }
                if entries.contains(e) && overlaps(e.1, rect) && shape.shares_cell(e.1, rect) {
                    let j = choose|j: int| 0 <= j < entries.len() && entries[j] == e;
                    lemma_shared_witness(shape, e.1, rect);
                    let row = vstd::math::max(shape.row_lo(e.1), shape.row_lo(rect));
                    let col = vstd::math::max(shape.col_lo(e.1), shape.col_lo(rect));
                    assert(cells@.contains((row as usize, col as usize)));
                    let kk = choose|kk: int| 0 <= kk < cells@.len() && cells@[kk] == (row as usize, col as usize);
                    assert(shape.covers(entries[j].1, cells@[kk].0 as int, cells@[kk].1 as int));
                }
            }
        }
        sort_by_id(out)
    }

    /// The other items whose box overlaps the item's box: the region query
    /// over that box, without the item itself.
    pub fn detect_collisions(&self, element: &ItemRecord) -> (out: Vec<ItemRecord>)
        requires
            self.wf(),
        ensures
            unique_ids(records(out@)),
            sorted_by_id(records(out@)),
            forall|e: (Seq<char>, Rect)|
                #[trigger] records(out@).contains(e) <==> self@.collides(e, element@),
    {
        let b = element.bounds;
        let hits = self.query_region(b.x, b.y, b.width, b.height);
        assert(b == Rect { x: b.x, y: b.y, width: b.width, height: b.height });
        let ghost hv = records(hits@);
        let mut out: Vec<ItemRecord> = Vec::new();
        let mut i: usize = 0;
        while i < hits.len()
            invariant
                i <= hits@.len(),
                hv == records(hits@),
                unique_ids(hv),
                unique_ids(records(out@)),
                forall|u: int|
                    0 <= u < out@.len() ==> hv.subrange(0, i as int).contains(
                        #[trigger] records(out@)[u],
                    ) && records(out@)[u].0 != element.id@,
                forall|t: int|
                    0 <= t < i && hv[t].0 != element.id@ ==> records(out@).contains(#[trigger] hv[t]),
            decreases hits.len() - i,
        {
            let ghost before = records(out@);
            if hits[i].id != element.id {
                out.push(hits[i].duplicate());
            }
            proof {
                let after = records(out@);
                let pre_h = hv.subrange(0, i as int);
                let post_h = hv.subrange(0, i + 1);
                if hv[i as int].0 != element.id@ {
                    assert(after =~= before.push(hv[i as int]));
                } else {
                    assert(after == before);
                }
                assert forall|u: int| 0 <= u < after.len() implies post_h.contains(#[trigger] after[u])
                    && after[u].0 != element.id@ by {
                    if u < before.len() {
                        assert(after[u] == before[u]);
                        let t = choose|t: int| 0 <= t < pre_h.len() && pre_h[t] == before[u];
                        assert(post_h[t] == pre_h[t]);
                    } else {
                        assert(post_h[i as int] == after[u]);
                    }
                }
                assert forall|t: int| 0 <= t < i + 1 && hv[t].0 != element.id@
                    implies after.contains(#[trigger] hv[t]) by {
                    if t < i {
                        let u = choose|u: int| 0 <= u < before.len() && before[u] == hv[t];
                        assert(after[u] == hv[t]);
                    } else {
                        assert(after[before.len() as int] == hv[t]);
                    }
                }
                assert forall|a: int, c: int| 0 <= a < after.len() && 0 <= c < after.len() && a != c
                    implies after[a].0 != after[c].0 by {
                    if a < before.len() && c < before.len() {
                        assert(after[a] == before[a] && after[c] == before[c]);
                    } else if a < before.len() {
                        assert(after[a] == before[a]);
                        let t = choose|t: int| 0 <= t < pre_h.len() && pre_h[t] == before[a];
                        assert(hv[t] == pre_h[t]);
                        assert(hv[t].0 != hv[i as int].0);
                    } else if c < before.len() {
                        assert(after[c] == before[c]);
                        let t = choose|t: int| 0 <= t < pre_h.len() && pre_h[t] == before[c];
                        assert(hv[t] == pre_h[t]);
                        assert(hv[t].0 != hv[i as int].0);
                    }
                }
            }
            i += 1;
        }
        proof {
            let ov = records(out@);
            assert(hv.subrange(0, hv.len() as int) == hv);
            assert forall|e: (Seq<char>, Rect)| #[trigger] ov.contains(e) <==> (hv.contains(e)
                && e.0 != element.id@) by {
                if ov.contains(e) {
                    let u = choose|u: int| 0 <= u < ov.len() && ov[u] == e;
                }
                if hv.contains(e) && e.0 != element.id@ {
                    let t = choose|t: int| 0 <= t < hv.len() && hv[t] == e;
                }
            }
        }
        sort_by_id(out)
    }

    /// The items whose box holds the point, boundary included, among those
    /// of the one cell holding the point; none if the point lies outside
    /// the grid.
    pub fn find_at_point(&self, x: i32, y: i32) -> (out: Vec<ItemRecord>)
        requires
            self.wf(),
        ensures
            unique_ids(records(out@)),
            sorted_by_id(records(out@)),
            forall|e: (Seq<char>, Rect)|
                #[trigger] records(out@).contains(e) <==> self@.at_point(e, x as int, y as int),
    {
        let ghost shape = self.grid.shape();
        let ghost entries = records(self.items@);
        let mut out: Vec<ItemRecord> = Vec::new();
        match self.grid.get_cell_coords(x, y) {
            None => {
                assert(records(out@) =~= Seq::<(Seq<char>, Rect)>::empty());
            },
            Some((row, col)) => {
                let ghost ids = self.grid.ids_at(row as int, col as int);
                assert(ids.no_duplicates());
                let n = self.grid.cells[row][col].elements.len();
                let mut m: usize = 0;
                while m < n
                    invariant
                        self.wf(),
                        shape == self.grid.shape(),
                        entries == records(self.items@),
                        row < self.grid.rows,
                        col < self.grid.cols,
                        ids == self.grid.ids_at(row as int, col as int),
                        ids.no_duplicates(),
                        n == ids.len(),
                        m <= n,
                        unique_ids(records(out@)),
                        forall|u: int|
                            0 <= u < out@.len() ==> entries.contains(#[trigger] records(out@)[u])
                                && contains_point(records(out@)[u].1, x as int, y as int)
                                && shape.covers(records(out@)[u].1, row as int, col as int)
                                && exists|mm: int| 0 <= mm < m && ids[mm] == records(out@)[u].0,
                        forall|j: int, mm: int|
                            0 <= j < entries.len() && 0 <= mm < m && #[trigger] ids[mm]
                                == #[trigger] entries[j].0 && contains_point(entries[j].1, x as int, y as int)
                                ==> records(out@).contains(entries[j]),
                    decreases n - m,
                {
                    let id = &self.grid.cells[row][col].elements[m];
                    assert(id@ == ids[m as int]);
                    assert(ids.contains(id@));
                    let ghost w = choose|w: int| 0 <= w < entries.len() && entries[w].0 == id@
                        && shape.covers(entries[w].1, row as int, col as int);
                    match self.position(id) {
                        Some(j) => {
                            assert(w == j);
                            if self.items[j].bounds.contains_point(x, y) {
                                let ghost before = records(out@);
                                out.push(self.items[j].duplicate());
                                proof {
                                    let after = records(out@);
                                    assert(after =~= before.push(entries[j as int]));
                                    assert(entries.contains(entries[j as int]));
                                    assert forall|u: int| 0 <= u < after.len() implies entries.contains(#[trigger] after[u])
                                        && contains_point(after[u].1, x as int, y as int)
                                        && shape.covers(after[u].1, row as int, col as int)
                                        && exists|mm: int| 0 <= mm < m + 1 && ids[mm] == after[u].0 by {
                                        if u < before.len() {
                                            assert(after[u] == before[u]);
                                        } else {
                                            assert(ids[m as int] == after[u].0);
                                        }
                                    }
                                    assert forall|a: int, c: int| 0 <= a < after.len() && 0 <= c < after.len() && a != c
                                        implies after[a].0 != after[c].0 by {
                                        if a < before.len() && c < before.len() {
                                            assert(after[a] == before[a] && after[c] == before[c]);
                                        } else if a < before.len() {
                                            assert(after[a] == before[a]);
                                            let mm = choose|mm: int| 0 <= mm < m && ids[mm] == before[a].0;
                                            assert(ids[mm] != ids[m as int]);
                                        } else if c < before.len() {
                                            assert(after[c] == before[c]);
                                            let mm = choose|mm: int| 0 <= mm < m && ids[mm] == before[c].0;
                                            assert(ids[mm] != ids[m as int]);
                                        }
                                    }
                                    assert forall|e: (Seq<char>, Rect)| before.contains(e) implies after.contains(e) by {
                                        let t = choose|t: int| 0 <= t < before.len() && before[t] == e;
                                        assert(after[t] == e);
                                    }
                                    assert forall|jj: int, mm: int|
                                        0 <= jj < entries.len() && 0 <= mm < m + 1 && #[trigger] ids[mm]
                                            == #[trigger] entries[jj].0 && contains_point(entries[jj].1, x as int, y as int)
                                            implies after.contains(entries[jj]) by {
                                        if mm == m {
                                            if jj != j {
                                                assert(entries[jj].0 != entries[j as int].0);
                                            }
                                            assert(after[before.len() as int] == entries[j as int]);
                                        } else {
                                            assert(before.contains(entries[jj]));
                                        }
                                    }
                                }
                            } else {
                                assert forall|jj: int, mm: int|
                                    0 <= jj < entries.len() && 0 <= mm < m + 1 && #[trigger] ids[mm]
                                        == #[trigger] entries[jj].0 && contains_point(entries[jj].1, x as int, y as int)
                                        implies records(out@).contains(entries[jj]) by {
                                    if mm == m && jj != j {
                                        assert(entries[jj].0 != entries[j as int].0);
                                    }
                                }
                            }
                        },
                        None => {
                            assert(has_id(entries, id@));
                        },
                    }
                    m += 1;
                }
                proof {
                    let ov = records(out@);
                    assert forall|e: (Seq<char>, Rect)| #[trigger] ov.contains(e) <==> (entries.contains(e)
                        && contains_point(e.1, x as int, y as int) && shape.covers(e.1, row as int, col as int)) by {
                        if ov.contains(e) {
                            let u = choose|u: int| 0 <= u < ov.len() && ov[u] == e;
                        }
                        if entries.contains(e) && contains_point(e.1, x as int, y as int) && shape.covers(e.1, row as int, col as int) {
                            let j = choose|j: int| 0 <= j < entries.len() && entries[j] == e;
                            assert(indexed_at(entries, shape, e.0, row as int, col as int));
                            assert(ids.contains(e.0));
                            let mm = choose|mm: int| 0 <= mm < ids.len() && ids[mm] == e.0;
                            assert(ids[mm] == entries[j].0);
                        }
                    }
                }
            },
        }
        sort_by_id(out)
    }

    proof fn lemma_load(&self, row: int, col: int)
        requires
            self.wf(),
            0 <= row < self.grid.rows,
            0 <= col < self.grid.cols,
        ensures
            self.grid.ids_at(row, col).len() == self@.load(row, col),
    {
        let ids = self.grid.ids_at(row, col);
        ids.unique_seq_to_set();
        assert(ids.to_set() =~= Set::new(
            |id: Seq<char>| indexed_at(records(self.items@), self.grid.shape(), id, row, col),
        ));
    }

    /// Counts of items, cells and memberships, and the last query time.
    pub fn get_stats(&self) -> (st: SpatialIndexStats)
        requires
            self.wf(),
        ensures
            st.total_elements == self@.entries.len(),
            st.total_cells == self@.shape.rows * self@.shape.cols,
            st.occupied_cells == self@.occupied(),
            st.total_memberships == self@.memberships(),
            st.max_elements_per_cell == self@.max_load(),
            st.memory_usage_bytes == self@.shape.rows * self@.shape.cols * 8,
            st.last_query_time_micros == self@.last_query_micros,
    {
        let ghost v = self@;
        let ghost f = v.load_fn();
        let ghost g = v.occupancy_fn();
        let rows = self.grid.rows;
        let cols = self.grid.cols;
        proof {
            crate::grid::lemma_end_index_bound(self.grid.bounds.height as int, self.grid.cell_size as int);
            crate::grid::lemma_end_index_bound(self.grid.bounds.width as int, self.grid.cell_size as int);
        }
        assert(rows * cols <= 0xffff_ffff * 0xffff_ffff) by (nonlinear_arith)
            requires
                rows <= 0xffff_ffff,
                cols <= 0xffff_ffff,
        ;
        let total_cells = rows as u64 * cols as u64;
        let mut sum: u128 = 0;
        let mut occupied: u64 = 0;
        let mut most: usize = 0;
        let mut done: u64 = 0;
        let mut row: usize = 0;
        while row < rows
            invariant
                self.wf(),
                v == self@,
                f == v.load_fn(),
                g == v.occupancy_fn(),
                rows == self.grid.rows,
                cols == self.grid.cols,
                rows * cols <= 0xffff_ffff * 0xffff_ffff,
                row <= rows,
                done == row * cols,
                sum <= done * 0x1_0000_0000_0000_0000,
                occupied <= done,
                sum == sum_grid(f, row as int, cols as int),
                occupied == sum_grid(g, row as int, cols as int),
                most == max_grid(f, row as int, cols as int),
            decreases rows - row,
        {
            let mut col: usize = 0;
            while col < cols
                invariant
                    self.wf(),
                    v == self@,
                    f == v.load_fn(),
                    g == v.occupancy_fn(),
                    rows == self.grid.rows,
                    cols == self.grid.cols,
                    rows * cols <= 0xffff_ffff * 0xffff_ffff,
                    row < rows,
                    col <= cols,
                    done == row * cols + col,
                    sum <= done * 0x1_0000_0000_0000_0000,
                    occupied <= done,
                    sum == sum_grid(f, row as int, cols as int) + sum_row(f, row as int, col as int),
                    occupied == sum_grid(g, row as int, cols as int) + sum_row(g, row as int, col as int),
                    most == larger(max_grid(f, row as int, cols as int), max_row(f, row as int, col as int)),
                decreases cols - col,
            {
                let n = self.grid.cells[row][col].elements.len();
                proof {
                    self.lemma_load(row as int, col as int);
                    assert(n == self.grid.ids_at(row as int, col as int).len());
                    assert(f(row as int, col as int) == v.load(row as int, col as int));
                    assert(n == f(row as int, col as int));
                    assert(row * cols + col + 1 <= rows * cols) by (nonlinear_arith)
                        requires
                            row < rows,
                            col < cols,
                    ;
                    assert((done + 1) * 0x1_0000_0000_0000_0000 <= 0xffff_ffff * 0xffff_ffff * 0x1_0000_0000_0000_0000) by (nonlinear_arith)
                        requires
                            done + 1 <= 0xffff_ffff * 0xffff_ffff,
                    ;
                }
                sum = sum + n as u128;
                if n > 0 {
                    occupied = occupied + 1;
                }
                if n > most {
                    most = n;
                }
                done = done + 1;
                col += 1;
            }
            assert(row * cols + cols == (row + 1) * cols) by (nonlinear_arith);
            row += 1;
        }
        assert(total_cells * 8 <= 0xffff_ffff * 0xffff_ffff * 8) by (nonlinear_arith)
            requires
                total_cells <= 0xffff_ffff * 0xffff_ffff,
        ;
        SpatialIndexStats {
            total_elements: self.items.len(),
            total_cells,
            occupied_cells: occupied,
            total_memberships: sum,
            max_elements_per_cell: most,
            memory_usage_bytes: total_cells as u128 * 8,
            last_query_time_micros: self.last_query_micros,
        }
    }

    /// Records how long the last query took.
    pub fn record_query_time(&mut self, micros: u64)
        requires
            old(self).wf(),
        ensures
            final(self).wf(),
            final(self)@.entries == old(self)@.entries,
            final(self)@.shape == old(self)@.shape,
            final(self)@.last_query_micros == micros,
    {
        self.last_query_micros = micros;
    }

    /// Every registered item, in the order of registration.
    pub fn all_items(&self) -> (out: Vec<ItemRecord>)
        requires
            self.wf(),
        ensures
            records(out@) == self@.entries,
    {
        let mut out: Vec<ItemRecord> = Vec::new();
        let mut i: usize = 0;
        while i < self.items.len()
            invariant
                i <= self.items@.len(),
                out@.len() == i,
                records(out@) == records(self.items@).subrange(0, i as int),
            decreases self.items.len() - i,
        {
            let ghost prev = out@;
            let rec = self.items[i].duplicate();
            out.push(rec);
            assert(records(out@) =~= records(prev).push(self.items@[i as int]@));
            assert(records(out@) =~= records(self.items@).subrange(0, i + 1));
            i += 1;
        }
        assert(records(self.items@).subrange(0, i as int) =~= records(self.items@));
        out
    }

    /// Replaces grid and registry with a grid over `bounds` of cells of side
    /// `size`, holding `elements`.
    fn reset(&mut self, elements: &[ItemRecord], bounds: Rect, size: u32)
        requires
            old(self).wf(),
            size > 0,
        ensures
            final(self).wf(),
            final(self)@.entries == upsert_all(Seq::empty(), records(elements@)),
            final(self)@.shape.well_formed(),
            final(self)@.shape.bounds == bounds,
            final(self)@.shape.cell_size == size,
            final(self)@.last_query_micros == old(self)@.last_query_micros,
    {
        self.grid = SpatialGrid::new(bounds, size);
        self.items = Vec::new();
        let ghost all = records(elements@);
        assert(records(self.items@) =~= Seq::<(Seq<char>, Rect)>::empty());
        assert(all.subrange(0, 0) =~= Seq::<(Seq<char>, Rect)>::empty());
        let mut i: usize = 0;
        while i < elements.len()
            invariant
                self.wf(),
                all == records(elements@),
                i <= elements@.len(),
                self@.entries == upsert_all(Seq::empty(), all.subrange(0, i as int)),
                self@.shape.well_formed(),
                self@.shape.bounds == bounds,
                self@.shape.cell_size == size,
                self@.last_query_micros == old(self)@.last_query_micros,
            decreases elements.len() - i,
        {
            self.add_element(&elements[i]);
            assert(all.subrange(0, i + 1).drop_last() =~= all.subrange(0, i as int));
            i += 1;
        }
        assert(all.subrange(0, i as int) =~= all);
    }

    /// Rebuilds the index over `bounds` holding exactly `elements` (a later
    /// record overwrites an earlier one with the same identifier). A cell
    /// size that is not positive is replaced by the density heuristic's.
    pub fn rebuild(&mut self, elements: &[ItemRecord], bounds: Rect, cell_size: i32)
        requires
            old(self).wf(),
        ensures
            final(self).wf(),
            final(self)@.entries == upsert_all(Seq::empty(), records(elements@)),
            final(self)@.shape.well_formed(),
            final(self)@.shape.bounds == bounds,
            cell_size > 0 ==> final(self)@.shape.cell_size == cell_size,
            cell_size <= 0 ==> is_tuned_cell_size(
                final(self)@.shape.cell_size,
                elements@.len() as int,
                area_sum(records(elements@)),
            ),
            final(self)@.last_query_micros == old(self)@.last_query_micros,
    {
        let size = if cell_size > 0 {
            cell_size as u32
        } else {
            calculate_optimal_cell_size(elements)
        };
        self.reset(elements, bounds, size);
    }

    /// Rebuilds the index over new bounds, keeping its items and cell size.
    pub fn update_bounds(&mut self, bounds: Rect)
        requires
            old(self).wf(),
        ensures
            final(self).wf(),
            final(self)@.entries == old(self)@.entries,
            final(self)@.shape.well_formed(),
            final(self)@.shape.bounds == bounds,
            final(self)@.shape.cell_size == old(self)@.shape.cell_size,
            final(self)@.last_query_micros == old(self)@.last_query_micros,
    {
        let items = self.all_items();
        let size = self.grid.cell_size;
        proof {
            lemma_rebuild_preserves_items(records(items@));
        }
        self.reset(items.as_slice(), bounds, size);
    }

    /// Re-tunes the cell size when the index has grown crowded: with more
    /// than `OPTIMIZE_MIN_ITEMS` items and occupied cells averaging more than
    /// `OPTIMIZE_AVERAGE_LIMIT` items or some cell above
    /// `OPTIMIZE_MAX_LIMIT`, it rebuilds over a `REBUILD_EXTENT` square at
    /// the origin with the heuristic's cell size and returns `true`;
    /// otherwise it changes nothing and returns `false`.
    pub fn auto_optimize(&mut self) -> (r: bool)
        requires
            old(self).wf(),
        ensures
            final(self).wf(),
            r == old(self)@.needs_tuning(),
            old(self)@.entries.len() <= OPTIMIZE_MIN_ITEMS ==> !r && final(self)@ == old(self)@,
            !r ==> final(self)@ == old(self)@,
            r ==> final(self)@.entries == old(self)@.entries,
            r ==> final(self)@.shape.well_formed(),
            r ==> final(self)@.shape.bounds == Rect::new_spec(0, 0, REBUILD_EXTENT, REBUILD_EXTENT),
            r ==> is_tuned_cell_size(
                final(self)@.shape.cell_size,
                old(self)@.entries.len() as int,
                area_sum(old(self)@.entries),
            ),
            final(self)@.last_query_micros == old(self)@.last_query_micros,
    {
        let stats = self.get_stats();
        if should_optimize(&stats) {
            let items = self.all_items();
            let size = calculate_optimal_cell_size(items.as_slice());
            proof {
                lemma_rebuild_preserves_items(records(items@));
            }
            self.reset(items.as_slice(), Rect::new(0, 0, REBUILD_EXTENT, REBUILD_EXTENT), size);
            true
        } else {
            false
        }
    }

    /// Scans the cell at `(row, col)` for an item within the distance bound
    /// closer than `best`, the candidate so far (a registry index and its
    /// squared distance).
    fn scan_cell(
        &self,
        row: usize,
        col: usize,
        x: i32,
        y: i32,
        max_sq: u128,
        best: Option<(usize, u128)>,
    ) -> (nb: Option<(usize, u128)>)
        requires
            self.wf(),
            row < self.grid.rows,
            col < self.grid.cols,
            candidate_ok(self@.entries, best, x as int, y as int, max_sq as int),
        ensures
            candidate_ok(self@.entries, nb, x as int, y as int, max_sq as int),
            nb matches Some(c) ==> nb == best || self@.shape.covers(
                self@.entries[c.0 as int].1,
                row as int,
                col as int,
            ),
            best matches Some(b) ==> (nb matches Some(c) && c.1 <= b.1),
            forall|jj: int|
                0 <= jj < self@.entries.len() && self@.shape.covers(
                    #[trigger] self@.entries[jj].1,
                    row as int,
                    col as int,
                ) && distance_sq(self@.entries[jj].1, x as int, y as int) <= max_sq ==> (
                nb matches Some(c) && c.1 <= distance_sq(self@.entries[jj].1, x as int, y as int)),
    {
        let ghost entries = records(self.items@);
        let ghost shape = self.grid.shape();
        let ghost ids = self.grid.ids_at(row as int, col as int);
        let n = self.grid.cells[row][col].elements.len();
        let mut cur = best;
        let mut m: usize = 0;
        while m < n
            invariant
                self.wf(),
                entries == records(self.items@),
                shape == self.grid.shape(),
                row < self.grid.rows,
                col < self.grid.cols,
                ids == self.grid.ids_at(row as int, col as int),
                n == ids.len(),
                m <= n,
                candidate_ok(entries, cur, x as int, y as int, max_sq as int),
                cur matches Some(c) ==> cur == best || shape.covers(entries[c.0 as int].1, row as int, col as int),
                best matches Some(b) ==> (cur matches Some(c) && c.1 <= b.1),
                forall|jj: int, mm: int|
                    0 <= jj < entries.len() && 0 <= mm < m && #[trigger] ids[mm] == #[trigger] entries[jj].0
                        && distance_sq(entries[jj].1, x as int, y as int) <= max_sq ==> (
                    cur matches Some(c) && c.1 <= distance_sq(entries[jj].1, x as int, y as int)),
            decreases n - m,
        {
            let id = &self.grid.cells[row][col].elements[m];
            assert(id@ == ids[m as int]);
            assert(ids.contains(id@));
            let ghost w = choose|w: int| 0 <= w < entries.len() && entries[w].0 == id@
                && shape.covers(entries[w].1, row as int, col as int);
            match self.position(id) {
                Some(j) => {
                    assert(w == j);
                    let d = self.items[j].bounds.distance_sq_to(x, y);
                    let ghost prev = cur;
                    let closer = match cur {
                        Some((_, bd)) => d < bd,
                        None => true,
                    };
                    if d <= max_sq && closer {
                        cur = Some((j, d));
                    }
                    assert forall|jj: int, mm: int|
                        0 <= jj < entries.len() && 0 <= mm < m + 1 && #[trigger] ids[mm] == #[trigger] entries[jj].0
                            && distance_sq(entries[jj].1, x as int, y as int) <= max_sq implies (
                        cur matches Some(c) && c.1 <= distance_sq(entries[jj].1, x as int, y as int)) by {
                        if mm == m {
                            if jj != j {
                                assert(entries[jj].0 != entries[j as int].0);
                            }
                        }
                    }
                },
                None => {
                    assert(has_id(entries, id@));
                },
            }
            m += 1;
        }
        assert forall|jj: int|
            0 <= jj < entries.len() && shape.covers(#[trigger] entries[jj].1, row as int, col as int)
                && distance_sq(entries[jj].1, x as int, y as int) <= max_sq implies (
            cur matches Some(c) && c.1 <= distance_sq(entries[jj].1, x as int, y as int)) by {
            assert(indexed_at(entries, shape, entries[jj].0, row as int, col as int));
            assert(ids.contains(entries[jj].0));
            let mm = choose|mm: int| 0 <= mm < ids.len() && ids[mm] == entries[jj].0;
        }
        cur
    }

    /// The nearest item to the point within `max_distance`, by an expanding
    /// ring search: rings of cells around the point's cell are scanned
    /// outwards, keeping the item of least distance, until one is found no
    /// farther than the rings scanned so far reach (ring count times cell
    /// size), or the rings pass `max_distance`. The stop is a heuristic: an
    /// item in a farther ring may be closer than the one returned. Nothing
    /// is found from a point outside the grid.
    pub fn find_nearest(&self, x: i32, y: i32, max_distance: u32) -> (res: Option<ItemRecord>)
        requires
            self.wf(),
        ensures
            self@.shape.cell_of(x as int, y as int) is None ==> res is None,
            self@.shape.cell_of(x as int, y as int) is Some ==> exists|r: int|
                #[trigger] self@.is_stop_ring(x as int, y as int, max_distance as int, r)
                    && self@.nearest_after(record_of(res), x as int, y as int, max_distance as int, r),
    {
        let ghost v = self@;
        let ghost entries = v.entries;
        let ghost shape = v.shape;
        let ghost md = max_distance as int;
        let (sr, sc) = match self.grid.get_cell_coords(x, y) {
            None => {
                return None;
            },
            Some(c) => c,
        };
        let cs = self.grid.cell_size as u64;
        let max_r: u64 = if max_distance == 0 {
            0
        } else {
            (max_distance as u64 + cs - 1) / cs
        };
        assert(max_r * cs <= max_distance + cs) by (nonlinear_arith)
            requires
                cs >= 1,
                max_distance == 0 ==> max_r == 0,
                max_distance > 0 ==> max_r == (max_distance + cs - 1) as int / cs as int,
        ;
        assert(max_r <= 0x1_0000_0000) by (nonlinear_arith)
            requires
                cs >= 1,
                max_r * cs <= max_distance + cs,
                max_distance <= 0xffff_ffff,
                max_r >= 0,
        ;
        let mdu = max_distance as u128;
        assert(mdu * mdu <= 0xffff_ffffu128 * 0xffff_ffffu128) by (nonlinear_arith)
            requires
                mdu <= 0xffff_ffffu128,
        ;
        let max_sq = mdu * mdu;
        let rows = self.grid.rows as i64;
        let cols = self.grid.cols as i64;
        proof {
            crate::grid::lemma_end_index_bound(self.grid.bounds.height as int, self.grid.cell_size as int);
            crate::grid::lemma_end_index_bound(self.grid.bounds.width as int, self.grid.cell_size as int);
        }
        let sri = sr as i64;
        let sci = sc as i64;
        let mut best: Option<(usize, u128)> = None;
        let mut r: u64 = 0;
        let ghost mut stop: int = 0;
        loop
            invariant_except_break
                best matches Some(c) ==> reaches(shape, entries[c.0 as int].1, sr as int, sc as int, r - 1),
                forall|jj: int|
                    0 <= jj < entries.len() && reaches(shape, #[trigger] entries[jj].1, sr as int, sc as int, r - 1)
                        && distance_sq(entries[jj].1, x as int, y as int) <= max_sq ==> (best matches Some(c)
                        && c.1 <= distance_sq(entries[jj].1, x as int, y as int)),
                forall|i: int| 0 <= i < r ==> !#[trigger] v.search_stops(x as int, y as int, md, i),
            invariant
                self.wf(),
                v == self@,
                entries == v.entries,
                shape == v.shape,
                md == max_distance,
                shape.cell_of(x as int, y as int) == Some((sr as int, sc as int)),
                sri == sr,
                sci == sc,
                rows == shape.rows,
                cols == shape.cols,
                rows <= 0xffff_ffff,
                cols <= 0xffff_ffff,
                cs == shape.cell_size,
                max_r == v.search_radius(md),
                max_r * cs <= max_distance + cs,
                max_r <= 0x1_0000_0000,
                max_sq == md * md,
                r <= max_r,
                candidate_ok(entries, best, x as int, y as int, max_sq as int),
            ensures
                v.is_stop_ring(x as int, y as int, md, stop),
                candidate_ok(entries, best, x as int, y as int, max_sq as int),
                best is None ==> forall|e: (Seq<char>, Rect)| !#[trigger] v.nearby(e, x as int, y as int, md, stop),
                best matches Some(c) ==> v.nearby(entries[c.0 as int], x as int, y as int, md, stop),
                best matches Some(c) ==> forall|e: (Seq<char>, Rect)|
                    #[trigger] v.nearby(e, x as int, y as int, md, stop) ==> c.1 <= distance_sq(e.1, x as int, y as int),
            decreases max_r - r,
        {
            let ri = r as i64;
            let row_lo: i64 = if sri - ri > 0 { sri - ri } else { 0 };
            let row_hi: i64 = if sri + ri + 1 < rows { sri + ri + 1 } else { rows };
            let col_lo: i64 = if sci - ri > 0 { sci - ri } else { 0 };
            let col_hi: i64 = if sci + ri + 1 < cols { sci + ri + 1 } else { cols };
            proof {
                assert forall|jj: int, rr: int, cc: int|
                    0 <= jj < entries.len() && scanned(rr, cc, sr as int, sc as int, r as int, row_lo as int, 0)
                        && #[trigger] shape.covers(entries[jj].1, rr, cc)
                        && distance_sq(entries[jj].1, x as int, y as int) <= max_sq implies (best matches Some(c)
                        && c.1 <= distance_sq(entries[jj].1, x as int, y as int)) by {
                    lemma_reaches_from_cell(shape, entries[jj].1, sr as int, sc as int, r - 1, rr, cc);
                }
                if let Some(c) = best {
                    assert(reaches(shape, entries[c.0 as int].1, sr as int, sc as int, r as int));
                }
            }
            let mut row = row_lo;
            while row < row_hi
                invariant
                    self.wf(),
                    v == self@,
                    entries == v.entries,
                    shape == v.shape,
                    rows == shape.rows,
                    cols == shape.cols,
                    sri == sr,
                    sci == sc,
                    ri == r,
                    r <= 0x1_0000_0000,
                    rows <= 0xffff_ffff,
                    cols <= 0xffff_ffff,
                    sr < rows,
                    sc < cols,
                    row_lo == vstd::math::max(sri - ri, 0),
                    row_hi == vstd::math::min(sri + ri + 1, rows as int),
                    col_lo == vstd::math::max(sci - ri, 0),
                    col_hi == vstd::math::min(sci + ri + 1, cols as int),
                    row_lo <= row,
                    candidate_ok(entries, best, x as int, y as int, max_sq as int),
                    best matches Some(c) ==> reaches(shape, entries[c.0 as int].1, sr as int, sc as int, r as int),
                    forall|jj: int, rr: int, cc: int|
                        0 <= jj < entries.len() && scanned(rr, cc, sr as int, sc as int, r as int, row as int, 0)
                            && #[trigger] shape.covers(entries[jj].1, rr, cc)
                            && distance_sq(entries[jj].1, x as int, y as int) <= max_sq ==> (best matches Some(c)
                            && c.1 <= distance_sq(entries[jj].1, x as int, y as int)),
                decreases row_hi - row,
            {
                let edge_row = row == sri - ri || row == sri + ri;
                let mut col = col_lo;
                while col < col_hi
                    invariant
                        self.wf(),
                        v == self@,
                        entries == v.entries,
                        shape == v.shape,
                        rows == shape.rows,
                        cols == shape.cols,
                        sri == sr,
                        sci == sc,
                        ri == r,
                        r <= 0x1_0000_0000,
                        rows <= 0xffff_ffff,
                        cols <= 0xffff_ffff,
                        row_lo == vstd::math::max(sri - ri, 0),
                        row_hi == vstd::math::min(sri + ri + 1, rows as int),
                        col_lo == vstd::math::max(sci - ri, 0),
                        col_hi == vstd::math::min(sci + ri + 1, cols as int),
                        row_lo <= row < row_hi,
                        col_lo <= col,
                        edge_row == (row == sri - ri || row == sri + ri),
                        candidate_ok(entries, best, x as int, y as int, max_sq as int),
                        best matches Some(c) ==> reaches(shape, entries[c.0 as int].1, sr as int, sc as int, r as int),
                        forall|jj: int, rr: int, cc: int|
                            0 <= jj < entries.len() && scanned(rr, cc, sr as int, sc as int, r as int, row as int, col as int)
                                && #[trigger] shape.covers(entries[jj].1, rr, cc)
                                && distance_sq(entries[jj].1, x as int, y as int) <= max_sq ==> (best matches Some(c)
                                && c.1 <= distance_sq(entries[jj].1, x as int, y as int)),
                    decreases col_hi - col,
                {
                    let on_ring = edge_row || col == sci - ri || col == sci + ri;
                    let ghost prev = best;
                    if on_ring {
                        best = self.scan_cell(row as usize, col as usize, x, y, max_sq, best);
                        proof {
                            if let Some(c) = best {
                                if best != prev {
                                    lemma_reaches_from_cell(shape, entries[c.0 as int].1, sr as int, sc as int, r as int, row as int, col as int);
                                }
                            }
                        }
                    }
                    let jump = if sci + ri < col_hi {
                        sci + ri
                    } else {
                        col_hi
                    };
                    let next = if !edge_row && col < jump {
                        jump
                    } else {
                        col + 1
                    };
                    proof {
                        assert forall|jj: int, rr: int, cc: int|
                            0 <= jj < entries.len() && scanned(rr, cc, sr as int, sc as int, r as int, row as int, next as int)
                                && #[trigger] shape.covers(entries[jj].1, rr, cc)
                                && distance_sq(entries[jj].1, x as int, y as int) <= max_sq implies (best matches Some(c)
                                && c.1 <= distance_sq(entries[jj].1, x as int, y as int)) by {
                            if !scanned(rr, cc, sr as int, sc as int, r as int, row as int, col as int) {
                                assert(rr == row && cc == col);
                            }
                        }
                    }
                    col = next;
                }
                proof {
                    assert forall|jj: int, rr: int, cc: int|
                        0 <= jj < entries.len() && scanned(rr, cc, sr as int, sc as int, r as int, row + 1, 0)
                            && #[trigger] shape.covers(entries[jj].1, rr, cc)
                            && distance_sq(entries[jj].1, x as int, y as int) <= max_sq implies (best matches Some(c)
                            && c.1 <= distance_sq(entries[jj].1, x as int, y as int)) by {
                        if !scanned(rr, cc, sr as int, sc as int, r as int, row as int, col as int) {
                            assert(false);
                        }
                    }
                }
                row = row + 1;
            }
            proof {
                assert forall|jj: int|
                    0 <= jj < entries.len() && reaches(shape, #[trigger] entries[jj].1, sr as int, sc as int, r as int)
                        && distance_sq(entries[jj].1, x as int, y as int) <= max_sq implies (best matches Some(c)
                        && c.1 <= distance_sq(entries[jj].1, x as int, y as int)) by {
                    lemma_reaches_witness(shape, entries[jj].1, sr as int, sc as int, r as int);
                    let rw = vstd::math::max(shape.row_lo(entries[jj].1), sr - r);
                    let cw = vstd::math::max(shape.col_lo(entries[jj].1), sc - r);
                    assert(shape.covers(entries[jj].1, rw, cw));
                    assert(scanned(rw, cw, sr as int, sc as int, r as int, row as int, 0));
                }
                // The same facts, stated over nearby items.
                assert forall|e: (Seq<char>, Rect)| #[trigger] v.nearby(e, x as int, y as int, md, r as int) implies (
                    best matches Some(c) && c.1 <= distance_sq(e.1, x as int, y as int)) by {
                    let jj = choose|jj: int| 0 <= jj < entries.len() && entries[jj] == e;
                    assert(reaches(shape, entries[jj].1, sr as int, sc as int, r as int));
                }
                if let Some(c) = best {
                    assert(entries.contains(entries[c.0 as int]));
                    assert(v.nearby(entries[c.0 as int], x as int, y as int, md, r as int));
                }
            }
            assert(r * cs <= max_distance + cs) by (nonlinear_arith)
                requires
                    r <= max_r,
                    max_r * cs <= max_distance + cs,
                    cs >= 1,
            ;
            let reach = r as u128 * cs as u128;
            assert(reach * reach <= 0x2_0000_0000u128 * 0x2_0000_0000u128) by (nonlinear_arith)
                requires
                    reach <= 0x2_0000_0000u128,
            ;
            let reach_sq = reach * reach;
            let close_enough = match best {
                Some((_, d)) => d <= reach_sq,
                None => false,
            };
            if close_enough {
                proof {
                    stop = r as int;
                    if let Some(c) = best {
                        assert(v.nearby(entries[c.0 as int], x as int, y as int, md, r as int));
                    }
                    assert(v.search_stops(x as int, y as int, md, r as int));
                }
                break;
            }
            proof {
                if v.search_stops(x as int, y as int, md, r as int) {
                    let e = choose|e: (Seq<char>, Rect)| #[trigger] v.nearby(e, x as int, y as int, md, r as int)
                        && distance_sq(e.1, x as int, y as int) <= (r * shape.cell_size) * (r * shape.cell_size);
                    assert(false);
                }
            }
            if r == max_r {
                proof {
                    stop = r as int;
                }
                break;
            }
            if sri - ri <= 0 && sci - ri <= 0 && sri + ri + 1 >= rows && sci + ri + 1 >= cols {
                // The rings already span the grid: wider ones reach nothing new.
                proof {
                    let p = |i: int| v.search_stops(x as int, y as int, md, i);
                    let k = lemma_first_after(p, r as int, max_r as int);
                    stop = k;
                    assert forall|e: (Seq<char>, Rect)| #[trigger] v.nearby(e, x as int, y as int, md, k)
                        == v.nearby(e, x as int, y as int, md, r as int) by {
                        lemma_reaches_saturated(shape, e.1, sr as int, sc as int, r as int, k);
                    }
                    assert forall|i: int| 0 <= i < k implies !#[trigger] v.search_stops(x as int, y as int, md, i) by {
                        if i > r {
                            assert(!p(i));
                        }
                    }
                }
                break;
            }
            r = r + 1;
        }
        match best {
            Some((j, _)) => Some(self.items[j].duplicate()),
            None => None,
        }
    }

    /// The side of a cell.
    pub fn cell_size(&self) -> (r: u32)
        requires
            self.wf(),
        ensures
            r == self@.shape.cell_size,
    {
        self.grid.cell_size
    }

    /// The universe the grid partitions.
    pub fn bounds(&self) -> (r: Rect)
        ensures
            r == self@.shape.bounds,
    {
        self.grid.bounds
    }
}

/// Writing records with distinct identifiers one after the other into an
/// empty registry yields exactly those records, in order.
pub proof fn lemma_rebuild_preserves_items(s: Seq<(Seq<char>, Rect)>)
    requires
        unique_ids(s),
    ensures
        upsert_all(Seq::empty(), s) == s,
    decreases s.len(),
{
    if s.len() > 0 {
        let p = s.drop_last();
        assert(unique_ids(p)) by {
            assert forall|i: int, j: int| 0 <= i < p.len() && 0 <= j < p.len() && i != j implies p[i].0
                != p[j].0 by {
                assert(p[i] == s[i] && p[j] == s[j]);
            }
        }
        lemma_rebuild_preserves_items(p);
        if has_id(p, s.last().0) {
            let j = choose|j: int| 0 <= j < p.len() && p[j].0 == s.last().0;
            assert(p[j] == s[j]);
            assert(s[j].0 == s[s.len() - 1].0);
        }
        assert(p.push(s.last()) =~= s);
    }
}
} // verus!
