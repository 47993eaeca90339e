use vstd::prelude::*;
use vstd::math::{max, min};
use crate::geometry::Rect;

verus! {

/// Index of the first cell reached by an offset from the grid origin; an
/// offset before the origin starts at cell 0.
pub open spec fn first_index(offset: int, cell: int) -> int {
    if offset < 0 {
        0
    } else {
        offset / cell
    }
}

/// One past the index of the last cell reached by an offset from the grid
/// origin (the offset divided by the cell size, rounded up).
pub open spec fn end_index(offset: int, cell: int) -> int {
    if offset <= 0 {
        0
    } else {
        (offset + cell - 1) / cell
    }
}

/// The geometry of a grid: the universe it partitions, the side of a cell,
/// and the number of rows and columns.
pub struct GridShape {
    pub bounds: Rect,
    pub cell_size: int,
    pub rows: int,
    pub cols: int,
}

impl GridShape {
    /// Rows and columns are the universe's extent divided by the cell size,
    /// rounded up.
    pub open spec fn well_formed(self) -> bool {
        &&& self.cell_size > 0
        &&& self.rows == end_index(self.bounds.height as int, self.cell_size)
        &&& self.cols == end_index(self.bounds.width as int, self.cell_size)
    }

    pub open spec fn row_lo(self, r: Rect) -> int {
        first_index(r.y - self.bounds.y, self.cell_size)
    }

    pub open spec fn row_hi(self, r: Rect) -> int {
        min(end_index(r.y + r.height - self.bounds.y, self.cell_size), self.rows)
    }

    pub open spec fn col_lo(self, r: Rect) -> int {
        first_index(r.x - self.bounds.x, self.cell_size)
    }

    pub open spec fn col_hi(self, r: Rect) -> int {
        min(end_index(r.x + r.width - self.bounds.x, self.cell_size), self.cols)
    }

    /// The cell at `(row, col)` exists and its square meets the rectangle:
    /// the rectangle's membership lies in exactly these cells.
    pub open spec fn covers(self, r: Rect, row: int, col: int) -> bool {
        &&& self.row_lo(r) <= row < self.row_hi(r)
        &&& self.col_lo(r) <= col < self.col_hi(r)
    }

    /// Some cell of the grid meets the rectangle.
    pub open spec fn meets(self, r: Rect) -> bool {
        &&& self.row_lo(r) < self.row_hi(r)
        &&& self.col_lo(r) < self.col_hi(r)
    }

    /// Some cell holds the membership of both rectangles.
    pub open spec fn shares_cell(self, a: Rect, b: Rect) -> bool {
        &&& max(self.row_lo(a), self.row_lo(b)) < min(self.row_hi(a), self.row_hi(b))
        &&& max(self.col_lo(a), self.col_lo(b)) < min(self.col_hi(a), self.col_hi(b))
    }

    /// The cell holding a point: its offset from the origin, floor-divided by
    /// the cell size, when that lands inside the grid.
    pub open spec fn cell_of(self, px: int, py: int) -> Option<(int, int)> {
        let dx = px - self.bounds.x;
        let dy = py - self.bounds.y;
        if 0 <= dx && 0 <= dy && dy / self.cell_size < self.rows && dx / self.cell_size
            < self.cols {
            Some((dy / self.cell_size, dx / self.cell_size))
        } else {
            None
        }
    }
}

/// One cell of the grid: the identifiers of the items whose box meets it.
#[derive(Debug, Clone)]
pub struct GridCell {
    pub elements: Vec<String>,
}

impl GridCell {
    pub open spec fn ids(&self) -> Seq<Seq<char>> {
        self.elements@.map_values(|s: String| s@)
    }

    pub fn new() -> (c: GridCell)
        ensures
            c.ids() == Seq::<Seq<char>>::empty(),
    {
        let c = GridCell { elements: Vec::new() };
        assert(c.ids() =~= Seq::<Seq<char>>::empty());
        c
    }

    pub fn contains(&self, id: &String) -> (r: bool)
        ensures
            r == self.ids().contains(id@),
    {
        let mut i: usize = 0;
        while i < self.elements.len()
            invariant
                i <= self.elements.len(),
                forall|k: int| 0 <= k < i ==> self.ids()[k] != id@,
            decreases self.elements.len() - i,
        {
            if self.elements[i] == *id {
                assert(self.ids()[i as int] == id@);
                return true;
            }
            i += 1;
        }
        false
    }

    /// Adds `id` unless it is already there.
    pub fn insert(&mut self, id: &String)
        requires
            old(self).ids().no_duplicates(),
        ensures
            final(self).ids().no_duplicates(),
            forall|x: Seq<char>|
                #[trigger] final(self).ids().contains(x) <==> (old(self).ids().contains(x) || x
                    == id@),
    {
        if !self.contains(id) {
            let ghost before = self.ids();
            self.elements.push(id.clone());
            assert(self.ids() =~= before.push(id@));
            assert forall|x: Seq<char>| #[trigger] self.ids().contains(x) <==> (before.contains(x)
                || x == id@) by {
                if x == id@ {
                    assert(self.ids()[before.len() as int] == x);
                }
                if before.contains(x) {
                    let k = choose|k: int| 0 <= k < before.len() && before[k] == x;
                    assert(self.ids()[k] == x);
                }
            }
        }
    }

    /// Takes `id` out if it is there.
    pub fn remove(&mut self, id: &String)
        requires
            old(self).ids().no_duplicates(),
        ensures
            final(self).ids().no_duplicates(),
            forall|x: Seq<char>|
                #[trigger] final(self).ids().contains(x) <==> (old(self).ids().contains(x) && x
                    != id@),
    {
        let ghost before = self.ids();
        let mut i: usize = 0;
        while i < self.elements.len()
            invariant
                i <= self.elements.len(),
                self.ids() == before,
                before == old(self).ids(),
                before.no_duplicates(),
                forall|k: int| 0 <= k < i ==> before[k] != id@,
            decreases self.elements.len() - i,
        {
            if self.elements[i] == *id {
                self.elements.remove(i);
                assert(self.ids() =~= before.remove(i as int));
                assert forall|x: Seq<char>| #[trigger] self.ids().contains(x) <==> (
                before.contains(x) && x != id@) by {
                    if self.ids().contains(x) {
                        let k = choose|k: int| 0 <= k < self.ids().len() && self.ids()[k] == x;
                        if k < i {
                            assert(before[k] == x);
                        } else {
                            assert(before[k + 1] == x);
                            assert(before[i as int] == id@);
                        }
                    }
                    if before.contains(x) && x != id@ {
                        let k = choose|k: int| 0 <= k < before.len() && before[k] == x;
                        if k < i {
                            assert(self.ids()[k] == x);
                        } else {
                            assert(k != i);
                            assert(self.ids()[k - 1] == x);
                        }
                    }
                }
                assert forall|a: int, b: int|
                    0 <= a < self.ids().len() && 0 <= b < self.ids().len() && a != b implies
                    self.ids()[a] != self.ids()[b] by {
                    let a2 = if a < i { a } else { a + 1 };
                    let b2 = if b < i { b } else { b + 1 };
                    assert(before[a2] == self.ids()[a] && before[b2] == self.ids()[b]);
                }
                return;
            }
            i += 1;
        }
        assert forall|x: Seq<char>| #[trigger] before.contains(x) implies x != id@ by {
            let k = choose|k: int| 0 <= k < before.len() && before[k] == x;
        }
    }
}

/// Strict row-major order on cell coordinates.
pub open spec fn cell_before(a: (int, int), b: (int, int)) -> bool {
    a.0 < b.0 || (a.0 == b.0 && a.1 < b.1)
}

/// A regular partition of a rectangular universe into square cells, each
/// holding the identifiers of the items whose box meets it.
#[derive(Debug)]
pub struct SpatialGrid {
    pub cell_size: u32,
    pub width: u32,
    pub height: u32,
    pub cols: usize,
    pub rows: usize,
    pub cells: Vec<Vec<GridCell>>,
    pub bounds: Rect,
}

impl SpatialGrid {
    pub open spec fn shape(&self) -> GridShape {
        GridShape {
            bounds: self.bounds,
            cell_size: self.cell_size as int,
            rows: self.rows as int,
            cols: self.cols as int,
        }
    }

    pub open spec fn ids_at(&self, row: int, col: int) -> Seq<Seq<char>> {
        self.cells@[row]@[col].ids()
    }

    pub open spec fn wf(&self) -> bool {
        &&& self.shape().well_formed()
        &&& self.width == self.bounds.width
        &&& self.height == self.bounds.height
        &&& self.cells@.len() == self.rows
        &&& forall|row: int| 0 <= row < self.rows ==> #[trigger] self.cells@[row]@.len() == self.cols
        &&& forall|row: int, col: int|
            0 <= row < self.rows && 0 <= col < self.cols ==> #[trigger] self.ids_at(
                row,
                col,
            ).no_duplicates()
    }

    /// A grid over `bounds` with cells of side `cell_size`, all empty.
    pub fn new(bounds: Rect, cell_size: u32) -> (g: SpatialGrid)
        requires
            cell_size > 0,
        ensures
            g.wf(),
            g.bounds == bounds,
            g.cell_size == cell_size,
            forall|row: int, col: int|
                0 <= row < g.rows && 0 <= col < g.cols ==> #[trigger] g.ids_at(row, col).len()
                    == 0,
    {
        let cols = ceil_cells(bounds.width, cell_size);
        let rows = ceil_cells(bounds.height, cell_size);
        let mut cells: Vec<Vec<GridCell>> = Vec::with_capacity(rows);
        let mut i: usize = 0;
        while i < rows
            invariant
                i <= rows,
                cells@.len() == i,
                forall|row: int| 0 <= row < i ==> #[trigger] cells@[row]@.len() == cols,
                forall|row: int, col: int|
                    0 <= row < i && 0 <= col < cols ==> #[trigger] cells@[row]@[col].ids().len()
                        == 0,
            decreases rows - i,
        {
            let mut line: Vec<GridCell> = Vec::with_capacity(cols);
            let mut j: usize = 0;
            while j < cols
                invariant
                    j <= cols,
                    line@.len() == j,
                    forall|col: int| 0 <= col < j ==> #[trigger] line@[col].ids().len() == 0,
                decreases cols - j,
            {
                line.push(GridCell::new());
                j += 1;
            }
            cells.push(line);
            i += 1;
        }
        let g = SpatialGrid {
            cell_size,
            width: bounds.width,
            height: bounds.height,
            cols,
            rows,
            cells,
            bounds,
        };
        assert forall|row: int, col: int|
            0 <= row < g.rows && 0 <= col < g.cols implies #[trigger] g.ids_at(
            row,
            col,
        ).no_duplicates() by {
            assert(g.ids_at(row, col).len() == 0);
        }
        g
    }

    /// The cell holding the point, if the point lies in the grid.
    pub fn get_cell_coords(&self, x: i32, y: i32) -> (r: Option<(usize, usize)>)
        requires
            self.wf(),
        ensures
            r matches Some(c) ==> self.shape().cell_of(x as int, y as int) == Some(
                (c.0 as int, c.1 as int),
            ),
            r is None ==> self.shape().cell_of(x as int, y as int) is None,
    {
        let dx = x as i64 - self.bounds.x as i64;
        let dy = y as i64 - self.bounds.y as i64;
        if dx < 0 || dy < 0 {
            return None;
        }
        let col = dx as u64 / self.cell_size as u64;
        let row = dy as u64 / self.cell_size as u64;
        if row < self.rows as u64 && col < self.cols as u64 {
            Some((row as usize, col as usize))
        } else {
            None
        }
    }

    /// The bounds `(row_lo, row_hi, col_lo, col_hi)` of the cells that `r`
    /// meets, clipped to the grid.
    fn cell_range(&self, r: &Rect) -> (res: (usize, usize, usize, usize))
        requires
            self.wf(),
        ensures
            res.0 == min(self.shape().row_lo(*r), self.rows as int),
            res.1 == self.shape().row_hi(*r),
            res.2 == min(self.shape().col_lo(*r), self.cols as int),
            res.3 == self.shape().col_hi(*r),
    {
        proof {
            lemma_end_index_bound(self.bounds.height as int, self.cell_size as int);
            lemma_end_index_bound(self.bounds.width as int, self.cell_size as int);
        }
        let rows = axis_range(r.y, r.height, self.bounds.y, self.cell_size, self.rows);
        let cols = axis_range(r.x, r.width, self.bounds.x, self.cell_size, self.cols);
        (rows.0, rows.1, cols.0, cols.1)
    }

    /// Every cell that the box meets, in row-major order.
    pub fn get_intersecting_cells(&self, x: i32, y: i32, width: u32, height: u32) -> (cells: Vec<
        (usize, usize),
    >)
        requires
            self.wf(),
        ensures
            forall|row: int, col: int|
                cells@.contains((row as usize, col as usize)) && 0 <= row && 0 <= col
                    <== self.shape().covers(Rect { x, y, width, height }, row, col),
            forall|k: int|
                0 <= k < cells@.len() ==> self.shape().covers(
                    Rect { x, y, width, height },
                    #[trigger] cells@[k].0 as int,
                    cells@[k].1 as int,
                ),
            forall|a: int, b: int|
                0 <= a < b < cells@.len() ==> cell_before(
                    (#[trigger] cells@[a].0 as int, cells@[a].1 as int),
                    (#[trigger] cells@[b].0 as int, cells@[b].1 as int),
                ),
    {
        let rect = Rect::new(x, y, width, height);
        let (r0, r1, c0, c1) = self.cell_range(&rect);
        let ghost shape = self.shape();
        let mut cells: Vec<(usize, usize)> = Vec::new();
        let mut row = r0;
        while row < r1
            invariant
                r0 <= row,
                r0 == min(shape.row_lo(rect), self.rows as int),
                r1 == shape.row_hi(rect),
                c0 == min(shape.col_lo(rect), self.cols as int),
                c1 == shape.col_hi(rect),
                shape == self.shape(),
                forall|rr: int, cc: int|
                    shape.covers(rect, rr, cc) && rr < row ==> cells@.contains(
                        (rr as usize, cc as usize),
                    ),
                forall|k: int|
                    0 <= k < cells@.len() ==> shape.covers(
                        rect,
                        #[trigger] cells@[k].0 as int,
                        cells@[k].1 as int,
                    ) && cells@[k].0 < row,
                forall|a: int, b: int|
                    0 <= a < b < cells@.len() ==> cell_before(
                        (#[trigger] cells@[a].0 as int, cells@[a].1 as int),
                        (#[trigger] cells@[b].0 as int, cells@[b].1 as int),
                    ),
            decreases r1 - row,
        {
            let mut col = c0;
            while col < c1
                invariant
                    r0 <= row < r1,
                    c0 <= col,
                    r0 == min(shape.row_lo(rect), self.rows as int),
                    r1 == shape.row_hi(rect),
                    c0 == min(shape.col_lo(rect), self.cols as int),
                    c1 == shape.col_hi(rect),
                    shape == self.shape(),
                    forall|rr: int, cc: int|
                        shape.covers(rect, rr, cc) && cell_before((rr, cc), (row as int, col as int))
                            ==> cells@.contains((rr as usize, cc as usize)),
                    forall|k: int|
                        0 <= k < cells@.len() ==> shape.covers(
                            rect,
                            #[trigger] cells@[k].0 as int,
                            cells@[k].1 as int,
                        ) && cell_before(
                            (cells@[k].0 as int, cells@[k].1 as int),
                            (row as int, col as int),
                        ),
                    forall|a: int, b: int|
                        0 <= a < b < cells@.len() ==> cell_before(
                            (#[trigger] cells@[a].0 as int, cells@[a].1 as int),
                            (#[trigger] cells@[b].0 as int, cells@[b].1 as int),
                        ),
                decreases c1 - col,
            {
                let ghost prev = cells@;
                cells.push((row, col));
                assert forall|rr: int, cc: int|
                    shape.covers(rect, rr, cc) && cell_before(
                        (rr, cc),
                        (row as int, col + 1),
                    ) implies cells@.contains((rr as usize, cc as usize)) by {
                    if rr == row && cc == col {
                        assert(cells@[prev.len() as int] == (rr as usize, cc as usize));
                    } else {
                        assert(prev.contains((rr as usize, cc as usize)));
                        let k = choose|k: int|
                            0 <= k < prev.len() && prev[k] == (rr as usize, cc as usize);
                        assert(cells@[k] == prev[k]);
                    }
                }
                col += 1;
            }
            row += 1;
        }
        cells
    }

    /// Adds `id` to the one cell at `(row, col)`.
    fn insert_at(&mut self, row: usize, col: usize, id: &String)
        requires
            old(self).wf(),
            row < old(self).rows,
            col < old(self).cols,
        ensures
            final(self).wf(),
            final(self).shape() == old(self).shape(),
            forall|rr: int, cc: int, x: Seq<char>|
                0 <= rr < final(self).rows && 0 <= cc < final(self).cols ==> (#[trigger] final(self).ids_at(rr, cc).contains(x) <==> (
                    old(self).ids_at(rr, cc).contains(x) || (rr == row && cc == col && x == id@))),
    {
        let ghost pre = *self;
        assert(pre.ids_at(row as int, col as int).no_duplicates());
        self.cells[row][col].insert(id);
        assert forall|rr: int, cc: int|
            0 <= rr < self.rows && 0 <= cc < self.cols && !(rr == row && cc == col) implies
            #[trigger] self.ids_at(rr, cc) == pre.ids_at(rr, cc) by {
            if rr != row {
                assert(self.cells@[rr] == pre.cells@[rr]);
            }
        }
        assert forall|rr: int| 0 <= rr < self.rows implies #[trigger] self.cells@[rr]@.len()
            == self.cols by {
            if rr != row {
                assert(self.cells@[rr] == pre.cells@[rr]);
            }
        }
    }

    /// Takes `id` out of the one cell at `(row, col)`.
    fn remove_at(&mut self, row: usize, col: usize, id: &String)
        requires
            old(self).wf(),
            row < old(self).rows,
            col < old(self).cols,
        ensures
            final(self).wf(),
            final(self).shape() == old(self).shape(),
            forall|rr: int, cc: int, x: Seq<char>|
                0 <= rr < final(self).rows && 0 <= cc < final(self).cols ==> (#[trigger] final(self).ids_at(rr, cc).contains(x) <==> (
                    old(self).ids_at(rr, cc).contains(x) && !(rr == row && cc == col && x == id@))),
    {
        let ghost pre = *self;
        assert(pre.ids_at(row as int, col as int).no_duplicates());
        self.cells[row][col].remove(id);
        assert forall|rr: int, cc: int|
            0 <= rr < self.rows && 0 <= cc < self.cols && !(rr == row && cc == col) implies
            #[trigger] self.ids_at(rr, cc) == pre.ids_at(rr, cc) by {
            if rr != row {
                assert(self.cells@[rr] == pre.cells@[rr]);
            }
        }
        assert forall|rr: int| 0 <= rr < self.rows implies #[trigger] self.cells@[rr]@.len()
            == self.cols by {
            if rr != row {
                assert(self.cells@[rr] == pre.cells@[rr]);
            }
        }
    }

    /// Adds `id` to every cell that `rect` covers.
    pub(crate) fn add_membership(&mut self, id: &String, rect: &Rect)
        requires
            old(self).wf(),
        ensures
            final(self).wf(),
            final(self).shape() == old(self).shape(),
            forall|rr: int, cc: int, x: Seq<char>|
                0 <= rr < final(self).rows && 0 <= cc < final(self).cols ==> (#[trigger] final(self).ids_at(rr, cc).contains(x) <==> (
                    old(self).ids_at(rr, cc).contains(x) || (x == id@ && old(self).shape().covers(*rect, rr, cc)))),
    {
        let ghost pre = *self;
        let ghost shape = self.shape();
        let (r0, r1, c0, c1) = self.cell_range(rect);
        let mut row = r0;
        while row < r1
            invariant
                r0 <= row,
                r0 == min(shape.row_lo(*rect), shape.rows),
                r1 == shape.row_hi(*rect),
                c0 == min(shape.col_lo(*rect), shape.cols),
                c1 == shape.col_hi(*rect),
                self.wf(),
                self.shape() == shape,
                shape == pre.shape(),
                forall|rr: int, cc: int, x: Seq<char>|
                    0 <= rr < self.rows && 0 <= cc < self.cols ==> (#[trigger] self.ids_at(rr, cc).contains(x) <==> (
                        pre.ids_at(rr, cc).contains(x) || (x == id@ && shape.covers(*rect, rr, cc) && rr < row))),
            decreases r1 - row,
        {
            let mut col = c0;
            while col < c1
                invariant
                    r0 <= row < r1,
                    c0 <= col,
                    r0 == min(shape.row_lo(*rect), shape.rows),
                    r1 == shape.row_hi(*rect),
                    c0 == min(shape.col_lo(*rect), shape.cols),
                    c1 == shape.col_hi(*rect),
                    self.wf(),
                    self.shape() == shape,
                    forall|rr: int, cc: int, x: Seq<char>|
                        0 <= rr < self.rows && 0 <= cc < self.cols ==> (#[trigger] self.ids_at(rr, cc).contains(x) <==> (
                            pre.ids_at(rr, cc).contains(x) || (x == id@ && shape.covers(*rect, rr, cc)
                                && cell_before((rr, cc), (row as int, col as int))))),
                decreases c1 - col,
            {
                self.insert_at(row, col, id);
                col += 1;
            }
            row += 1;
        }
    }

    /// Takes `id` out of every cell that `rect` covers.
    pub(crate) fn clear_membership(&mut self, id: &String, rect: &Rect)
        requires
            old(self).wf(),
        ensures
            final(self).wf(),
            final(self).shape() == old(self).shape(),
            forall|rr: int, cc: int, x: Seq<char>|
                0 <= rr < final(self).rows && 0 <= cc < final(self).cols ==> (#[trigger] final(self).ids_at(rr, cc).contains(x) <==> (
                    old(self).ids_at(rr, cc).contains(x) && !(x == id@ && old(self).shape().covers(*rect, rr, cc)))),
    {
        let ghost pre = *self;
        let ghost shape = self.shape();
        let (r0, r1, c0, c1) = self.cell_range(rect);
        let mut row = r0;
        while row < r1
            invariant
                r0 <= row,
                r0 == min(shape.row_lo(*rect), shape.rows),
                r1 == shape.row_hi(*rect),
                c0 == min(shape.col_lo(*rect), shape.cols),
                c1 == shape.col_hi(*rect),
                self.wf(),
                self.shape() == shape,
                shape == pre.shape(),
                forall|rr: int, cc: int, x: Seq<char>|
                    0 <= rr < self.rows && 0 <= cc < self.cols ==> (#[trigger] self.ids_at(rr, cc).contains(x) <==> (
                        pre.ids_at(rr, cc).contains(x) && !(x == id@ && shape.covers(*rect, rr, cc) && rr < row))),
            decreases r1 - row,
        {
            let mut col = c0;
            while col < c1
                invariant
                    r0 <= row < r1,
                    c0 <= col,
                    r0 == min(shape.row_lo(*rect), shape.rows),
                    r1 == shape.row_hi(*rect),
                    c0 == min(shape.col_lo(*rect), shape.cols),
                    c1 == shape.col_hi(*rect),
                    self.wf(),
                    self.shape() == shape,
                    forall|rr: int, cc: int, x: Seq<char>|
                        0 <= rr < self.rows && 0 <= cc < self.cols ==> (#[trigger] self.ids_at(rr, cc).contains(x) <==> (
                            pre.ids_at(rr, cc).contains(x) && !(x == id@ && shape.covers(*rect, rr, cc)
                                && cell_before((rr, cc), (row as int, col as int))))),
                decreases c1 - col,
            {
                self.remove_at(row, col, id);
                col += 1;
            }
            row += 1;
        }
    }

    /// Adds the item to every cell that its box meets; the part of the box
    /// outside the grid is dropped.
    pub fn add_element(&mut self, element_id: &str, x: i32, y: i32, width: u32, height: u32)
        requires
            old(self).wf(),
        ensures
            final(self).wf(),
            final(self).shape() == old(self).shape(),
            forall|rr: int, cc: int, s: Seq<char>|
                0 <= rr < final(self).rows && 0 <= cc < final(self).cols ==> (#[trigger] final(self).ids_at(rr, cc).contains(s) <==> (
                    old(self).ids_at(rr, cc).contains(s) || (s == element_id@
                        && old(self).shape().covers(Rect { x, y, width, height }, rr, cc)))),
    {
        let id = element_id.to_owned();
        self.add_membership(&id, &Rect::new(x, y, width, height));
    }

    /// Takes the item out of every cell of the grid.
    pub fn remove_element(&mut self, element_id: &str)
        requires
            old(self).wf(),
        ensures
            final(self).wf(),
            final(self).shape() == old(self).shape(),
            forall|rr: int, cc: int, s: Seq<char>|
                0 <= rr < final(self).rows && 0 <= cc < final(self).cols ==> (#[trigger] final(self).ids_at(rr, cc).contains(s) <==> (
                    old(self).ids_at(rr, cc).contains(s) && s != element_id@)),
    {
        let id = element_id.to_owned();
        let ghost pre = *self;
        let mut row: usize = 0;
        while row < self.rows
            invariant
                self.wf(),
                self.shape() == pre.shape(),
                forall|rr: int, cc: int, s: Seq<char>|
                    0 <= rr < self.rows && 0 <= cc < self.cols ==> (#[trigger] self.ids_at(rr, cc).contains(s) <==> (
                        pre.ids_at(rr, cc).contains(s) && !(s == id@ && rr < row))),
            decreases self.rows - row,
        {
            let mut col: usize = 0;
            while col < self.cols
                invariant
                    row < self.rows,
                    self.wf(),
                    self.shape() == pre.shape(),
                    forall|rr: int, cc: int, s: Seq<char>|
                        0 <= rr < self.rows && 0 <= cc < self.cols ==> (#[trigger] self.ids_at(rr, cc).contains(s) <==> (
                            pre.ids_at(rr, cc).contains(s) && !(s == id@ && cell_before((rr, cc), (row as int, col as int))))),
                decreases self.cols - col,
            {
                self.remove_at(row, col, &id);
                col += 1;
            }
            row += 1;
        }
    }

    /// Moves the item from the cells of its old box to those of its new one.
    pub fn update_element(
        &mut self,
        element_id: &str,
        old_x: i32,
        old_y: i32,
        old_width: u32,
        old_height: u32,
        new_x: i32,
        new_y: i32,
        new_width: u32,
        new_height: u32,
    )
        requires
            old(self).wf(),
        ensures
            final(self).wf(),
            final(self).shape() == old(self).shape(),
            forall|rr: int, cc: int, s: Seq<char>|
                0 <= rr < final(self).rows && 0 <= cc < final(self).cols ==> (#[trigger] final(self).ids_at(rr, cc).contains(s) <==> (
                    (old(self).ids_at(rr, cc).contains(s) && !(s == element_id@ && old(self).shape().covers(
                        Rect { x: old_x, y: old_y, width: old_width, height: old_height }, rr, cc)))
                    || (s == element_id@ && old(self).shape().covers(
                        Rect { x: new_x, y: new_y, width: new_width, height: new_height }, rr, cc)))),
    {
        let id = element_id.to_owned();
        self.clear_membership(&id, &Rect::new(old_x, old_y, old_width, old_height));
        self.add_membership(&id, &Rect::new(new_x, new_y, new_width, new_height));
    }
}

/// Two rectangles share a cell exactly when some cell covers both.
pub proof fn lemma_common_cell(shape: GridShape, a: Rect, b: Rect, row: int, col: int)
    requires
        shape.covers(a, row, col),
        shape.covers(b, row, col),
    ensures
        shape.shares_cell(a, b),
{
}

/// A cell that two rectangles sharing a cell both cover.
pub proof fn lemma_shared_witness(shape: GridShape, a: Rect, b: Rect)
    requires
        shape.shares_cell(a, b),
    ensures
        shape.covers(a, max(shape.row_lo(a), shape.row_lo(b)), max(shape.col_lo(a), shape.col_lo(b))),
        shape.covers(b, max(shape.row_lo(a), shape.row_lo(b)), max(shape.col_lo(a), shape.col_lo(b))),
{
}

pub(crate) proof fn lemma_end_index_bound(extent: int, cell: int)
    requires
        extent >= 0,
        cell >= 1,
    ensures
        0 <= end_index(extent, cell) <= extent,
{
    if extent > 0 {
        assert((extent + cell - 1) / cell <= extent) by (nonlinear_arith)
            requires
                extent >= 1,
                cell >= 1,
        ;
        assert((extent + cell - 1) / cell >= 0) by (nonlinear_arith)
            requires
                extent >= 1,
                cell >= 1,
        ;
    }
}

/// The number of cells of side `cell` needed to span `extent`.
fn ceil_cells(extent: u32, cell: u32) -> (n: usize)
    requires
        cell > 0,
    ensures
        n == end_index(extent as int, cell as int),
        n <= u32::MAX,
{
    if extent == 0 {
        0
    } else {
        let n = (extent as u64 + cell as u64 - 1) / cell as u64;
        assert(n <= extent) by (nonlinear_arith)
            requires
                n == (extent + cell - 1) / cell as int,
                cell >= 1,
                extent >= 1,
        ;
        n as usize
    }
}

/// The cells `[lo, hi)` that the segment `[start, start + extent]` meets
/// along one axis of a grid with `count` cells from `origin`, clipped to the
/// grid.
fn axis_range(start: i32, extent: u32, origin: i32, cell: u32, count: usize) -> (r: (usize, usize))
    requires
        cell > 0,
        count <= u32::MAX,
    ensures
        r.0 == min(first_index(start - origin, cell as int), count as int),
        r.1 == min(end_index(start + extent - origin, cell as int), count as int),
{
    let start_off: i64 = start as i64 - origin as i64;
    let end_off: i64 = start_off + extent as i64;
    let first: u64 = if start_off < 0 {
        0
    } else {
        start_off as u64 / cell as u64
    };
    let end: u64 = if end_off <= 0 {
        0
    } else {
        (end_off as u64 + cell as u64 - 1) / cell as u64
    };
    let c = count as u64;
    (if first < c {
        first as usize
    } else {
        count
    }, if end < c {
        end as usize
    } else {
        count
    })
}

} // verus!
