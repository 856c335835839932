//! Toroidal spatial-hash grid: object indices bucketed by grid cell, with
//! queries over the 3x3 block of cells around a cell, wrapping at the world
//! edges. Turning a position into a raw cell coordinate (a division of the
//! position by the cell extent, rounded down) happens outside the library;
//! the grid reduces raw coordinates modulo the cell counts.
use vstd::prelude::*;
use crate::seq_facts::lemma_concat_contains;

verus! {

/// Abstract state of a [`SpatialHash`]: `cells[x][y]` lists the indices in
/// cell `(x, y)` in insertion order.
#[verifier::ext_equal]
pub struct GridModel {
    pub cell_size: usize,
    pub num_cells_x: usize,
    pub num_cells_y: usize,
    pub world_width: u32,
    pub world_height: u32,
    pub cells: Seq<Seq<Seq<usize>>>,
}

/// Cell coordinate before `c` on a ring of `n` cells.
pub open spec fn ring_prev(c: int, n: int) -> int {
    if c == 0 {
        n - 1
    } else {
        c - 1
    }
}

/// Cell coordinate after `c` on a ring of `n` cells.
pub open spec fn ring_next(c: int, n: int) -> int {
    if c + 1 == n {
        0
    } else {
        c + 1
    }
}

/// On a ring of `n` cells the cell before `c` is `c - 1` and the one after
/// it `c + 1`, both taken modulo `n`: the first cell follows the last. Each
/// undoes the other, and both stay on the ring.
pub proof fn lemma_ring_neighbours(c: int, n: int)
    requires
        0 <= c < n,
    ensures
        ring_prev(c, n) == (c - 1 + n) % n,
        ring_next(c, n) == (c + 1) % n,
        0 <= ring_prev(c, n) < n,
        0 <= ring_next(c, n) < n,
        ring_next(ring_prev(c, n), n) == c,
        ring_prev(ring_next(c, n), n) == c,
{
    if c == 0 {
        assert((c - 1 + n) % n == n - 1) by {
            vstd::arithmetic::div_mod::lemma_small_mod((n - 1) as nat, n as nat);
        }
    } else {
        assert((c - 1 + n) % n == c - 1) by {
            vstd::arithmetic::div_mod::lemma_mod_add_multiples_vanish(c - 1, n);
            vstd::arithmetic::div_mod::lemma_small_mod((c - 1) as nat, n as nat);
        }
    }
    if c + 1 == n {
        vstd::arithmetic::div_mod::lemma_mod_self_0(n);
    } else {
        vstd::arithmetic::div_mod::lemma_small_mod((c + 1) as nat, n as nat);
    }
}

/// Indices `i` whose raw cell reduces to `(cx, cy)`, in increasing order.
pub open spec fn members(raw: Seq<(usize, usize)>, nx: int, ny: int, cx: int, cy: int) -> Seq<usize>
    decreases raw.len(),
{
    if raw.len() == 0 {
        Seq::empty()
    } else {
        let rest = members(raw.drop_last(), nx, ny, cx, cy);
        let last = raw.last();
        if last.0 as int % nx == cx && last.1 as int % ny == cy {
            rest.push((raw.len() - 1) as usize)
        } else {
            rest
        }
    }
}

impl GridModel {
    /// At least one cell in each direction, and a full `num_cells_x` by
    /// `num_cells_y` table of cells.
    pub open spec fn wf(self) -> bool {
        &&& self.cell_size > 0
        &&& self.num_cells_x >= 1
        &&& self.num_cells_y >= 1
        &&& self.cells.len() == self.num_cells_x
        &&& forall|x: int| 0 <= x < self.cells.len() ==> #[trigger] self.cells[x].len() == self.num_cells_y
    }

    /// The cell that raw coordinates `(rx, ry)` fall into.
    pub open spec fn cell_of(self, rx: int, ry: int) -> (int, int) {
        (rx % self.num_cells_x as int, ry % self.num_cells_y as int)
    }

    /// Contents of cell `(x, y)`.
    pub open spec fn cell(self, x: int, y: int) -> Seq<usize> {
        self.cells[x][y]
    }

    /// Contents of the three cells `(x, ring_prev(y))`, `(x, y)`, `(x, ring_next(y))`.
    pub open spec fn column3(self, x: int, y: int) -> Seq<usize> {
        let ny = self.num_cells_y as int;
        self.cell(x, ring_prev(y, ny)) + self.cell(x, y) + self.cell(x, ring_next(y, ny))
    }

    /// Contents of the 3x3 block of cells around `(x, y)` on the torus, column
    /// by column from the left, each column from the top.
    pub open spec fn neighborhood(self, x: int, y: int) -> Seq<usize> {
        let nx = self.num_cells_x as int;
        self.column3(ring_prev(x, nx), y) + self.column3(x, y) + self.column3(ring_next(x, nx), y)
    }

    /// Every cell is empty.
    pub open spec fn is_empty(self) -> bool {
        forall|x: int, y: int|
            0 <= x < self.num_cells_x && 0 <= y < self.num_cells_y ==> #[trigger] self.cell(x, y)
                == Seq::<usize>::empty()
    }

    /// Each cell lists exactly the indices of `raw` that fall into it.
    pub open spec fn holds(self, raw: Seq<(usize, usize)>) -> bool {
        forall|x: int, y: int|
            0 <= x < self.num_cells_x && 0 <= y < self.num_cells_y ==> #[trigger] self.cell(x, y)
                == members(raw, self.num_cells_x as int, self.num_cells_y as int, x, y)
    }
}

/// Design rationale: the spatial hash accelerates "find nearby entities"
/// queries from O(n) to O(1) on average.
#[derive(Clone)]
pub struct SpatialHash {
    /// Size of a cell in pixels (requested).
    pub cell_size: usize,
    /// `cells[x][y]`: indices into the object list, per cell.
    pub cells: Vec<Vec<Vec<usize>>>,
    /// Number of cells in x direction (needed for toroidal wrapping).
    pub num_cells_x: usize,
    /// Number of cells in y direction (needed for toroidal wrapping).
    pub num_cells_y: usize,
    /// World width (`binary32` bit pattern).
    pub world_width: u32,
    /// World height (`binary32` bit pattern).
    pub world_height: u32,
}

/// View of a column of cells.
pub open spec fn column_view(col: Vec<Vec<usize>>) -> Seq<Seq<usize>> {
    col@.map_values(|c: Vec<usize>| c@)
}

impl View for SpatialHash {
    type V = GridModel;

    open spec fn view(&self) -> GridModel {
        GridModel {
            cell_size: self.cell_size,
            num_cells_x: self.num_cells_x,
            num_cells_y: self.num_cells_y,
            world_width: self.world_width,
            world_height: self.world_height,
            cells: self.cells@.map_values(|col: Vec<Vec<usize>>| column_view(col)),
        }
    }
}

fn empty_column(ny: usize) -> (col: Vec<Vec<usize>>)
    ensures
        column_view(col) == Seq::new(ny as nat, |i: int| Seq::<usize>::empty()),
{
    let mut col: Vec<Vec<usize>> = Vec::new();
    let mut i: usize = 0;
    while i < ny
        invariant
            i <= ny,
            column_view(col) == Seq::new(i as nat, |k: int| Seq::<usize>::empty()),
        decreases ny - i,
    {
        let ghost before = col@;
        assert(column_view(col).len() == i);
        assert(before.len() == i);
        let e: Vec<usize> = Vec::new();
        col.push(e);
        assert(col@ == before.push(e));
        i = i + 1;
        assert forall|k: int| 0 <= k < i implies #[trigger] column_view(col)[k] == Seq::<usize>::empty() by {
            if k < i - 1 {
                assert(col@[k] == before[k]);
                assert(column_view(col)[k] == before.map_values(|c: Vec<usize>| c@)[k]);
            }
        }
        assert(column_view(col) =~= Seq::new(i as nat, |k: int| Seq::<usize>::empty()));
    }
    col
}

/// Appends the elements of `src` to `out`.
fn append_indices(out: &mut Vec<usize>, src: &Vec<usize>)
    ensures
        final(out)@ == old(out)@ + src@,
{
    let mut i: usize = 0;
    while i < src.len()
        invariant
            i <= src@.len(),
            out@ == old(out)@ + src@.subrange(0, i as int),
        decreases src@.len() - i,
    {
        out.push(src[i]);
        i = i + 1;
        assert(out@ =~= old(out)@ + src@.subrange(0, i as int));
    }
    assert(src@.subrange(0, i as int) =~= src@);
}

proof fn lemma_members_len(raw: Seq<(usize, usize)>, nx: int, ny: int, cx: int, cy: int)
    ensures
        forall|k: int|
            0 <= k < members(raw, nx, ny, cx, cy).len() ==> (#[trigger] members(raw, nx, ny, cx, cy)[k]
                as int) < raw.len(),
    decreases raw.len(),
{
    if raw.len() > 0 {
        lemma_members_len(raw.drop_last(), nx, ny, cx, cy);
        let rest = members(raw.drop_last(), nx, ny, cx, cy);
        let last = raw.last();
        if last.0 as int % nx == cx && last.1 as int % ny == cy {
            assert forall|k: int| 0 <= k < rest.push((raw.len() - 1) as usize).len() implies (
            #[trigger] rest.push((raw.len() - 1) as usize)[k] as int) < raw.len() by {
                if k < rest.len() {
                    assert(rest.push((raw.len() - 1) as usize)[k] == rest[k]);
                }
            }
        }
    }
}

/// An index is listed in the cell its raw coordinates fall into, and only
/// there.
pub proof fn lemma_members_contains(raw: Seq<(usize, usize)>, nx: int, ny: int, cx: int, cy: int, i: usize)
    requires
        raw.len() <= usize::MAX + 1,
    ensures
        members(raw, nx, ny, cx, cy).contains(i) <==> ((i as int) < raw.len() && raw[i as int].0 as int
            % nx == cx && raw[i as int].1 as int % ny == cy),
    decreases raw.len(),
{
    if raw.len() > 0 {
        let rest = members(raw.drop_last(), nx, ny, cx, cy);
        lemma_members_contains(raw.drop_last(), nx, ny, cx, cy, i);
        lemma_members_len(raw.drop_last(), nx, ny, cx, cy);
        let last = raw.last();
        let n1 = (raw.len() - 1) as usize;
        if last.0 as int % nx == cx && last.1 as int % ny == cy {
            assert(rest.push(n1)[rest.len() as int] == n1);
            if rest.push(n1).contains(i) {
                let k = choose|k: int| 0 <= k < rest.push(n1).len() && rest.push(n1)[k] == i;
                if k < rest.len() {
                    assert(rest[k] == i);
                }
            }
            if rest.contains(i) {
                let k = choose|k: int| 0 <= k < rest.len() && rest[k] == i;
                assert(rest.push(n1)[k] == i);
            }
        } else {
            if rest.contains(i) {
                let k = choose|k: int| 0 <= k < rest.len() && rest[k] == i;
                assert((rest[k] as int) < raw.len() - 1);
            }
        }
    }
}

impl SpatialHash {
    /// Creates an empty grid of `max(num_cells_x, 1)` by
    /// `max(num_cells_y, 1)` cells. The caller derives the counts from the
    /// world size (cells at least `cell_size` wide).
    pub fn new(
        cell_size: usize,
        num_cells_x: usize,
        num_cells_y: usize,
        world_width: u32,
        world_height: u32,
    ) -> (sh: Self)
        requires
            cell_size > 0,
        ensures
            sh@.wf(),
            sh@.is_empty(),
            sh@.cell_size == cell_size,
            sh@.num_cells_x == if num_cells_x == 0 {
                1
            } else {
                num_cells_x
            },
            sh@.num_cells_y == if num_cells_y == 0 {
                1
            } else {
                num_cells_y
            },
            sh@.world_width == world_width,
            sh@.world_height == world_height,
    {
        let nx = if num_cells_x == 0 {
            1
        } else {
            num_cells_x
        };
        let ny = if num_cells_y == 0 {
            1
        } else {
            num_cells_y
        };
        let mut cells: Vec<Vec<Vec<usize>>> = Vec::new();
        let mut x: usize = 0;
        while x < nx
            invariant
                x <= nx,
                cells@.len() == x,
                forall|k: int| 0 <= k < x ==> #[trigger] column_view(cells@[k]) == Seq::new(
                    ny as nat,
                    |i: int| Seq::<usize>::empty(),
                ),
            decreases nx - x,
        {
            let col = empty_column(ny);
            cells.push(col);
            x = x + 1;
        }
        let sh = SpatialHash { cell_size, cells, num_cells_x: nx, num_cells_y: ny, world_width, world_height };
        assert forall|a: int, b: int|
            0 <= a < sh@.num_cells_x && 0 <= b < sh@.num_cells_y implies #[trigger] sh@.cell(a, b)
            == Seq::<usize>::empty() by {
            assert(column_view(cells@[a]) == Seq::new(ny as nat, |i: int| Seq::<usize>::empty()));
        }
        sh
    }

    /// The cell that raw coordinates fall into (each reduced modulo the
    /// number of cells in its direction).
    pub fn hash_cell(&self, raw_x: usize, raw_y: usize) -> (cell: (usize, usize))
        requires
            self@.wf(),
        ensures
            cell.0 as int == self@.cell_of(raw_x as int, raw_y as int).0,
            cell.1 as int == self@.cell_of(raw_x as int, raw_y as int).1,
            cell.0 < self@.num_cells_x,
            cell.1 < self@.num_cells_y,
    {
        (raw_x % self.num_cells_x, raw_y % self.num_cells_y)
    }

    /// Insert an object index at the cell of the given raw coordinates.
    pub fn insert_at(&mut self, idx: usize, raw_x: usize, raw_y: usize)
        requires
            old(self)@.wf(),
        ensures
            final(self)@.wf(),
            ({
                let (cx, cy) = old(self)@.cell_of(raw_x as int, raw_y as int);
                final(self)@ == (GridModel {
                    cells: old(self)@.cells.update(
                        cx,
                        old(self)@.cells[cx].update(cy, old(self)@.cell(cx, cy).push(idx)),
                    ),
                    ..old(self)@
                })
            }),
    {
        let (cx, cy) = self.hash_cell(raw_x, raw_y);
        let ghost before = self@;
        assert(before.cells[cx as int] == column_view(self.cells@[cx as int]));
        let mut col: Vec<Vec<usize>> = Vec::new();
        std::mem::swap(&mut col, &mut self.cells[cx]);
        assert(before.cells[cx as int].len() == before.num_cells_y);
        assert(col@.len() == before.num_cells_y);
        assert(column_view(col)[cy as int] == col@[cy as int]@);
        let mut bucket: Vec<usize> = Vec::new();
        std::mem::swap(&mut bucket, &mut col[cy]);
        bucket.push(idx);
        col[cy] = bucket;
        assert(column_view(col) =~= before.cells[cx as int].update(cy as int, before.cell(cx as int, cy as int).push(idx)));
        self.cells[cx] = col;
        let ghost expected = GridModel {
            cells: before.cells.update(
                cx as int,
                before.cells[cx as int].update(cy as int, before.cell(cx as int, cy as int).push(idx)),
            ),
            ..before
        };
        assert(self@.cells =~= expected.cells);
        assert(self@ =~= expected);
    }

    /// Empties every cell.
    pub fn clear(&mut self)
        requires
            old(self)@.wf(),
        ensures
            final(self)@.wf(),
            final(self)@.is_empty(),
            final(self)@ == (GridModel { cells: final(self)@.cells, ..old(self)@ }),
    {
        let nx = self.num_cells_x;
        let ny = self.num_cells_y;
        let ghost before = self@;
        let mut x: usize = 0;
        while x < nx
            invariant
                before.wf(),
                x <= nx,
                nx == before.num_cells_x,
                ny == before.num_cells_y,
                self@ == (GridModel { cells: self@.cells, ..before }),
                self@.cells.len() == nx,
                forall|k: int| 0 <= k < x ==> #[trigger] self@.cells[k] == Seq::new(
                    ny as nat,
                    |i: int| Seq::<usize>::empty(),
                ),
                forall|k: int| x <= k < nx ==> #[trigger] self@.cells[k] == before.cells[k],
            decreases nx - x,
        {
            let col = empty_column(ny);
            let ghost cells_before = self.cells@;
            self.cells[x] = col;
            assert(self@.cells =~= cells_before.map_values(|c: Vec<Vec<usize>>| column_view(c)).update(
                x as int,
                column_view(col),
            ));
            x = x + 1;
        }
        assert forall|a: int, b: int|
            0 <= a < self@.num_cells_x && 0 <= b < self@.num_cells_y implies #[trigger] self@.cell(a, b)
            == Seq::<usize>::empty() by {
            assert(self@.cells[a] == Seq::new(ny as nat, |i: int| Seq::<usize>::empty()));
        }
    }

    /// Rebuild: clear, then insert index `i` at raw cell `raw_cells[i]`, for
    /// every `i` in order.
    pub fn rebuild_from(&mut self, raw_cells: &Vec<(usize, usize)>)
        requires
            old(self)@.wf(),
        ensures
            final(self)@.wf(),
            final(self)@.holds(raw_cells@),
            final(self)@ == (GridModel { cells: final(self)@.cells, ..old(self)@ }),
    {
        self.clear();
        let ghost base = self@;
        let mut i: usize = 0;
        while i < raw_cells.len()
            invariant
                self@.wf(),
                i <= raw_cells@.len(),
                self@ == (GridModel { cells: self@.cells, ..base }),
                base == (GridModel { cells: base.cells, ..old(self)@ }),
                self@.holds(raw_cells@.subrange(0, i as int)),
            decreases raw_cells@.len() - i,
        {
            let ghost pre = raw_cells@.subrange(0, i + 1);
            assert(pre.drop_last() =~= raw_cells@.subrange(0, i as int));
            assert(pre.last() == raw_cells@[i as int]);
            let (rx, ry) = raw_cells[i];
            let ghost mid = self@;
            self.insert_at(i, rx, ry);
            assert forall|x: int, y: int|
                0 <= x < self@.num_cells_x && 0 <= y < self@.num_cells_y implies #[trigger] self@.cell(x, y)
                == members(pre, self@.num_cells_x as int, self@.num_cells_y as int, x, y) by {
                assert(mid.cell(x, y) == members(
                    raw_cells@.subrange(0, i as int),
                    self@.num_cells_x as int,
                    self@.num_cells_y as int,
                    x,
                    y,
                ));
            }
            i = i + 1;
            assert(self@.holds(pre));
        }
        assert(raw_cells@.subrange(0, i as int) =~= raw_cells@);
        proof {
            if raw_cells@.len() == 0 {
                assert forall|x: int, y: int|
                    0 <= x < self@.num_cells_x && 0 <= y < self@.num_cells_y implies #[trigger] self@.cell(x, y)
                    == members(raw_cells@, self@.num_cells_x as int, self@.num_cells_y as int, x, y) by {}
            }
        }
    }

    /// Fill `out` with the indices in the 3x3 block of cells around the cell
    /// of the raw coordinates, wrapping toroidally; `out` is cleared first
    /// and keeps its capacity.
    pub fn query_into(&self, out: &mut Vec<usize>, raw_x: usize, raw_y: usize)
        requires
            self@.wf(),
        ensures
            ({
                let (cx, cy) = self@.cell_of(raw_x as int, raw_y as int);
                final(out)@ == self@.neighborhood(cx, cy)
            }),
    {
        out.clear();
        let (cx, cy) = self.hash_cell(raw_x, raw_y);
        let nx = self.num_cells_x;
        let ny = self.num_cells_y;
        let xs: [usize; 3] = [if cx == 0 { nx - 1 } else { cx - 1 }, cx, if cx + 1 == nx { 0 } else { cx + 1 }];
        let ys: [usize; 3] = [if cy == 0 { ny - 1 } else { cy - 1 }, cy, if cy + 1 == ny { 0 } else { cy + 1 }];
        let ghost m = self@;
        let mut a: usize = 0;
        while a < 3
            invariant
                m == self@,
                m.wf(),
                a <= 3,
                xs@.len() == 3,
                ys@.len() == 3,
                forall|k: int| 0 <= k < 3 ==> (#[trigger] xs@[k] as int) < m.num_cells_x,
                forall|k: int| 0 <= k < 3 ==> (#[trigger] ys@[k] as int) < m.num_cells_y,
                out@ == if a == 0 {
                    Seq::<usize>::empty()
                } else if a == 1 {
                    m.column3(xs@[0] as int, cy as int)
                } else if a == 2 {
                    m.column3(xs@[0] as int, cy as int) + m.column3(xs@[1] as int, cy as int)
                } else {
                    m.column3(xs@[0] as int, cy as int) + m.column3(xs@[1] as int, cy as int)
                        + m.column3(xs@[2] as int, cy as int)
                },
                ys@[0] as int == ring_prev(cy as int, m.num_cells_y as int),
                ys@[1] == cy,
                ys@[2] as int == ring_next(cy as int, m.num_cells_y as int),
            decreases 3 - a,
        {
            let x = xs[a];
            let ghost start = out@;
            let mut b: usize = 0;
            while b < 3
                invariant
                    m == self@,
                    m.wf(),
                    b <= 3,
                    (x as int) < m.num_cells_x,
                    ys@.len() == 3,
                    forall|k: int| 0 <= k < 3 ==> (#[trigger] ys@[k] as int) < m.num_cells_y,
                    out@ == start + if b == 0 {
                        Seq::<usize>::empty()
                    } else if b == 1 {
                        m.cell(x as int, ys@[0] as int)
                    } else if b == 2 {
                        m.cell(x as int, ys@[0] as int) + m.cell(x as int, ys@[1] as int)
                    } else {
                        m.cell(x as int, ys@[0] as int) + m.cell(x as int, ys@[1] as int) + m.cell(
                            x as int,
                            ys@[2] as int,
                        )
                    },
                decreases 3 - b,
            {
                let y = ys[b];
                assert(m.cells[x as int] == column_view(self.cells@[x as int]));
                assert(column_view(self.cells@[x as int])[y as int] == self.cells@[x as int]@[y as int]@);
                append_indices(out, &self.cells[x][y]);
                b = b + 1;
                assert(out@ =~= start + if b == 1 {
                    m.cell(x as int, ys@[0] as int)
                } else if b == 2 {
                    m.cell(x as int, ys@[0] as int) + m.cell(x as int, ys@[1] as int)
                } else {
                    m.cell(x as int, ys@[0] as int) + m.cell(x as int, ys@[1] as int) + m.cell(
                        x as int,
                        ys@[2] as int,
                    )
                });
            }
            assert(out@ =~= start + m.column3(x as int, cy as int));
            a = a + 1;
        }
        assert(out@ =~= m.neighborhood(cx as int, cy as int));
    }

    /// Query indices of objects in the 3x3 block of cells around the cell of
    /// the raw coordinates.
    pub fn query(&self, raw_x: usize, raw_y: usize) -> (out: Vec<usize>)
        requires
            self@.wf(),
        ensures
            ({
                let (cx, cy) = self@.cell_of(raw_x as int, raw_y as int);
                out@ == self@.neighborhood(cx, cy)
            }),
    {
        let mut out: Vec<usize> = Vec::new();
        self.query_into(&mut out, raw_x, raw_y);
        out
    }
}

/// `c` is one of the three coordinates `ring_prev(center)`, `center`,
/// `ring_next(center)` on a ring of `n` cells.
pub open spec fn near_on_ring(c: int, center: int, n: int) -> bool {
    c == ring_prev(center, n) || c == center || c == ring_next(center, n)
}

/// Central property of the spatial hash: after a rebuild from the raw cells
/// of the objects, a query around cell `(cx, cy)` returns object `i` exactly
/// when the cell of object `i` is one of the 3x3 cells around `(cx, cy)` on
/// the torus.
pub proof fn lemma_query_finds_neighbors(g: GridModel, raw: Seq<(usize, usize)>, cx: int, cy: int, i: usize)
    requires
        g.wf(),
        g.holds(raw),
        raw.len() <= usize::MAX + 1,
        0 <= cx < g.num_cells_x,
        0 <= cy < g.num_cells_y,
    ensures
        g.neighborhood(cx, cy).contains(i) <==> ((i as int) < raw.len() && near_on_ring(
            g.cell_of(raw[i as int].0 as int, raw[i as int].1 as int).0,
            cx,
            g.num_cells_x as int,
        ) && near_on_ring(
            g.cell_of(raw[i as int].0 as int, raw[i as int].1 as int).1,
            cy,
            g.num_cells_y as int,
        )),
{
    let nx = g.num_cells_x as int;
    let ny = g.num_cells_y as int;
    let xs = seq![ring_prev(cx, nx), cx, ring_next(cx, nx)];
    let ys = seq![ring_prev(cy, ny), cy, ring_next(cy, ny)];
    assert forall|a: int, b: int| 0 <= a < 3 && 0 <= b < 3 implies (#[trigger] g.cell(xs[a], ys[b]).contains(i)
        <==> ((i as int) < raw.len() && raw[i as int].0 as int % nx == xs[a] && raw[i as int].1 as int % ny
        == ys[b])) by {
        lemma_members_contains(raw, nx, ny, xs[a], ys[b], i);
    }
    assert forall|x: int| 0 <= x < 3 implies (#[trigger] g.column3(xs[x], cy).contains(i) <==> (
    g.cell(xs[x], ys[0]).contains(i) || g.cell(xs[x], ys[1]).contains(i) || g.cell(xs[x], ys[2]).contains(
        i,
    ))) by {
        lemma_concat_contains(g.cell(xs[x], ys[0]), g.cell(xs[x], ys[1]));
        lemma_concat_contains(g.cell(xs[x], ys[0]) + g.cell(xs[x], ys[1]), g.cell(xs[x], ys[2]));
    }
    lemma_concat_contains(g.column3(xs[0], cy), g.column3(xs[1], cy));
    lemma_concat_contains(g.column3(xs[0], cy) + g.column3(xs[1], cy), g.column3(xs[2], cy));
    assert(g.column3(xs[0], cy).contains(i) == g.column3(ring_prev(cx, nx), cy).contains(i));
    assert(g.column3(xs[2], cy).contains(i) == g.column3(ring_next(cx, nx), cy).contains(i));
}

/// The indices listed for one cell increase, so none is listed twice.
pub proof fn lemma_members_increasing(raw: Seq<(usize, usize)>, nx: int, ny: int, cx: int, cy: int)
    requires
        raw.len() <= usize::MAX + 1,
    ensures
        forall|a: int, b: int|
            0 <= a < b < members(raw, nx, ny, cx, cy).len() ==> members(raw, nx, ny, cx, cy)[a]
                < members(raw, nx, ny, cx, cy)[b],
        members(raw, nx, ny, cx, cy).no_duplicates(),
    decreases raw.len(),
{
    let m = members(raw, nx, ny, cx, cy);
    if raw.len() > 0 {
        lemma_members_increasing(raw.drop_last(), nx, ny, cx, cy);
        lemma_members_len(raw.drop_last(), nx, ny, cx, cy);
        let rest = members(raw.drop_last(), nx, ny, cx, cy);
        let last = raw.last();
        if !(last.0 as int % nx == cx && last.1 as int % ny == cy) {
            assert(m == rest);
        }
        assert forall|a: int, b: int| 0 <= a < b < m.len() implies m[a] < m[b] by {
            if b < rest.len() {
                assert(m[a] == rest[a] && m[b] == rest[b]);
                assert(rest[a] < rest[b]);
            } else {
                assert(m == rest.push((raw.len() - 1) as usize));
                assert(m[a] == rest[a]);
                assert(m[b] == (raw.len() - 1) as usize);
                assert((rest[a] as int) < raw.len() - 1);
            }
        }
    }
}

/// The entries of `s` are indices of `raw` whose cells lie in column `x`
/// (and, for `cell_only`, in row `y` too).
pub open spec fn all_in(s: Seq<usize>, raw: Seq<(usize, usize)>, nx: int, ny: int, x: int, y: int, cell_only: bool) -> bool {
    forall|k: int|
        0 <= k < s.len() ==> (#[trigger] s[k] as int) < raw.len() && raw[s[k] as int].0 as int % nx == x
            && (cell_only ==> raw[s[k] as int].1 as int % ny == y)
}

/// Joining two lists without duplicates and without a common entry gives a
/// list without duplicates.
proof fn lemma_concat_no_duplicates(a: Seq<usize>, b: Seq<usize>)
    requires
        a.no_duplicates(),
        b.no_duplicates(),
        forall|i: int, j: int| 0 <= i < a.len() && 0 <= j < b.len() ==> a[i] != b[j],
    ensures
        (a + b).no_duplicates(),
{
    let c = a + b;
    assert forall|i: int, j: int| 0 <= i < c.len() && 0 <= j < c.len() && i != j implies c[i] != c[j] by {
        if i < a.len() && j < a.len() {
        } else if i >= a.len() && j >= a.len() {
            assert(c[i] == b[i - a.len()] && c[j] == b[j - a.len()]);
        } else if i < a.len() {
            assert(c[j] == b[j - a.len()]);
        } else {
            assert(c[i] == b[i - a.len()]);
        }
    }
}

proof fn lemma_concat_all_in(
    a: Seq<usize>,
    b: Seq<usize>,
    raw: Seq<(usize, usize)>,
    nx: int,
    ny: int,
    x: int,
    y: int,
)
    requires
        all_in(a, raw, nx, ny, x, y, false),
        all_in(b, raw, nx, ny, x, y, false),
    ensures
        all_in(a + b, raw, nx, ny, x, y, false),
{
    assert forall|k: int| 0 <= k < (a + b).len() implies (#[trigger] (a + b)[k] as int) < raw.len()
        && raw[(a + b)[k] as int].0 as int % nx == x by {
        if k < a.len() {
            assert((a + b)[k] == a[k]);
        } else {
            assert((a + b)[k] == b[k - a.len()]);
        }
    }
}

/// Each cell of a rebuilt grid lists its indices once, all falling into it.
proof fn lemma_cell_listing(g: GridModel, raw: Seq<(usize, usize)>, x: int, y: int)
    requires
        g.wf(),
        g.holds(raw),
        raw.len() <= usize::MAX + 1,
        0 <= x < g.num_cells_x,
        0 <= y < g.num_cells_y,
    ensures
        g.cell(x, y).no_duplicates(),
        all_in(g.cell(x, y), raw, g.num_cells_x as int, g.num_cells_y as int, x, y, true),
        all_in(g.cell(x, y), raw, g.num_cells_x as int, g.num_cells_y as int, x, y, false),
{
    let nx = g.num_cells_x as int;
    let ny = g.num_cells_y as int;
    lemma_members_increasing(raw, nx, ny, x, y);
    assert forall|k: int| 0 <= k < g.cell(x, y).len() implies (#[trigger] g.cell(x, y)[k] as int) < raw.len()
        && raw[g.cell(x, y)[k] as int].0 as int % nx == x && (true ==> raw[g.cell(x, y)[k] as int].1 as int
        % ny == y) by {
        let i = g.cell(x, y)[k];
        assert(g.cell(x, y).contains(i));
        lemma_members_contains(raw, nx, ny, x, y, i);
    }
}

/// After a rebuild every index of `raw` is listed exactly once over the
/// whole grid: in the cell its raw coordinates fall into, and in no other.
pub proof fn lemma_rebuild_lists_each_index_once(g: GridModel, raw: Seq<(usize, usize)>, i: usize)
    requires
        g.wf(),
        g.holds(raw),
        raw.len() <= usize::MAX + 1,
        (i as int) < raw.len(),
    ensures
        ({
            let (cx, cy) = g.cell_of(raw[i as int].0 as int, raw[i as int].1 as int);
            g.cell(cx, cy).contains(i)
        }),
        forall|x: int, y: int|
            0 <= x < g.num_cells_x && 0 <= y < g.num_cells_y ==> (#[trigger] g.cell(x, y).contains(i)
                <==> (x, y) == g.cell_of(raw[i as int].0 as int, raw[i as int].1 as int)),
        forall|x: int, y: int|
            0 <= x < g.num_cells_x && 0 <= y < g.num_cells_y ==> #[trigger] g.cell(x, y).no_duplicates(),
{
    let nx = g.num_cells_x as int;
    let ny = g.num_cells_y as int;
    let (cx, cy) = g.cell_of(raw[i as int].0 as int, raw[i as int].1 as int);
    lemma_members_contains(raw, nx, ny, cx, cy, i);
    assert forall|x: int, y: int|
        0 <= x < g.num_cells_x && 0 <= y < g.num_cells_y implies (#[trigger] g.cell(x, y).contains(i)
        <==> (x, y) == g.cell_of(raw[i as int].0 as int, raw[i as int].1 as int)) by {
        lemma_members_contains(raw, nx, ny, x, y, i);
    }
    assert forall|x: int, y: int|
        0 <= x < g.num_cells_x && 0 <= y < g.num_cells_y implies #[trigger] g.cell(x, y).no_duplicates() by {
        lemma_members_increasing(raw, nx, ny, x, y);
    }
}

/// Each column of three cells around row `cy` lists its indices once, all
/// in that column.
proof fn lemma_column_listing(g: GridModel, raw: Seq<(usize, usize)>, x: int, cy: int)
    requires
        g.wf(),
        g.holds(raw),
        raw.len() <= usize::MAX + 1,
        g.num_cells_y >= 3,
        0 <= x < g.num_cells_x,
        0 <= cy < g.num_cells_y,
    ensures
        g.column3(x, cy).no_duplicates(),
        all_in(g.column3(x, cy), raw, g.num_cells_x as int, g.num_cells_y as int, x, 0, false),
{
    let nx = g.num_cells_x as int;
    let ny = g.num_cells_y as int;
    let yp = ring_prev(cy, ny);
    let yn = ring_next(cy, ny);
    lemma_cell_listing(g, raw, x, yp);
    lemma_cell_listing(g, raw, x, cy);
    lemma_cell_listing(g, raw, x, yn);
    let c1 = g.cell(x, yp);
    let c2 = g.cell(x, cy);
    let c3 = g.cell(x, yn);
    assert forall|i: int, j: int| 0 <= i < c1.len() && 0 <= j < c2.len() implies c1[i] != c2[j] by {
        assert(raw[c1[i] as int].1 as int % ny == yp);
        assert(raw[c2[j] as int].1 as int % ny == cy);
    }
    lemma_concat_no_duplicates(c1, c2);
    assert forall|i: int, j: int| 0 <= i < (c1 + c2).len() && 0 <= j < c3.len() implies (c1 + c2)[i]
        != c3[j] by {
        assert(raw[c3[j] as int].1 as int % ny == yn);
        if i < c1.len() {
            assert((c1 + c2)[i] == c1[i]);
            assert(raw[c1[i] as int].1 as int % ny == yp);
        } else {
            assert((c1 + c2)[i] == c2[i - c1.len()]);
            assert(raw[c2[i - c1.len()] as int].1 as int % ny == cy);
        }
    }
    lemma_concat_no_duplicates(c1 + c2, c3);
    lemma_concat_all_in(c1, c2, raw, nx, ny, x, 0);
    lemma_concat_all_in(c1 + c2, c3, raw, nx, ny, x, 0);
}

/// In a grid of at least three cells each way, the nine cells around a
/// cell are distinct, so a query lists no index twice.
pub proof fn lemma_query_no_duplicates(g: GridModel, raw: Seq<(usize, usize)>, cx: int, cy: int)
    requires
        g.wf(),
        g.holds(raw),
        raw.len() <= usize::MAX + 1,
        g.num_cells_x >= 3,
        g.num_cells_y >= 3,
        0 <= cx < g.num_cells_x,
        0 <= cy < g.num_cells_y,
    ensures
        g.neighborhood(cx, cy).no_duplicates(),
{
    let nx = g.num_cells_x as int;
    let ny = g.num_cells_y as int;
    let yp = ring_prev(cy, ny);
    let yn = ring_next(cy, ny);
    let xs = seq![ring_prev(cx, nx), cx, ring_next(cx, nx)];
    lemma_column_listing(g, raw, xs[0], cy);
    lemma_column_listing(g, raw, xs[1], cy);
    lemma_column_listing(g, raw, xs[2], cy);
    let k0 = g.column3(xs[0], cy);
    let k1 = g.column3(xs[1], cy);
    let k2 = g.column3(xs[2], cy);
    assert(k0.no_duplicates() && all_in(k0, raw, nx, ny, xs[0], 0, false));
    assert(k1.no_duplicates() && all_in(k1, raw, nx, ny, xs[1], 0, false));
    assert(k2.no_duplicates() && all_in(k2, raw, nx, ny, xs[2], 0, false));
    assert forall|i: int, j: int| 0 <= i < k0.len() && 0 <= j < k1.len() implies k0[i] != k1[j] by {
        assert(raw[k0[i] as int].0 as int % nx == xs[0]);
        assert(raw[k1[j] as int].0 as int % nx == xs[1]);
    }
    lemma_concat_no_duplicates(k0, k1);
    assert forall|i: int, j: int| 0 <= i < (k0 + k1).len() && 0 <= j < k2.len() implies (k0 + k1)[i]
        != k2[j] by {
        assert(raw[k2[j] as int].0 as int % nx == xs[2]);
        if i < k0.len() {
            assert((k0 + k1)[i] == k0[i]);
            assert(raw[k0[i] as int].0 as int % nx == xs[0]);
        } else {
            assert((k0 + k1)[i] == k1[i - k0.len()]);
            assert(raw[k1[i - k0.len()] as int].0 as int % nx == xs[1]);
        }
    }
    lemma_concat_no_duplicates(k0 + k1, k2);
    assert(g.neighborhood(cx, cy) == k0 + k1 + k2);
}

} // verus!
