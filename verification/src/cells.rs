//! The dense grid of blocks.

use crate::blocks::{Block, MATERIAL_COUNT};
use crate::chemistry::WorldInfo;
use crate::object::{DynamicProperty, Object};
use crate::random::shuffle_cells;
use vstd::prelude::*;

verus! {

/// The size of the whole grid of blocks
pub const GRID_SIZE: usize = 256;

/// Whether the coordinate pair names a cell of the grid.
pub open spec fn in_grid(x: int, y: int) -> bool {
    0 <= x < GRID_SIZE as int && 0 <= y < GRID_SIZE as int
}

/// The position of a cell in row-major order.
pub open spec fn cell_index(x: int, y: int) -> int {
    y * (GRID_SIZE as int) + x
}

/// Whether the coordinate pair names a cell of the grid.
pub fn in_bounds(x: i32, y: i32) -> (r: bool)
    ensures
        r == in_grid(x as int, y as int),
{
    x >= 0 && x < 256 && y >= 0 && y < 256
}

/// The blocks of the grid, one per cell, in row-major order.
pub struct BlockGrid {
    /// The 2d array of blocks
    grid: Vec<Block>,
}

impl View for BlockGrid {
    type V = Seq<Block>;

    closed spec fn view(&self) -> Seq<Block> {
        self.grid@
    }
}

impl Default for BlockGrid {
    fn default() -> (g: Self)
        ensures
            g.wf(),
            forall|i: int| 0 <= i < g@.len() ==> (#[trigger] g@[i]).id == 0,
            forall|i: int| 0 <= i < g@.len() ==> (#[trigger] g@[i]).stored_properties.bits == 0,
    {
        let block = Block::default();
        let mut grid: Vec<Block> = Vec::new();
        let mut i: usize = 0;
        while i < GRID_SIZE * GRID_SIZE
            invariant
                i <= GRID_SIZE * GRID_SIZE,
                grid@.len() == i,
                block.id == 0,
                block.stored_properties.bits == 0,
                forall|j: int| 0 <= j < i ==> grid@[j] == block,
            decreases GRID_SIZE * GRID_SIZE - i,
        {
            grid.push(block);
            i = i + 1;
        }
        BlockGrid { grid }
    }
}

impl BlockGrid {
    /// The grid holds one block per cell.
    pub open spec fn wf(&self) -> bool {
        self@.len() == GRID_SIZE * GRID_SIZE
    }

    /// The block of a cell, or `None` outside the grid.
    pub open spec fn at(&self, x: int, y: int) -> Option<Block> {
        if in_grid(x, y) {
            Some(self@[cell_index(x, y)])
        } else {
            None
        }
    }

    pub fn get(&self, x: i32, y: i32) -> (r: Option<Block>)
        requires
            self.wf(),
        ensures
            r == self.at(x as int, y as int),
    {
        if x >= 0 && x < GRID_SIZE as i32 && y >= 0 && y < GRID_SIZE as i32 {
            Some(self.grid[y as usize * GRID_SIZE + x as usize])
        } else {
            None
        }
    }

    /// Stores a block in a cell of the grid; outside the grid there is no
    /// cell, and nothing changes.
    pub fn set(&mut self, x: i32, y: i32, block: Block)
        requires
            old(self).wf(),
        ensures
            final(self).wf(),
            final(self)@ == (if in_grid(x as int, y as int) {
                old(self)@.update(cell_index(x as int, y as int), block)
            } else {
                old(self)@
            }),
    {
        if x >= 0 && x < GRID_SIZE as i32 && y >= 0 && y < GRID_SIZE as i32 {
            self.grid.set(y as usize * GRID_SIZE + x as usize, block);
        }
    }
}

/// The cells `(x2, y + dy)` inside the grid, for `dy` along `ys`.
pub open spec fn column_cells(x2: int, y: int, ys: Seq<i32>) -> Seq<(i32, i32)>
    decreases ys.len(),
{
    if ys.len() == 0 {
        Seq::empty()
    } else {
        let rest = column_cells(x2, y, ys.drop_last());
        let y2 = y + ys.last();
        if in_grid(x2, y2) {
            rest.push((x2 as i32, y2 as i32))
        } else {
            rest
        }
    }
}

/// The cells `(x + dx, y + dy)` inside the grid, for `dx` along `xs` and,
/// for each of them, `dy` along `ys`.
pub open spec fn neighbor_cells(x: int, y: int, xs: Seq<i32>, ys: Seq<i32>) -> Seq<(i32, i32)>
    decreases xs.len(),
{
    if xs.len() == 0 {
        Seq::empty()
    } else {
        neighbor_cells(x, y, xs.drop_last(), ys) + column_cells(x + xs.last(), y, ys)
    }
}

/// Every neighbor cell lies inside the grid.
pub proof fn lemma_neighbor_cells_in_grid(x: int, y: int, xs: Seq<i32>, ys: Seq<i32>, i: int)
    requires
        0 <= i < neighbor_cells(x, y, xs, ys).len(),
    ensures
        in_grid(neighbor_cells(x, y, xs, ys)[i].0 as int, neighbor_cells(x, y, xs, ys)[i].1 as int),
    decreases xs.len(),
{
    let head = neighbor_cells(x, y, xs.drop_last(), ys);
    if i < head.len() {
        lemma_neighbor_cells_in_grid(x, y, xs.drop_last(), ys, i);
    } else {
        lemma_column_cells_in_grid(x + xs.last(), y, ys, i - head.len());
    }
}

proof fn lemma_column_cells_in_grid(x2: int, y: int, ys: Seq<i32>, i: int)
    requires
        0 <= i < column_cells(x2, y, ys).len(),
    ensures
        in_grid(column_cells(x2, y, ys)[i].0 as int, column_cells(x2, y, ys)[i].1 as int),
    decreases ys.len(),
{
    let rest = column_cells(x2, y, ys.drop_last());
    if i < rest.len() {
        lemma_column_cells_in_grid(x2, y, ys.drop_last(), i);
    }
}

/// The cells around `(x, y)` at the given offsets that lie inside the grid.
pub fn neighbors(x: i32, y: i32, xs: &Vec<i32>, ys: &Vec<i32>) -> (r: Vec<(i32, i32)>)
    ensures
        r@ == neighbor_cells(x as int, y as int, xs@, ys@),
{
    let mut r: Vec<(i32, i32)> = Vec::new();
    let mut i: usize = 0;
    while i < xs.len()
        invariant
            i <= xs.len(),
            r@ == neighbor_cells(x as int, y as int, xs@.take(i as int), ys@),
        decreases xs.len() - i,
    {
        let x2: i64 = x as i64 + xs[i] as i64;
        let ghost before = r@;
        let mut j: usize = 0;
        while j < ys.len()
            invariant
                j <= ys.len(),
                x2 == x + xs@[i as int],
                i < xs.len(),
                r@ == before + column_cells(x2 as int, y as int, ys@.take(j as int)),
            decreases ys.len() - j,
        {
            let y2: i64 = y as i64 + ys[j] as i64;
            proof {
                assert(ys@.take(j + 1).drop_last() == ys@.take(j as int));
            }
            if x2 >= 0 && x2 < 256 && y2 >= 0 && y2 < 256 {
                r.push((x2 as i32, y2 as i32));
            }
            j = j + 1;
        }
        proof {
            assert(ys@.take(ys.len() as int) == ys@);
            assert(xs@.take(i + 1).drop_last() == xs@.take(i as int));
        }
        i = i + 1;
    }
    proof {
        assert(xs@.take(xs.len() as int) == xs@);
    }
    r
}

/// The neighbor cells of [`neighbors`], in a random order.
pub fn neighbors_shuffle(x: i32, y: i32, xs: &Vec<i32>, ys: &Vec<i32>) -> (r: Vec<(i32, i32)>)
    ensures
        r@.to_multiset() == neighbor_cells(x as int, y as int, xs@, ys@).to_multiset(),
{
    let mut r = neighbors(x, y, xs, ys);
    shuffle_cells(&mut r);
    r
}

/// Whether `v` is one of the items of `offsets` added to `base`.
pub open spec fn offset_of(base: int, offsets: Seq<i32>, v: int) -> bool {
    exists|i: int| 0 <= i < offsets.len() && v == base + #[trigger] offsets[i]
}

proof fn lemma_column_cells_contains(x2: int, y: int, ys: Seq<i32>, c: (i32, i32))
    ensures
        column_cells(x2, y, ys).contains(c) <==> (c.0 == x2 && in_grid(c.0 as int, c.1 as int)
            && offset_of(y, ys, c.1 as int)),
    decreases ys.len(),
{
    let cells = column_cells(x2, y, ys);
    if ys.len() > 0 {
        let rest = column_cells(x2, y, ys.drop_last());
        let y2 = y + ys.last();
        lemma_column_cells_contains(x2, y, ys.drop_last(), c);
        if offset_of(y, ys.drop_last(), c.1 as int) {
            let j = choose|j: int|
                0 <= j < ys.drop_last().len() && c.1 as int == y + #[trigger] ys.drop_last()[j];
            assert(ys[j] == ys.drop_last()[j]);
        }
        if offset_of(y, ys, c.1 as int) {
            let j = choose|j: int| 0 <= j < ys.len() && c.1 as int == y + #[trigger] ys[j];
            if j < ys.len() - 1 {
                assert(ys.drop_last()[j] == ys[j]);
            }
        }
        if rest.contains(c) {
            let k = choose|k: int| 0 <= k < rest.len() && rest[k] == c;
            assert(cells[k] == c);
        }
        if cells.contains(c) {
            let k = choose|k: int| 0 <= k < cells.len() && cells[k] == c;
            if k < rest.len() {
                assert(rest[k] == c);
            } else {
                assert(in_grid(x2, y2));
                assert(c == (x2 as i32, y2 as i32));
                assert(c.1 as int == y + ys[ys.len() - 1]);
            }
        }
        if in_grid(x2, y2) {
            assert(cells[rest.len() as int] == (x2 as i32, y2 as i32));
        }
    }
}

/// A cell is listed among the neighbor cells exactly when it lies in the
/// grid and each of its coordinates is the base coordinate plus one of the
/// offsets.
pub proof fn lemma_neighbor_cells_contains(x: int, y: int, xs: Seq<i32>, ys: Seq<i32>, c: (i32, i32))
    ensures
        neighbor_cells(x, y, xs, ys).contains(c) <==> (in_grid(c.0 as int, c.1 as int)
            && offset_of(x, xs, c.0 as int) && offset_of(y, ys, c.1 as int)),
    decreases xs.len(),
{
    let cells = neighbor_cells(x, y, xs, ys);
    if xs.len() > 0 {
        let head = neighbor_cells(x, y, xs.drop_last(), ys);
        let col = column_cells(x + xs.last(), y, ys);
        lemma_neighbor_cells_contains(x, y, xs.drop_last(), ys, c);
        lemma_column_cells_contains(x + xs.last(), y, ys, c);
        if offset_of(x, xs.drop_last(), c.0 as int) {
            let i = choose|i: int|
                0 <= i < xs.drop_last().len() && c.0 as int == x + #[trigger] xs.drop_last()[i];
            assert(xs[i] == xs.drop_last()[i]);
        }
        if offset_of(x, xs, c.0 as int) {
            let i = choose|i: int| 0 <= i < xs.len() && c.0 as int == x + #[trigger] xs[i];
            if i < xs.len() - 1 {
                assert(xs.drop_last()[i] == xs[i]);
            }
        }
        if c.0 as int == x + xs.last() {
            assert(c.0 as int == x + xs[xs.len() - 1]);
        }
        if head.contains(c) {
            let k = choose|k: int| 0 <= k < head.len() && head[k] == c;
            assert(cells[k] == c);
        }
        if col.contains(c) {
            let k = choose|k: int| 0 <= k < col.len() && col[k] == c;
            assert(cells[head.len() + k] == c);
        }
        if cells.contains(c) {
            let k = choose|k: int| 0 <= k < cells.len() && cells[k] == c;
            if k < head.len() {
                assert(head[k] == c);
            } else {
                assert(col[k - head.len()] == c);
            }
        }
    }
}

/// Replaces the block of every cell `(x, y)`, for `x` in `xs` and `y` in
/// `ys`, by what `f` makes of it. Where no coordinate is listed twice, each
/// of these cells holds what `f` made of the block it held before.
pub fn set_block_range_func<F: Fn(Block) -> Block>(info: &mut WorldInfo, xs: &Vec<i32>, ys: &Vec<i32>, f: F)
    requires
        old(info).wf(),
        forall|i: int, j: int|
            0 <= i < xs@.len() && 0 <= j < ys@.len() ==> in_grid(
                #[trigger] xs@[i] as int,
                #[trigger] ys@[j] as int,
            ),
        forall|b: Block| b.id < MATERIAL_COUNT ==> #[trigger] f.requires((b,)),
        forall|b: Block, r: Block| #[trigger] f.ensures((b,), r) ==> r.id < MATERIAL_COUNT,
    ensures
        final(info).wf(),
        forall|cx: i32, cy: i32|
            in_grid(cx as int, cy as int) && !(xs@.contains(cx) && ys@.contains(cy))
                ==> #[trigger] final(info).block(cx as int, cy as int) == old(info).block(
                cx as int,
                cy as int,
            ),
        xs@.no_duplicates() && ys@.no_duplicates() ==> forall|cx: i32, cy: i32|
            xs@.contains(cx) && ys@.contains(cy) ==> f.ensures(
                (old(info).block(cx as int, cy as int)->0,),
                (#[trigger] final(info).block(cx as int, cy as int))->0,
            ),
        forall|o: Object, d: DynamicProperty| #[trigger]
            final(info).level(o, d) == old(info).level(o, d),
        forall|e: u64| #[trigger] final(info).collider(e) == old(info).collider(e),
{
    let ghost distinct = xs@.no_duplicates() && ys@.no_duplicates();
    let mut i: usize = 0;
    while i < xs.len()
        invariant
            i <= xs@.len(),
            info.wf(),
            distinct == (xs@.no_duplicates() && ys@.no_duplicates()),
            forall|a: int, b: int|
                0 <= a < xs@.len() && 0 <= b < ys@.len() ==> in_grid(
                    #[trigger] xs@[a] as int,
                    #[trigger] ys@[b] as int,
                ),
            forall|b: Block| b.id < MATERIAL_COUNT ==> #[trigger] f.requires((b,)),
            forall|b: Block, r: Block| #[trigger] f.ensures((b,), r) ==> r.id < MATERIAL_COUNT,
            forall|cx: i32, cy: i32|
                in_grid(cx as int, cy as int) && !(xs@.take(i as int).contains(cx) && ys@.contains(
                    cy,
                )) ==> #[trigger] info.block(cx as int, cy as int) == old(info).block(
                    cx as int,
                    cy as int,
                ),
            distinct ==> forall|cx: i32, cy: i32|
                xs@.take(i as int).contains(cx) && ys@.contains(cy) ==> f.ensures(
                    (old(info).block(cx as int, cy as int)->0,),
                    (#[trigger] info.block(cx as int, cy as int))->0,
                ),
            forall|o: Object, d: DynamicProperty| #[trigger]
                info.level(o, d) == old(info).level(o, d),
            forall|e: u64| #[trigger] info.collider(e) == old(info).collider(e),
        decreases xs@.len() - i,
    {
        let x = xs[i];
        let ghost row_start = *info;
        let ghost xdone = xs@.take(i as int);
        let ghost xnext = xs@.take(i + 1);
        proof {
            assert(xnext == xdone.push(x));
            assert forall|v: i32| xnext.contains(v) <==> xdone.contains(v) || v == x by {
                if xdone.contains(v) {
                    let a = choose|a: int| 0 <= a < xdone.len() && xdone[a] == v;
                    assert(xnext[a] == v);
                }
                if xnext.contains(v) {
                    let a = choose|a: int| 0 <= a < xnext.len() && xnext[a] == v;
                    if a < i {
                        assert(xdone[a] == v);
                    }
                }
                assert(xnext[i as int] == x);
            }
            if distinct && xdone.contains(x) {
                let a = choose|a: int| 0 <= a < xdone.len() && xdone[a] == x;
                assert(xs@[a] == xs@[i as int]);
            }
        }
        let mut j: usize = 0;
        while j < ys.len()
            invariant
                j <= ys@.len(),
                i < xs@.len(),
                x == xs@[i as int],
                info.wf(),
                row_start.wf(),
                distinct == (xs@.no_duplicates() && ys@.no_duplicates()),
                forall|a: int, b: int|
                    0 <= a < xs@.len() && 0 <= b < ys@.len() ==> in_grid(
                        #[trigger] xs@[a] as int,
                        #[trigger] ys@[b] as int,
                    ),
                forall|b: Block| b.id < MATERIAL_COUNT ==> #[trigger] f.requires((b,)),
                forall|b: Block, r: Block| #[trigger] f.ensures((b,), r) ==> r.id < MATERIAL_COUNT,
                forall|cx: i32, cy: i32|
                    in_grid(cx as int, cy as int) && !(cx == x && ys@.take(j as int).contains(cy))
                        ==> #[trigger] info.block(cx as int, cy as int) == row_start.block(
                        cx as int,
                        cy as int,
                    ),
                distinct ==> forall|cy: i32|
                    ys@.take(j as int).contains(cy) ==> f.ensures(
                        (row_start.block(x as int, cy as int)->0,),
                        (#[trigger] info.block(x as int, cy as int))->0,
                    ),
                forall|o: Object, d: DynamicProperty| #[trigger]
                    info.level(o, d) == row_start.level(o, d),
                forall|e: u64| #[trigger] info.collider(e) == row_start.collider(e),
            decreases ys@.len() - j,
        {
            let y = ys[j];
            let ghost before = *info;
            let ghost ydone = ys@.take(j as int);
            let ghost ynext = ys@.take(j + 1);
            proof {
                assert(in_grid(xs@[i as int] as int, ys@[j as int] as int));
                assert(ynext == ydone.push(y));
                assert forall|v: i32| ynext.contains(v) <==> ydone.contains(v) || v == y by {
                    if ydone.contains(v) {
                        let a = choose|a: int| 0 <= a < ydone.len() && ydone[a] == v;
                        assert(ynext[a] == v);
                    }
                    if ynext.contains(v) {
                        let a = choose|a: int| 0 <= a < ynext.len() && ynext[a] == v;
                        if a < j {
                            assert(ydone[a] == v);
                        }
                    }
                    assert(ynext[j as int] == y);
                }
                if distinct && ydone.contains(y) {
                    let a = choose|a: int| 0 <= a < ydone.len() && ydone[a] == y;
                    assert(ys@[a] == ys@[j as int]);
                }
                info.lemma_ranges();
            }
            let block = info.get_block(x, y).unwrap();
            let changed = f(block);
            info.set_block(x, y, changed);
            proof {
                assert forall|cx: i32, cy: i32|
                    in_grid(cx as int, cy as int) && !(cx == x && ynext.contains(cy)) implies #[trigger]
                    info.block(cx as int, cy as int) == row_start.block(cx as int, cy as int) by {
                    assert(before.block(cx as int, cy as int) == row_start.block(
                        cx as int,
                        cy as int,
                    ));
                }
                if distinct {
                    assert forall|cy: i32| ynext.contains(cy) implies f.ensures(
                        (row_start.block(x as int, cy as int)->0,),
                        (#[trigger] info.block(x as int, cy as int))->0,
                    ) by {
                        if cy == y {
                            assert(before.block(x as int, y as int) == row_start.block(
                                x as int,
                                y as int,
                            ));
                        } else {
                            assert(f.ensures(
                                (row_start.block(x as int, cy as int)->0,),
                                before.block(x as int, cy as int)->0,
                            ));
                        }
                    }
                }
                assert forall|o: Object, d: DynamicProperty| #[trigger]
                    info.level(o, d) == row_start.level(o, d) by {
                    assert(before.level(o, d) == row_start.level(o, d));
                }
                assert forall|e: u64| #[trigger] info.collider(e) == row_start.collider(e) by {
                    assert(before.collider(e) == row_start.collider(e));
                }
            }
            j = j + 1;
        }
        proof {
            assert(ys@.take(ys@.len() as int) == ys@);
            assert forall|cx: i32, cy: i32|
                in_grid(cx as int, cy as int) && !(xnext.contains(cx) && ys@.contains(cy)) implies #[trigger]
                info.block(cx as int, cy as int) == old(info).block(cx as int, cy as int) by {
                assert(row_start.block(cx as int, cy as int) == old(info).block(
                    cx as int,
                    cy as int,
                ));
            }
            if distinct {
                assert forall|cx: i32, cy: i32| xnext.contains(cx) && ys@.contains(cy) implies f.ensures(
                    (old(info).block(cx as int, cy as int)->0,),
                    (#[trigger] info.block(cx as int, cy as int))->0,
                ) by {
                    let a = choose|a: int| 0 <= a < xnext.len() && xnext[a] == cx;
                    let b = choose|b: int| 0 <= b < ys@.len() && ys@[b] == cy;
                    assert(xs@[a] == cx);
                    assert(in_grid(xs@[a] as int, ys@[b] as int));
                    if cx == x {
                        assert(row_start.block(cx as int, cy as int) == old(info).block(
                            cx as int,
                            cy as int,
                        ));
                    } else {
                        assert(info.block(cx as int, cy as int) == row_start.block(
                            cx as int,
                            cy as int,
                        ));
                        assert(f.ensures(
                            (old(info).block(cx as int, cy as int)->0,),
                            row_start.block(cx as int, cy as int)->0,
                        ));
                    }
                }
            }
            assert forall|o: Object, d: DynamicProperty| #[trigger]
                info.level(o, d) == old(info).level(o, d) by {
                assert(row_start.level(o, d) == old(info).level(o, d));
            }
            assert forall|e: u64| #[trigger] info.collider(e) == old(info).collider(e) by {
                assert(row_start.collider(e) == old(info).collider(e));
            }
        }
        i = i + 1;
    }
    proof {
        assert(xs@.take(xs@.len() as int) == xs@);
    }
}

/// Replaces the block of every cell `(x, y)`, for `x` in `xs` and `y` in
/// `ys`, by a fresh block of material `id`.
pub fn set_block_range(info: &mut WorldInfo, xs: &Vec<i32>, ys: &Vec<i32>, id: u16)
    requires
        old(info).wf(),
        id < MATERIAL_COUNT,
        forall|i: int, j: int|
            0 <= i < xs@.len() && 0 <= j < ys@.len() ==> in_grid(
                #[trigger] xs@[i] as int,
                #[trigger] ys@[j] as int,
            ),
    ensures
        final(info).wf(),
        forall|cx: i32, cy: i32|
            in_grid(cx as int, cy as int) && !(xs@.contains(cx) && ys@.contains(cy))
                ==> #[trigger] final(info).block(cx as int, cy as int) == old(info).block(
                cx as int,
                cy as int,
            ),
        forall|cx: i32, cy: i32|
            xs@.contains(cx) && ys@.contains(cy) ==> (#[trigger] final(info).block(
                cx as int,
                cy as int,
            ))->0.id == id && final(info).block(cx as int, cy as int)->0.damage == 0 && final(info).block(cx as int, cy as int)->0.stored_properties.bits == 0,
        forall|o: Object, d: DynamicProperty| #[trigger]
            final(info).level(o, d) == old(info).level(o, d),
        forall|e: u64| #[trigger] final(info).collider(e) == old(info).collider(e),
{
    let mut i: usize = 0;
    while i < xs.len()
        invariant
            i <= xs@.len(),
            info.wf(),
            id < MATERIAL_COUNT,
            forall|a: int, b: int|
                0 <= a < xs@.len() && 0 <= b < ys@.len() ==> in_grid(
                    #[trigger] xs@[a] as int,
                    #[trigger] ys@[b] as int,
                ),
            forall|cx: i32, cy: i32|
                in_grid(cx as int, cy as int) && !(xs@.take(i as int).contains(cx) && ys@.contains(
                    cy,
                )) ==> #[trigger] info.block(cx as int, cy as int) == old(info).block(
                    cx as int,
                    cy as int,
                ),
            forall|cx: i32, cy: i32|
                xs@.take(i as int).contains(cx) && ys@.contains(cy) ==> (#[trigger] info.block(
                    cx as int,
                    cy as int,
                ))->0.id == id && info.block(cx as int, cy as int)->0.damage == 0 && info.block(
                    cx as int,
                    cy as int,
                )->0.stored_properties.bits == 0,
            forall|o: Object, d: DynamicProperty| #[trigger]
                info.level(o, d) == old(info).level(o, d),
            forall|e: u64| #[trigger] info.collider(e) == old(info).collider(e),
        decreases xs@.len() - i,
    {
        let x = xs[i];
        let ghost row_start = *info;
        let ghost xdone = xs@.take(i as int);
        let ghost xnext = xs@.take(i + 1);
        proof {
            assert(xnext == xdone.push(x));
            assert forall|v: i32| xnext.contains(v) <==> xdone.contains(v) || v == x by {
                if xdone.contains(v) {
                    let a = choose|a: int| 0 <= a < xdone.len() && xdone[a] == v;
                    assert(xnext[a] == v);
                }
                if xnext.contains(v) {
                    let a = choose|a: int| 0 <= a < xnext.len() && xnext[a] == v;
                    if a < i {
                        assert(xdone[a] == v);
                    }
                }
                assert(xnext[i as int] == x);
            }
        }
        let mut j: usize = 0;
        while j < ys.len()
            invariant
                j <= ys@.len(),
                i < xs@.len(),
                x == xs@[i as int],
                info.wf(),
                id < MATERIAL_COUNT,
                forall|a: int, b: int|
                    0 <= a < xs@.len() && 0 <= b < ys@.len() ==> in_grid(
                        #[trigger] xs@[a] as int,
                        #[trigger] ys@[b] as int,
                    ),
                forall|cx: i32, cy: i32|
                    in_grid(cx as int, cy as int) && !(cx == x && ys@.take(j as int).contains(cy))
                        ==> #[trigger] info.block(cx as int, cy as int) == row_start.block(
                        cx as int,
                        cy as int,
                    ),
                forall|cy: i32|
                    ys@.take(j as int).contains(cy) ==> (#[trigger] info.block(
                        x as int,
                        cy as int,
                    ))->0.id == id && info.block(x as int, cy as int)->0.damage == 0 && info.block(
                        x as int,
                        cy as int,
                    )->0.stored_properties.bits == 0,
                forall|o: Object, d: DynamicProperty| #[trigger]
                    info.level(o, d) == row_start.level(o, d),
                forall|e: u64| #[trigger] info.collider(e) == row_start.collider(e),
            decreases ys@.len() - j,
        {
            let y = ys[j];
            let ghost before = *info;
            let ghost ydone = ys@.take(j as int);
            let ghost ynext = ys@.take(j + 1);
            proof {
                assert(in_grid(xs@[i as int] as int, ys@[j as int] as int));
                assert(ynext == ydone.push(y));
                assert forall|v: i32| ynext.contains(v) <==> ydone.contains(v) || v == y by {
                    if ydone.contains(v) {
                        let a = choose|a: int| 0 <= a < ydone.len() && ydone[a] == v;
                        assert(ynext[a] == v);
                    }
                    if ynext.contains(v) {
                        let a = choose|a: int| 0 <= a < ynext.len() && ynext[a] == v;
                        if a < j {
                            assert(ydone[a] == v);
                        }
                    }
                    assert(ynext[j as int] == y);
                }
            }
            info.set_block(x, y, Block::new(id));
            proof {
                assert forall|cx: i32, cy: i32|
                    in_grid(cx as int, cy as int) && !(cx == x && ynext.contains(cy)) implies #[trigger]
                    info.block(cx as int, cy as int) == row_start.block(cx as int, cy as int) by {
                    assert(before.block(cx as int, cy as int) == row_start.block(
                        cx as int,
                        cy as int,
                    ));
                }
                assert forall|cy: i32| ynext.contains(cy) implies (#[trigger] info.block(
                    x as int,
                    cy as int,
                ))->0.id == id && info.block(x as int, cy as int)->0.damage == 0 && info.block(
                    x as int,
                    cy as int,
                )->0.stored_properties.bits == 0 by {
                    if cy != y {
                        assert(info.block(x as int, cy as int) == before.block(x as int, cy as int));
                    }
                }
                assert forall|o: Object, d: DynamicProperty| #[trigger]
                    info.level(o, d) == row_start.level(o, d) by {
                    assert(before.level(o, d) == row_start.level(o, d));
                }
                assert forall|e: u64| #[trigger] info.collider(e) == row_start.collider(e) by {
                    assert(before.collider(e) == row_start.collider(e));
                }
            }
            j = j + 1;
        }
        proof {
            assert(ys@.take(ys@.len() as int) == ys@);
            assert forall|cx: i32, cy: i32|
                in_grid(cx as int, cy as int) && !(xnext.contains(cx) && ys@.contains(cy)) implies #[trigger]
                info.block(cx as int, cy as int) == old(info).block(cx as int, cy as int) by {
                assert(row_start.block(cx as int, cy as int) == old(info).block(
                    cx as int,
                    cy as int,
                ));
            }
            assert forall|cx: i32, cy: i32| xnext.contains(cx) && ys@.contains(cy) implies (
            #[trigger] info.block(cx as int, cy as int))->0.id == id && info.block(
                cx as int,
                cy as int,
            )->0.damage == 0 && info.block(cx as int, cy as int)->0.stored_properties.bits == 0 by {
                let a = choose|a: int| 0 <= a < xnext.len() && xnext[a] == cx;
                let b = choose|b: int| 0 <= b < ys@.len() && ys@[b] == cy;
                assert(xs@[a] == cx);
                assert(in_grid(xs@[a] as int, ys@[b] as int));
                if cx != x {
                    assert(info.block(cx as int, cy as int) == row_start.block(cx as int, cy as int));
                }
            }
            assert forall|o: Object, d: DynamicProperty| #[trigger]
                info.level(o, d) == old(info).level(o, d) by {
                assert(row_start.level(o, d) == old(info).level(o, d));
            }
            assert forall|e: u64| #[trigger] info.collider(e) == old(info).collider(e) by {
                assert(row_start.collider(e) == old(info).collider(e));
            }
        }
        i = i + 1;
    }
    proof {
        assert(xs@.take(xs@.len() as int) == xs@);
    }
}

} // verus!
