//! The rules that evolve the world: gravity and lateral flow of liquids,
//! and the application of spell rules.

use crate::blocks::{
    lemma_with_flag, material_density, material_physics, material_stability, Block, BlockPhysics,
    BlockProperties, MATERIAL_COUNT,
};
use crate::cells::{
    cell_index, in_grid, lemma_neighbor_cells_contains, lemma_neighbor_cells_in_grid, neighbor_cells,
    neighbors, neighbors_shuffle, offset_of, GRID_SIZE,
};
use crate::chemistry::WorldInfo;
use crate::spells::{
    bag_weight, effect_ok, result_targets, spell_effects, spell_relation, Rate, Spell, SpellEffect,
    SpellRule, SpellSelector, SpellTarget,
};
use crate::relation::weight;
use crate::storage::{lists_entries, StorageManager, WEIGHT_MAX};
use crate::object::{DynamicProperty, Object, Property, StaticProperty, LEVEL_ONE};
use crate::random::random_u32;
use vstd::prelude::*;

verus! {

/// A block with its powder-stable flag cleared.
pub open spec fn unsettled(b: Block) -> Block {
    Block {
        stored_properties: b.stored_properties.with(BlockProperties::powder_stable(), false),
        ..b
    }
}

/// A block with its powder-stable flag set.
pub open spec fn settled(b: Block) -> Block {
    Block {
        stored_properties: b.stored_properties.with(BlockProperties::powder_stable(), true),
        ..b
    }
}

/// A block with its moved-this-step flag set.
pub open spec fn moved(b: Block) -> Block {
    Block {
        stored_properties: b.stored_properties.with(BlockProperties::moved_this_step(), true),
        ..b
    }
}

/// Whether two cells touch or are the same cell.
pub open spec fn near(x: int, y: int, x2: int, y2: int) -> bool {
    -1 <= x2 - x <= 1 && -1 <= y2 - y <= 1
}

/// Whether two worlds hold the same entities with the same bounds.
pub open spec fn same_entities(pre: WorldInfo, post: WorldInfo) -> bool {
    &&& forall|e: u64| #[trigger] post.collider(e) == pre.collider(e)
    &&& post.entities() == pre.entities()
}

/// Whether two worlds hold the same stored scalars.
pub open spec fn same_levels(pre: WorldInfo, post: WorldInfo) -> bool {
    forall|o: Object, d: DynamicProperty| #[trigger] post.level(o, d) == pre.level(o, d)
}

/// Whether two worlds hold the same blocks.
pub open spec fn same_blocks(pre: WorldInfo, post: WorldInfo) -> bool {
    forall|x: int, y: int| #[trigger] post.block(x, y) == pre.block(x, y)
}

/// Whether `post` keeps what `pre` had marked changed, has every cell
/// marked whose block differs from the one in `pre`, and has nothing newly
/// marked but cells of the grid.
pub open spec fn changes_noted(pre: WorldInfo, post: WorldInfo) -> bool {
    &&& forall|o: Object| pre.changed().contains(o) ==> post.changed().contains(o)
    &&& forall|x: i32, y: i32|
        in_grid(x as int, y as int) && #[trigger] post.block(x as int, y as int) != pre.block(
            x as int,
            y as int,
        ) ==> post.changed().contains(Object::Block(x, y))
    &&& forall|o: Object|
        post.changed().contains(o) && !pre.changed().contains(o) ==> (o matches Object::Block(x, y)
            && in_grid(x as int, y as int))
}

/// The block of the cell `(x2, y2)` after the liquid blocks at and around
/// `(x, y)` were unsettled, whatever their material.
pub open spec fn after_unsettling(b: Block, x: int, y: int, x2: int, y2: int) -> Block {
    if near(x, y, x2, y2) && material_physics(b.id) == BlockPhysics::Liquid {
        unsettled(b)
    } else {
        b
    }
}

/// Unsettling changes nothing but the powder-stable flag, and that only of
/// a liquid at or around the cell: such a block ends without the flag, and
/// every other block stays as it is.
pub proof fn lemma_after_unsettling(b: Block, x: int, y: int, x2: int, y2: int)
    ensures
        after_unsettling(b, x, y, x2, y2).id == b.id,
        after_unsettling(b, x, y, x2, y2).color_seed == b.color_seed,
        after_unsettling(b, x, y, x2, y2).damage == b.damage,
        after_unsettling(b, x, y, x2, y2).stored_properties.has(BlockProperties::moved_this_step())
            == b.stored_properties.has(BlockProperties::moved_this_step()),
        after_unsettling(b, x, y, x2, y2).stored_properties.has(
            BlockProperties::changed_this_step(),
        ) == b.stored_properties.has(BlockProperties::changed_this_step()),
        near(x, y, x2, y2) && material_physics(b.id) == BlockPhysics::Liquid ==> !after_unsettling(
            b,
            x,
            y,
            x2,
            y2,
        ).stored_properties.has(BlockProperties::powder_stable()),
        !(near(x, y, x2, y2) && material_physics(b.id) == BlockPhysics::Liquid)
            ==> after_unsettling(b, x, y, x2, y2) == b,
{
    lemma_with_flag(
        b.stored_properties,
        BlockProperties::powder_stable(),
        BlockProperties::powder_stable(),
        false,
    );
    lemma_with_flag(
        b.stored_properties,
        BlockProperties::powder_stable(),
        BlockProperties::moved_this_step(),
        false,
    );
    lemma_with_flag(
        b.stored_properties,
        BlockProperties::powder_stable(),
        BlockProperties::changed_this_step(),
        false,
    );
}

fn unit_offsets() -> (v: Vec<i32>)
    ensures
        v@ == seq![-1i32, 0i32, 1i32],
{
    let mut v: Vec<i32> = Vec::new();
    v.push(-1);
    v.push(0);
    v.push(1);
    assert(v@ =~= seq![-1i32, 0i32, 1i32]);
    v
}

proof fn lemma_unit_offsets(base: int, v: int)
    ensures
        offset_of(base, seq![-1i32, 0i32, 1i32], v) <==> -1 <= v - base <= 1,
{
    let offs = seq![-1i32, 0i32, 1i32];
    if v - base == -1 {
        assert(v == base + offs[0]);
    }
    if v - base == 0 {
        assert(v == base + offs[1]);
    }
    if v - base == 1 {
        assert(v == base + offs[2]);
    }
}

proof fn lemma_unsettled_twice(b: Block)
    ensures
        unsettled(unsettled(b)) == unsettled(b),
        unsettled(b).id == b.id,
{
    let bits = b.stored_properties.bits;
    assert((bits & !2u32) & !2u32 == bits & !2u32) by (bit_vector);
}

/// Unsettles the liquid blocks at and around a cell: each loses its
/// powder-stable flag, whatever its material. `id` is the material of the
/// block that moved; it does not limit which blocks are unsettled.
pub fn mark_unstable(info: &mut WorldInfo, x: i32, y: i32, id: u16)
    requires
        old(info).wf(),
    ensures
        final(info).wf(),
        forall|x2: i32, y2: i32|
            in_grid(x2 as int, y2 as int) ==> #[trigger] final(info).block(x2 as int, y2 as int)
                == Some(
                after_unsettling(
                    old(info).block(x2 as int, y2 as int)->0,
                    x as int,
                    y as int,
                    x2 as int,
                    y2 as int,
                ),
            ),
        same_levels(*old(info), *final(info)),
        same_entities(*old(info), *final(info)),
        changes_noted(*old(info), *final(info)),
{
    let offsets = unit_offsets();
    let cells = neighbors(x, y, &offsets, &offsets);
    let mut i: usize = 0;
    proof {
        info.lemma_ranges();
    }
    while i < cells.len()
        invariant
            i <= cells@.len(),
            info.wf(),
            old(info).wf(),
            cells@ == neighbor_cells(x as int, y as int, seq![-1i32, 0i32, 1i32], seq![-1i32, 0i32, 1i32]),
            forall|x2: i32, y2: i32|
                in_grid(x2 as int, y2 as int) ==> #[trigger] info.block(x2 as int, y2 as int)
                    == Some(
                    if cells@.take(i as int).contains((x2, y2)) {
                        after_unsettling(
                            old(info).block(x2 as int, y2 as int)->0,
                            x as int,
                            y as int,
                            x2 as int,
                            y2 as int,
                        )
                    } else {
                        old(info).block(x2 as int, y2 as int)->0
                    },
                ),
            same_levels(*old(info), *info),
            same_entities(*old(info), *info),
            changes_noted(*old(info), *info),
        decreases cells@.len() - i,
    {
        let (x3, y3) = cells[i];
        let ghost before = *info;
        let ghost done = cells@.take(i as int);
        let ghost next = cells@.take(i + 1);
        proof {
            lemma_neighbor_cells_in_grid(
                x as int,
                y as int,
                seq![-1i32, 0i32, 1i32],
                seq![-1i32, 0i32, 1i32],
                i as int,
            );
            lemma_neighbor_cells_contains(
                x as int,
                y as int,
                seq![-1i32, 0i32, 1i32],
                seq![-1i32, 0i32, 1i32],
                (x3, y3),
            );
            lemma_unit_offsets(x as int, x3 as int);
            lemma_unit_offsets(y as int, y3 as int);
            assert(cells@.contains((x3, y3)));
            assert(next == done.push((x3, y3)));
            assert forall|c: (i32, i32)| next.contains(c) <==> done.contains(c) || c == (x3, y3) by {
                if done.contains(c) {
                    let j = choose|j: int| 0 <= j < done.len() && done[j] == c;
                    assert(next[j] == c);
                }
                if next.contains(c) {
                    let j = choose|j: int| 0 <= j < next.len() && next[j] == c;
                    if j < i {
                        assert(done[j] == c);
                    }
                }
                assert(next[i as int] == (x3, y3));
            }
            old(info).lemma_ranges();
            assert(old(info).block(x3 as int, y3 as int) is Some);
            lemma_unsettled_twice(old(info).block(x3 as int, y3 as int)->0);
        }
        match info.get_block(x3, y3) {
            Some(b) => {
                let mut block3 = b;
                let liquid = match block3.data().physics {
                    BlockPhysics::Liquid => true,
                    _ => false,
                };
                if liquid {
                    block3.set(BlockProperties::powder_stable(), false);
                    info.set_block(x3, y3, block3);
                }
            },
            None => {},
        }
        proof {
            assert forall|x2: i32, y2: i32| in_grid(x2 as int, y2 as int) implies #[trigger]
                info.block(x2 as int, y2 as int) == Some(
                if next.contains((x2, y2)) {
                    after_unsettling(
                        old(info).block(x2 as int, y2 as int)->0,
                        x as int,
                        y as int,
                        x2 as int,
                        y2 as int,
                    )
                } else {
                    old(info).block(x2 as int, y2 as int)->0
                },
            ) by {
                assert(before.block(x2 as int, y2 as int) == Some(
                    if done.contains((x2, y2)) {
                        after_unsettling(
                            old(info).block(x2 as int, y2 as int)->0,
                            x as int,
                            y as int,
                            x2 as int,
                            y2 as int,
                        )
                    } else {
                        old(info).block(x2 as int, y2 as int)->0
                    },
                ));
                assert(next.contains((x2, y2)) <==> done.contains((x2, y2)) || (x2, y2) == (x3, y3));
            }
            assert forall|o: Object, d: DynamicProperty| #[trigger]
                info.level(o, d) == old(info).level(o, d) by {
                assert(before.level(o, d) == old(info).level(o, d));
            }
            assert forall|e: u64| #[trigger] info.collider(e) == old(info).collider(e) by {
                assert(before.collider(e) == old(info).collider(e));
            }
            assert forall|x2: i32, y2: i32|
                in_grid(x2 as int, y2 as int) && #[trigger] info.block(x2 as int, y2 as int)
                    != old(info).block(x2 as int, y2 as int) implies info.changed().contains(
                Object::Block(x2, y2),
            ) by {
                if before.block(x2 as int, y2 as int) != old(info).block(x2 as int, y2 as int) {
                    assert(before.changed().contains(Object::Block(x2, y2)));
                }
            }
        }
        i = i + 1;
    }
    proof {
        assert(cells@.take(cells@.len() as int) == cells@);
        old(info).lemma_ranges();
        assert forall|x2: i32, y2: i32| in_grid(x2 as int, y2 as int) implies #[trigger]
            info.block(x2 as int, y2 as int) == Some(
            after_unsettling(
                old(info).block(x2 as int, y2 as int)->0,
                x as int,
                y as int,
                x2 as int,
                y2 as int,
            ),
        ) by {
            lemma_neighbor_cells_contains(
                x as int,
                y as int,
                seq![-1i32, 0i32, 1i32],
                seq![-1i32, 0i32, 1i32],
                (x2, y2),
            );
            lemma_unit_offsets(x as int, x2 as int);
            lemma_unit_offsets(y as int, y2 as int);
        }
    }
}

/// Exchanging two items of a sequence keeps the items and how often each
/// occurs.
pub proof fn lemma_swap_census(s: Seq<u16>, i: int, j: int)
    requires
        0 <= i < s.len(),
        0 <= j < s.len(),
    ensures
        s.update(i, s[j]).update(j, s[i]).to_multiset() == s.to_multiset(),
{
    if i == j {
        assert(s.update(i, s[j]).update(j, s[i]) =~= s);
    } else {
        let t = s.update(i, s[j]);
        vstd::seq_lib::to_multiset_update(s, i, s[j]);
        vstd::seq_lib::to_multiset_update(t, j, s[i]);
        vstd::seq_lib::to_multiset_contains(s, s[i]);
        vstd::seq_lib::to_multiset_contains(s, s[j]);
        assert(s.contains(s[i]));
        assert(s.contains(s[j]));
        assert(t[j] == s[j]);
        let m = s.to_multiset();
        assert(m.insert(s[j]).remove(s[i]).insert(s[i]).remove(s[j]) =~= m);
    }
}

/// The block that a swap stores for the block that made way: marked moved
/// unless its material is inert.
pub open spec fn displaced(b: Block) -> Block {
    if material_physics(b.id) != BlockPhysics::Inert {
        moved(b)
    } else {
        b
    }
}

/// The block of cell `(cx, cy)` once the blocks of `(x, y)` and `(x2, y2)`
/// have changed places.
pub open spec fn staged(pre: WorldInfo, x: int, y: int, x2: int, y2: int, cx: int, cy: int) -> Block {
    if cx == x && cy == y {
        displaced(pre.block(x2, y2)->0)
    } else if cx == x2 && cy == y2 {
        moved(pre.block(x, y)->0)
    } else {
        pre.block(cx, cy)->0
    }
}

/// Whether `post` is `pre` with the stored scalars of two objects
/// exchanged.
pub open spec fn levels_swapped(pre: WorldInfo, post: WorldInfo, a: Object, b: Object) -> bool {
    &&& forall|d: DynamicProperty| #[trigger] post.level(a, d) == pre.level(b, d)
    &&& forall|d: DynamicProperty| #[trigger] post.level(b, d) == pre.level(a, d)
    &&& forall|o: Object, d: DynamicProperty|
        o != a && o != b ==> #[trigger] post.level(o, d) == pre.level(o, d)
}

/// Whether `post` is `pre` after the blocks of `(x, y)` and `(x2, y2)`
/// changed places as [`swap_cells`] does it.
pub open spec fn swapped(pre: WorldInfo, post: WorldInfo, x: int, y: int, x2: int, y2: int) -> bool {
    &&& post.wf()
    &&& forall|cx: i32, cy: i32|
        in_grid(cx as int, cy as int) ==> #[trigger] post.block(cx as int, cy as int) == Some(
            after_unsettling(
                staged(pre, x, y, x2, y2, cx as int, cy as int),
                x,
                y,
                cx as int,
                cy as int,
            ),
        )
    &&& levels_swapped(pre, post, Object::Block(x as i32, y as i32), Object::Block(x2 as i32, y2 as i32))
    &&& same_entities(pre, post)
    &&& changes_noted(pre, post)
    &&& post.materials().to_multiset() == pre.materials().to_multiset()
}

/// Moves the block of `(x, y)` to `(x2, y2)` and the block there to
/// `(x, y)`. The moving block is marked moved, the other one too unless its
/// material is inert; the stored scalars of the two cells change places with
/// their occupants; the liquid blocks at and around `(x, y)` are unsettled,
/// whatever their material. No block is created or destroyed.
pub fn swap_cells(info: &mut WorldInfo, x: i32, y: i32, x2: i32, y2: i32)
    requires
        old(info).wf(),
        in_grid(x as int, y as int),
        in_grid(x2 as int, y2 as int),
        x != x2 || y != y2,
    ensures
        swapped(*old(info), *final(info), x as int, y as int, x2 as int, y2 as int),
{
    proof {
        info.lemma_ranges();
    }
    let mut block = info.get_block(x, y).unwrap();
    let mut block2 = info.get_block(x2, y2).unwrap();
    block.set(BlockProperties::moved_this_step(), true);
    let inert = match block2.data().physics {
        BlockPhysics::Inert => true,
        _ => false,
    };
    if !inert {
        block2.set(BlockProperties::moved_this_step(), true);
    }
    info.set_block(x, y, block2);
    let ghost first = *info;
    info.set_block(x2, y2, block);
    let ghost second = *info;
    info.swap_properties(Object::Block(x, y), Object::Block(x2, y2));
    let ghost third = *info;
    mark_unstable(info, x, y, block.id);
    proof {
        third.lemma_ranges();
        assert forall|cx: i32, cy: i32| in_grid(cx as int, cy as int) implies #[trigger]
            third.block(cx as int, cy as int) == Some(
            staged(*old(info), x as int, y as int, x2 as int, y2 as int, cx as int, cy as int),
        ) by {
            assert(third.block(cx as int, cy as int) == second.block(cx as int, cy as int));
            if cx != x2 || cy != y2 {
                assert(second.block(cx as int, cy as int) == first.block(cx as int, cy as int));
                if cx != x || cy != y {
                    assert(first.block(cx as int, cy as int) == old(info).block(
                        cx as int,
                        cy as int,
                    ));
                }
            }
        }
        assert forall|cx: i32, cy: i32| in_grid(cx as int, cy as int) implies #[trigger]
            info.block(cx as int, cy as int) == Some(
            after_unsettling(
                staged(*old(info), x as int, y as int, x2 as int, y2 as int, cx as int, cy as int),
                x as int,
                y as int,
                cx as int,
                cy as int,
            ),
        ) by {
            assert(third.block(cx as int, cy as int) == Some(
                staged(*old(info), x as int, y as int, x2 as int, y2 as int, cx as int, cy as int),
            ));
        }
        assert forall|o: Object, d: DynamicProperty|
            #[trigger] info.level(o, d) == third.level(o, d) by {}
        assert forall|o: Object, d: DynamicProperty|
            #[trigger] second.level(o, d) == old(info).level(o, d) by {
            assert(first.level(o, d) == old(info).level(o, d));
        }
        assert forall|e: u64| #[trigger] info.collider(e) == old(info).collider(e) by {
            assert(third.collider(e) == second.collider(e));
            assert(second.collider(e) == first.collider(e));
            assert(first.collider(e) == old(info).collider(e));
        }
        assert forall|o: Object| old(info).changed().contains(o) implies info.changed().contains(
            o,
        ) by {
            assert(first.changed().contains(o));
            assert(second.changed().contains(o));
            assert(third.changed().contains(o));
        }
        assert forall|cx: i32, cy: i32|
            in_grid(cx as int, cy as int) && #[trigger] info.block(cx as int, cy as int) != old(info).block(cx as int, cy as int) implies info.changed().contains(Object::Block(cx, cy)) by {
            if third.block(cx as int, cy as int) != old(info).block(cx as int, cy as int) {
                if cx == x2 && cy == y2 {
                    assert(second.changed().contains(Object::Block(cx, cy)));
                } else {
                    assert(cx == x && cy == y);
                    assert(first.changed().contains(Object::Block(cx, cy)));
                    assert(second.changed().contains(Object::Block(cx, cy)));
                }
                assert(third.changed().contains(Object::Block(cx, cy)));
            }
        }
        // the material ids of the two cells have changed places
        let before = old(info).materials();
        let after = info.materials();
        let i = cell_index(x as int, y as int);
        let j = cell_index(x2 as int, y2 as int);
        assert(before.len() == GRID_SIZE * GRID_SIZE);
        assert forall|k: int| 0 <= k < after.len() implies after[k] == before.update(
            i,
            before[j],
        ).update(j, before[i])[k] by {
            let cx = (k % (GRID_SIZE as int)) as i32;
            let cy = (k / (GRID_SIZE as int)) as i32;
            assert(in_grid(cx as int, cy as int));
            assert(cell_index(cx as int, cy as int) == k);
            let st = staged(
                *old(info),
                x as int,
                y as int,
                x2 as int,
                y2 as int,
                cx as int,
                cy as int,
            );
            assert(info.block(cx as int, cy as int) == Some(
                after_unsettling(
                    st,
                    x as int,
                    y as int,
                    cx as int,
                    cy as int,
                ),
            ));
            assert(before[i] == old(info).block(x as int, y as int)->0.id);
            assert(before[j] == old(info).block(x2 as int, y2 as int)->0.id);
        }
        assert(after =~= before.update(i, before[j]).update(j, before[i]));
        lemma_swap_census(before, i, j);
    }
}

/// The direction in which a block of a material falls: down, or up for a
/// material of negative density.
pub open spec fn fall_direction(mover: u16) -> int {
    if material_density(mover) >= 0 {
        -1
    } else {
        1
    }
}

/// Whether a step index plus a draw, read as a fraction of 2^32, is more
/// than twice a difference of densities, given in hundredths.
pub open spec fn exceeds(step: int, draw: u32, desire: int) -> bool {
    (step * 0x1_0000_0000 + draw) * 100 > 2 * desire * 0x1_0000_0000
}

/// Whether a block of material `mover` that started at `(x, y)` and has
/// fallen `step` cells falls one cell more: the next cell is in the grid,
/// its block is lighter, and the draw does not exceed the threshold.
pub open spec fn can_fall(info: WorldInfo, x: int, y: int, mover: u16, step: int, draw: u32) -> bool {
    let down = fall_direction(mover);
    let y2 = y + down * (step + 1);
    let desire = down * (material_density(info.block(x, y2)->0.id) - material_density(mover));
    in_grid(x, y2) && desire > 0 && !exceeds(step, draw, desire)
}

/// How many cells a block falls from step `step` on, at most five in all,
/// one draw per step.
pub open spec fn fall_distance(info: WorldInfo, x: int, y: int, mover: u16, draws: Seq<u32>, step: int) -> int
    decreases 5 - step,
{
    if step < 0 || step >= 5 || step >= draws.len() || !can_fall(
        info,
        x,
        y,
        mover,
        step,
        draws[step],
    ) {
        0
    } else {
        1 + fall_distance(info, x, y, mover, draws, step + 1)
    }
}

/// Whether gravity may move the block of a cell: the cell is in the grid
/// and its block is a liquid that has not moved this step.
pub open spec fn may_fall(info: WorldInfo, x: int, y: int) -> bool {
    in_grid(x, y) && !info.block(x, y)->0.stored_properties.has(
        BlockProperties::moved_this_step(),
    ) && material_physics(info.block(x, y)->0.id) == BlockPhysics::Liquid
}

/// The cell whose occupant is at `(cx, cy)` after the block of `(x, y)`
/// fell `k` cells in direction `down`: the cells it passed hold the
/// occupant of the next cell, and the cell it reached holds the block
/// itself.
pub open spec fn origin(x: int, y: int, down: int, k: int, cx: int, cy: int) -> (int, int) {
    let j = (cy - y) * down;
    if cx == x && 0 <= j < k {
        (x, cy + down)
    } else if cx == x && j == k {
        (x, y)
    } else {
        (cx, cy)
    }
}

/// Whether `post` is `pre` after the block of `(x, y)` fell `k` cells in
/// direction `down`: the material of each cell and its stored scalars are
/// those of the cell whose occupant came there.
pub open spec fn fallen(pre: WorldInfo, post: WorldInfo, x: int, y: int, down: int, k: int) -> bool {
    &&& forall|cx: i32, cy: i32|
        in_grid(cx as int, cy as int) ==> (#[trigger] post.block(cx as int, cy as int))->0.id
            == pre.block(
            origin(x, y, down, k, cx as int, cy as int).0,
            origin(x, y, down, k, cx as int, cy as int).1,
        )->0.id
    &&& forall|cx: i32, cy: i32, d: DynamicProperty|
        in_grid(cx as int, cy as int) ==> #[trigger] post.level(Object::Block(cx, cy), d)
            == pre.level(
            Object::Block(
                origin(x, y, down, k, cx as int, cy as int).0 as i32,
                origin(x, y, down, k, cx as int, cy as int).1 as i32,
            ),
            d,
        )
    &&& forall|o: Object, d: DynamicProperty|
        !(o matches Object::Block(cx, cy) && in_grid(cx as int, cy as int))
            ==> #[trigger] post.level(o, d) == pre.level(o, d)
}

/// Whether `post` is `pre` after the block of `(x, y)` fell `k` cells in
/// direction `down`, one cell at a time: each time it changed places with
/// the block of the next cell as [`swapped`] says.
pub open spec fn fell_by_swaps(pre: WorldInfo, post: WorldInfo, x: int, y: int, down: int, k: int) -> bool
    decreases k,
{
    if k <= 0 {
        post == pre
    } else {
        exists|mid: WorldInfo|
            fell_by_swaps(pre, mid, x, y, down, k - 1) && mid.wf() && #[trigger] swapped(
                mid,
                post,
                x,
                y + down * (k - 1),
                x,
                y + down * k,
            )
    }
}

/// What one gravity pass on a cell does, given its draws: the block falls
/// [`fall_distance`] cells if gravity may move it, and nothing changes
/// otherwise. No block is created or destroyed.
pub open spec fn gravity_applied(pre: WorldInfo, post: WorldInfo, x: int, y: int, draws: Seq<u32>) -> bool {
    let mover = pre.block(x, y)->0.id;
    let k = if may_fall(pre, x, y) {
        fall_distance(pre, x, y, mover, draws, 0)
    } else {
        0
    };
    &&& post.wf()
    &&& fell_by_swaps(pre, post, x, y, fall_direction(mover), k)
    &&& fallen(pre, post, x, y, fall_direction(mover), k)
    &&& post.materials().to_multiset() == pre.materials().to_multiset()
    &&& same_entities(pre, post)
    &&& changes_noted(pre, post)
    &&& k == 0 ==> post == pre
    &&& k > 0 ==> post.block(x, y + fall_direction(mover) * k)->0.stored_properties.has(
        BlockProperties::moved_this_step(),
    )
}

/// Whether the step index plus the draw exceeds twice the desire.
fn draw_exceeds(step: u32, draw: u32, desire: i32) -> (r: bool)
    requires
        step < 5,
        0 < desire <= 1000,
    ensures
        r == exceeds(step as int, draw, desire as int),
{
    let left: u64 = (step as u64 * 0x1_0000_0000 + draw as u64) * 100;
    let right: u64 = 2 * (desire as u64) * 0x1_0000_0000;
    left > right
}

proof fn lemma_density_range(id: u16)
    ensures
        0 <= material_density(id) <= 100,
{
}

/// One gravity pass on a cell with the given draws: a liquid block that has
/// not moved this step falls up to five cells, one draw per cell, past
/// blocks that are lighter than it.
pub fn gravity_fall(info: &mut WorldInfo, x: i32, y: i32, draws: &Vec<u32>)
    requires
        old(info).wf(),
    ensures
        gravity_applied(*old(info), *final(info), x as int, y as int, draws@),
{
    proof {
        info.lemma_ranges();
    }
    let block = match info.get_block(x, y) {
        Some(b) => b,
        None => {
            return ;
        },
    };
    let block_data = block.data();
    let liquid = match block_data.physics {
        BlockPhysics::Liquid => true,
        _ => false,
    };
    if block.get(BlockProperties::moved_this_step()) || !liquid {
        return ;
    }
    let down: i32 = if block_data.density >= 0 {
        -1
    } else {
        1
    };
    let ghost mover = block.id;
    let ghost total = fall_distance(*old(info), x as int, y as int, mover, draws@, 0);
    let mut yc: i32 = y;
    let mut i: u32 = 0;
    let mut going = true;
    proof {
        lemma_density_range(mover);
    }
    while going && i < 5
        invariant
            0 <= i <= 5,
            old(info).wf(),
            info.wf(),
            in_grid(x as int, y as int),
            mover == old(info).block(x as int, y as int)->0.id,
            mover < MATERIAL_COUNT,
            down == fall_direction(mover),
            down == -1,
            block_data.density == material_density(mover),
            yc == y + down * i,
            in_grid(x as int, yc as int),
            info.block(x as int, yc as int)->0.id == mover,
            going ==> total == i + fall_distance(*old(info), x as int, y as int, mover, draws@, i as int),
            !going ==> total == i,
            fallen(*old(info), *info, x as int, y as int, down as int, i as int),
            fell_by_swaps(*old(info), *info, x as int, y as int, down as int, i as int),
            info.materials().to_multiset() == old(info).materials().to_multiset(),
            same_entities(*old(info), *info),
            changes_noted(*old(info), *info),
            i == 0 ==> *info == *old(info),
            i > 0 ==> info.block(x as int, yc as int)->0.stored_properties.has(
                BlockProperties::moved_this_step(),
            ),
        decreases (if going { 1int } else { 0int }), 5 - i,
    {
        let ghost before = *info;
        proof {
            before.lemma_ranges();
            old(info).lemma_ranges();
        }
        if (i as usize) >= draws.len() {
            going = false;
        } else {
            let y2 = yc + down;
            match info.get_block(x, y2) {
                None => {
                    going = false;
                },
                Some(block2) => {
                    let block2_data = block2.data();
                    proof {
                        lemma_density_range(block2.id);
                        assert(origin(x as int, y as int, down as int, i as int, x as int, y2 as int)
                            == (x as int, y2 as int));
                        assert(before.block(x as int, y2 as int)->0.id == old(info).block(
                            x as int,
                            y2 as int,
                        )->0.id);
                    }
                    let fall_desire = down * (block2_data.density - block_data.density);
                    if fall_desire <= 0 || draw_exceeds(i, draws[i as usize], fall_desire) {
                        going = false;
                    } else {
                        swap_cells(info, x, yc, x, y2);
                        proof {
                            assert(before.wf());
                            assert(swapped(
                                before,
                                *info,
                                x as int,
                                y + down * ((i + 1) - 1),
                                x as int,
                                y + down * (i + 1),
                            ));
                            assert(fell_by_swaps(
                                *old(info),
                                before,
                                x as int,
                                y as int,
                                down as int,
                                (i + 1) - 1,
                            ));
                            assert(fell_by_swaps(
                                *old(info),
                                *info,
                                x as int,
                                y as int,
                                down as int,
                                i + 1,
                            ));
                            lemma_fall_step(
                                *old(info),
                                before,
                                *info,
                                x as int,
                                y as int,
                                down as int,
                                i as int,
                            );
                            let b = before.block(x as int, yc as int)->0;
                            lemma_with_flag(
                                b.stored_properties,
                                BlockProperties::moved_this_step(),
                                BlockProperties::moved_this_step(),
                                true,
                            );
                            lemma_with_flag(
                                moved(b).stored_properties,
                                BlockProperties::powder_stable(),
                                BlockProperties::moved_this_step(),
                                false,
                            );
                            assert(staged(
                                before,
                                x as int,
                                yc as int,
                                x as int,
                                y2 as int,
                                x as int,
                                y2 as int,
                            ) == moved(b));
                        }
                        yc = y2;
                        i = i + 1;
                    }
                },
            }
        }
    }
}

/// One more cell fallen: if `mid` is `pre` after a fall of `i` cells and
/// `post` is `mid` with the occupants of the cell reached and of the next
/// cell exchanged, then `post` is `pre` after a fall of `i + 1` cells.
proof fn lemma_fall_step(pre: WorldInfo, mid: WorldInfo, post: WorldInfo, x: int, y: int, down: int, i: int)
    requires
        down == 1 || down == -1,
        0 <= i,
        in_grid(x, y),
        in_grid(x, y + down * i),
        in_grid(x, y + down * (i + 1)),
        fallen(pre, mid, x, y, down, i),
        forall|cx: i32, cy: i32|
            in_grid(cx as int, cy as int) ==> (#[trigger] post.block(cx as int, cy as int))->0.id
                == (if cx == x && cy == y + down * i {
                mid.block(x, y + down * (i + 1))->0.id
            } else if cx == x && cy == y + down * (i + 1) {
                mid.block(x, y + down * i)->0.id
            } else {
                mid.block(cx as int, cy as int)->0.id
            }),
        levels_swapped(
            mid,
            post,
            Object::Block(x as i32, (y + down * i) as i32),
            Object::Block(x as i32, (y + down * (i + 1)) as i32),
        ),
    ensures
        fallen(pre, post, x, y, down, i + 1),
{
    let here = Object::Block(x as i32, (y + down * i) as i32);
    let there = Object::Block(x as i32, (y + down * (i + 1)) as i32);
    assert forall|cx: i32, cy: i32| in_grid(cx as int, cy as int) implies (#[trigger] post.block(
        cx as int,
        cy as int,
    ))->0.id == pre.block(
        origin(x, y, down, i + 1, cx as int, cy as int).0,
        origin(x, y, down, i + 1, cx as int, cy as int).1,
    )->0.id by {
        let j = (cy - y) * down;
        assert(mid.block(cx as int, cy as int)->0.id == pre.block(
            origin(x, y, down, i, cx as int, cy as int).0,
            origin(x, y, down, i, cx as int, cy as int).1,
        )->0.id);
        let hy = (y + down * i) as i32;
        let ty = (y + down * (i + 1)) as i32;
        assert(mid.block(x, hy as int)->0.id == pre.block(
            origin(x, y, down, i, x, hy as int).0,
            origin(x, y, down, i, x, hy as int).1,
        )->0.id);
        assert(mid.block(x, ty as int)->0.id == pre.block(
            origin(x, y, down, i, x, ty as int).0,
            origin(x, y, down, i, x, ty as int).1,
        )->0.id);
        assert((hy - y) * down == i) by (nonlinear_arith)
            requires
                hy == y + down * i,
                down == 1 || down == -1,
        ;
        assert((ty - y) * down == i + 1) by (nonlinear_arith)
            requires
                ty == y + down * (i + 1),
                down == 1 || down == -1,
        ;
        if cx == x {
            assert(j == i <==> cy == hy) by (nonlinear_arith)
                requires
                    j == (cy - y) * down,
                    hy == y + down * i,
                    down == 1 || down == -1,
            ;
            assert(j == i + 1 <==> cy == ty) by (nonlinear_arith)
                requires
                    j == (cy - y) * down,
                    ty == y + down * (i + 1),
                    down == 1 || down == -1,
            ;
        }
    }
    assert forall|cx: i32, cy: i32, d: DynamicProperty|
        in_grid(cx as int, cy as int) implies #[trigger] post.level(Object::Block(cx, cy), d)
        == pre.level(
        Object::Block(
            origin(x, y, down, i + 1, cx as int, cy as int).0 as i32,
            origin(x, y, down, i + 1, cx as int, cy as int).1 as i32,
        ),
        d,
    ) by {
        let j = (cy - y) * down;
        let hy = (y + down * i) as i32;
        let ty = (y + down * (i + 1)) as i32;
        assert(mid.level(Object::Block(cx, cy), d) == pre.level(
            Object::Block(
                origin(x, y, down, i, cx as int, cy as int).0 as i32,
                origin(x, y, down, i, cx as int, cy as int).1 as i32,
            ),
            d,
        ));
        assert(mid.level(Object::Block(x as i32, hy), d) == pre.level(
            Object::Block(
                origin(x, y, down, i, x, hy as int).0 as i32,
                origin(x, y, down, i, x, hy as int).1 as i32,
            ),
            d,
        ));
        assert(mid.level(Object::Block(x as i32, ty), d) == pre.level(
            Object::Block(
                origin(x, y, down, i, x, ty as int).0 as i32,
                origin(x, y, down, i, x, ty as int).1 as i32,
            ),
            d,
        ));
        assert((hy - y) * down == i) by (nonlinear_arith)
            requires
                hy == y + down * i,
                down == 1 || down == -1,
        ;
        assert((ty - y) * down == i + 1) by (nonlinear_arith)
            requires
                ty == y + down * (i + 1),
                down == 1 || down == -1,
        ;
        assert(post.level(here, d) == mid.level(there, d));
        assert(post.level(there, d) == mid.level(here, d));
        if cx == x {
            assert(j == i <==> cy == hy) by (nonlinear_arith)
                requires
                    j == (cy - y) * down,
                    hy == y + down * i,
                    down == 1 || down == -1,
            ;
            assert(j == i + 1 <==> cy == ty) by (nonlinear_arith)
                requires
                    j == (cy - y) * down,
                    ty == y + down * (i + 1),
                    down == 1 || down == -1,
            ;
        }
        if Object::Block(cx, cy) != here && Object::Block(cx, cy) != there {
            assert(post.level(Object::Block(cx, cy), d) == mid.level(Object::Block(cx, cy), d));
        }
    }
    assert forall|o: Object, d: DynamicProperty|
        !(o matches Object::Block(cx, cy) && in_grid(cx as int, cy as int)) implies #[trigger]
        post.level(o, d) == pre.level(o, d) by {
        assert(mid.level(o, d) == pre.level(o, d));
        assert(o != here && o != there);
    }
}

/// Whether a draw, read as a fraction of 2^32, is below a chance out of a
/// hundred.
pub open spec fn settles(draw: u32, stability: int) -> bool {
    draw * 100 < stability * 0x1_0000_0000
}

/// Whether a difference of densities, in hundredths, is at most a draw,
/// read as a fraction of 2^32, in size.
pub open spec fn too_close(advantage: int, draw: u32) -> bool {
    (if advantage < 0 {
        -advantage
    } else {
        advantage
    }) * 0x1_0000_0000 <= draw * 100
}

/// Whether a liquid of material `mover` stays where it is rather than
/// change places with the block `b2` beside it: `b2` has moved this step,
/// or `b2` is not lighter and not inert, or the densities are too close for
/// the draw.
pub open spec fn flow_blocked(mover: u16, b2: Block, draw: u32) -> bool {
    let advantage = material_density(mover) - material_density(b2.id);
    b2.stored_properties.has(BlockProperties::moved_this_step()) || (advantage <= 0
        && material_physics(b2.id) != BlockPhysics::Inert) || too_close(advantage, draw)
}

/// Whether the liquid at `(x, y)` changes places with the cell at position
/// `i` of `order`: that cell is another cell of the grid, a draw is there
/// for it, and the flow is not blocked.
pub open spec fn flows_to(info: WorldInfo, x: int, y: int, order: Seq<(i32, i32)>, draws: Seq<u32>, i: int) -> bool {
    &&& 0 <= i < order.len()
    &&& i < draws.len()
    &&& in_grid(order[i].0 as int, order[i].1 as int)
    &&& (order[i].0 != x || order[i].1 != y)
    &&& !flow_blocked(
        info.block(x, y)->0.id,
        info.block(order[i].0 as int, order[i].1 as int)->0,
        draws[i],
    )
}

/// The first position of `order`, from `from` on, to which the liquid
/// flows; the length of `order` if there is none.
pub open spec fn first_open(info: WorldInfo, x: int, y: int, order: Seq<(i32, i32)>, draws: Seq<u32>, from: int) -> int
    decreases order.len() - from,
{
    if from < 0 || from >= order.len() {
        order.len() as int
    } else if flows_to(info, x, y, order, draws, from) {
        from
    } else {
        first_open(info, x, y, order, draws, from + 1)
    }
}

/// Whether `post` is `pre` with the block of one cell replaced.
pub open spec fn block_replaced(pre: WorldInfo, post: WorldInfo, x: int, y: int, b: Block) -> bool {
    &&& post.wf()
    &&& post.block(x, y) == Some(b)
    &&& forall|cx: int, cy: int|
        (cx != x || cy != y) ==> #[trigger] post.block(cx, cy) == pre.block(cx, cy)
    &&& same_levels(pre, post)
    &&& same_entities(pre, post)
    &&& changes_noted(pre, post)
}

/// What one liquid-flow pass on a cell does, given its draws and the order
/// in which to try the cells beside it. A block that is no liquid stays. A
/// liquid settles if the settle draw is below its material's stability: it
/// gets the powder-stable flag. A settled liquid stays. An unsettled liquid
/// changes places with the first cell of the order to which it flows, if
/// there is one.
pub open spec fn liquid_applied(
    pre: WorldInfo,
    post: WorldInfo,
    x: int,
    y: int,
    settle_draw: u32,
    order: Seq<(i32, i32)>,
    draws: Seq<u32>,
) -> bool {
    let b = pre.block(x, y)->0;
    if !in_grid(x, y) || material_physics(b.id) != BlockPhysics::Liquid {
        post == pre
    } else if settles(settle_draw, material_stability(b.id)) {
        block_replaced(pre, post, x, y, settled(b))
    } else if b.stored_properties.has(BlockProperties::powder_stable()) {
        post == pre
    } else {
        let i = first_open(pre, x, y, order, draws, 0);
        if i >= order.len() {
            post == pre
        } else {
            swapped(pre, post, x, y, order[i].0 as int, order[i].1 as int)
        }
    }
}

fn draw_settles(draw: u32, stability: u32) -> (r: bool)
    requires
        stability <= 100,
    ensures
        r == settles(draw, stability as int),
{
    (draw as u64) * 100 < (stability as u64) * 0x1_0000_0000
}

fn draw_too_close(advantage: i32, draw: u32) -> (r: bool)
    requires
        -100 <= advantage <= 100,
    ensures
        r == too_close(advantage as int, draw),
{
    let size: u64 = if advantage < 0 {
        (-advantage) as u64
    } else {
        advantage as u64
    };
    size * 0x1_0000_0000 <= (draw as u64) * 100
}

/// One liquid-flow pass on a cell with the given draws, trying the cells
/// beside it in the given order.
pub fn liquid_flow(
    info: &mut WorldInfo,
    x: i32,
    y: i32,
    settle_draw: u32,
    order: &Vec<(i32, i32)>,
    draws: &Vec<u32>,
)
    requires
        old(info).wf(),
    ensures
        final(info).wf(),
        liquid_applied(*old(info), *final(info), x as int, y as int, settle_draw, order@, draws@),
        final(info).materials().to_multiset() == old(info).materials().to_multiset(),
{
    proof {
        info.lemma_ranges();
    }
    let mut block = match info.get_block(x, y) {
        Some(b) => b,
        None => {
            return ;
        },
    };
    let block_data = block.data();
    let liquid = match block_data.physics {
        BlockPhysics::Liquid => true,
        _ => false,
    };
    if !liquid {
        return ;
    }
    let ghost b = block;
    if draw_settles(settle_draw, block_data.powder_stability) {
        block.set(BlockProperties::powder_stable(), true);
        info.set_block(x, y, block);
        proof {
            lemma_with_flag(
                b.stored_properties,
                BlockProperties::powder_stable(),
                BlockProperties::powder_stable(),
                true,
            );
            assert(info.materials() =~= old(info).materials()) by {
                assert forall|k: int| 0 <= k < info.materials().len() implies info.materials()[k]
                    == old(info).materials()[k] by {
                    let cx = k % (GRID_SIZE as int);
                    let cy = k / (GRID_SIZE as int);
                    if cx != x || cy != y {
                        assert(info.block(cx, cy) == old(info).block(cx, cy));
                    }
                }
            }
            assert forall|cx: i32, cy: i32|
                in_grid(cx as int, cy as int) && #[trigger] info.block(cx as int, cy as int)
                    != old(info).block(cx as int, cy as int) implies info.changed().contains(
                Object::Block(cx, cy),
            ) by {
                if cx != x || cy != y {
                    assert(info.block(cx as int, cy as int) == old(info).block(
                        cx as int,
                        cy as int,
                    ));
                }
            }
        }
        return ;
    }
    if block.get(BlockProperties::powder_stable()) {
        return ;
    }
    let mut i: usize = 0;
    while i < order.len()
        invariant
            i <= order@.len(),
            info.wf(),
            *info == *old(info),
            in_grid(x as int, y as int),
            block == info.block(x as int, y as int)->0,
            block_data.density == material_density(block.id),
            block.id < MATERIAL_COUNT,
            material_physics(block.id) == BlockPhysics::Liquid,
            !settles(settle_draw, material_stability(block.id)),
            !block.stored_properties.has(BlockProperties::powder_stable()),
            first_open(*old(info), x as int, y as int, order@, draws@, 0) == first_open(
                *old(info),
                x as int,
                y as int,
                order@,
                draws@,
                i as int,
            ),
        decreases order@.len() - i,
    {
        let (x2, y2) = order[i];
        proof {
            info.lemma_ranges();
        }
        if i < draws.len() && (x2 != x || y2 != y) {
            match info.get_block(x2, y2) {
                Some(block2) => {
                    let block2_data = block2.data();
                    proof {
                        lemma_density_range(block.id);
                        lemma_density_range(block2.id);
                    }
                    let density_advantage = block_data.density - block2_data.density;
                    let inert = match block2_data.physics {
                        BlockPhysics::Inert => true,
                        _ => false,
                    };
                    if !(block2.get(BlockProperties::moved_this_step()) || (density_advantage <= 0
                        && !inert) || draw_too_close(density_advantage, draws[i])) {
                        proof {
                            assert(flows_to(*old(info), x as int, y as int, order@, draws@, i as int));
                            assert(first_open(*old(info), x as int, y as int, order@, draws@, i as int)
                                == i);
                        }
                        swap_cells(info, x, y, x2, y2);
                        return ;
                    }
                },
                None => {},
            }
        }
        i = i + 1;
    }
}

/// A vector of the given length of random draws.
fn random_draws(n: usize) -> (v: Vec<u32>)
    ensures
        v@.len() == n,
{
    let mut v: Vec<u32> = Vec::new();
    while v.len() < n
        invariant
            v@.len() <= n,
        decreases n - v@.len(),
    {
        v.push(random_u32());
    }
    v
}

/// What one gravity pass does to an object, whatever its five draws: a
/// cell is treated as [`gravity_applied`] says, and an entity stays as it
/// is.
pub open spec fn gravity_updated(pre: WorldInfo, post: WorldInfo, target: Object) -> bool {
    match target {
        Object::Block(x, y) => exists|draws: Seq<u32>|
            draws.len() == 5 && #[trigger] gravity_applied(pre, post, x as int, y as int, draws),
        Object::Entity(_) => post == pre,
    }
}

/// One gravity pass on an object, with five random draws. An entity stays
/// as it is.
pub fn gravity_update(info: &mut WorldInfo, target: Object)
    requires
        old(info).wf(),
    ensures
        final(info).wf(),
        final(info).materials().to_multiset() == old(info).materials().to_multiset(),
        gravity_updated(*old(info), *final(info), target),
{
    match target {
        Object::Block(x, y) => {
            let draws = random_draws(5);
            gravity_fall(info, x, y, &draws);
        },
        Object::Entity(_) => {},
    }
}

/// What one liquid-flow pass does to an object, whatever its draws and
/// whichever of the two cells beside it is tried first: a cell is treated as
/// [`liquid_applied`] says, and an entity stays as it is.
pub open spec fn liquid_updated(pre: WorldInfo, post: WorldInfo, target: Object) -> bool {
    match target {
        Object::Block(x, y) => exists|settle_draw: u32, order: Seq<(i32, i32)>, draws: Seq<u32>|
            order.to_multiset() == neighbor_cells(
                x as int,
                y as int,
                seq![-1i32, 1i32],
                seq![0i32],
            ).to_multiset() && draws.len() == order.len() && #[trigger] liquid_applied(
                pre,
                post,
                x as int,
                y as int,
                settle_draw,
                order,
                draws,
            ),
        Object::Entity(_) => post == pre,
    }
}

/// One liquid-flow pass on an object, with random draws and the two cells
/// beside it in random order. An entity stays as it is.
pub fn liquid_update(info: &mut WorldInfo, target: Object)
    requires
        old(info).wf(),
    ensures
        final(info).wf(),
        final(info).materials().to_multiset() == old(info).materials().to_multiset(),
        liquid_updated(*old(info), *final(info), target),
{
    match target {
        Object::Block(x, y) => {
            let settle_draw = random_u32();
            let mut sides: Vec<i32> = Vec::new();
            sides.push(-1);
            sides.push(1);
            let mut level: Vec<i32> = Vec::new();
            level.push(0);
            assert(sides@ =~= seq![-1i32, 1i32]);
            assert(level@ =~= seq![0i32]);
            let order = neighbors_shuffle(x, y, &sides, &level);
            let draws = random_draws(order.len());
            liquid_flow(info, x, y, settle_draw, &order, &draws);
        },
        Object::Entity(_) => {},
    }
}

/// Whether a candidate of the given weight fires at a rate, given a draw
/// read as a fraction of 2^32: always at the rate `Always`, else if the
/// draw is below the rate times the weight.
pub open spec fn fires(rate: Rate, weight: int, draw: u32) -> bool {
    match rate {
        Rate::Always => true,
        Rate::PerMillion(r) => draw * 1_000_000 < r * weight * 0x1_0000_0000,
    }
}

/// Whether a candidate of the given weight fires at a rate, given a draw.
pub fn rule_fires(rate: Rate, weight: u64, draw: u32) -> (r: bool)
    ensures
        r == fires(rate, weight as int, draw),
{
    match rate {
        Rate::Always => true,
        Rate::PerMillion(r) => {
            if r == 0 || weight == 0 {
                assert(r * weight * 0x1_0000_0000 == 0) by (nonlinear_arith)
                    requires
                        r == 0 || weight == 0,
                ;
                false
            } else if weight >= 1_000_000 {
                assert(r * weight * 0x1_0000_0000 >= 1_000_000 * 0x1_0000_0000) by (nonlinear_arith)
                    requires
                        r >= 1,
                        weight >= 1_000_000,
                ;
                true
            } else {
                assert(r * weight * 0x1_0000_0000 <= 0xffff_ffff * 1_000_000 * 0x1_0000_0000)
                    by (nonlinear_arith)
                    requires
                        0 <= r <= 0xffff_ffff,
                        0 <= weight <= 1_000_000,
                ;
                assert(r * weight <= 0xffff_ffff * 1_000_000) by (nonlinear_arith)
                    requires
                        0 <= r <= 0xffff_ffff,
                        0 <= weight <= 1_000_000,
                ;
                (draw as u128) * 1_000_000 < (r as u128) * (weight as u128) * 0x1_0000_0000
            }
        },
    }
}

/// Whether `post` is `pre` with one stored scalar written, as
/// [`WorldInfo::set`] does it: the target is marked changed if the scalar
/// differs from the one before, and else nothing at all changes.
pub open spec fn level_written(pre: WorldInfo, post: WorldInfo, target: Object, d: DynamicProperty, v: u32) -> bool {
    &&& post.wf()
    &&& post.level(target, d) == v
    &&& forall|o: Object, d2: DynamicProperty|
        (o != target || d2 != d) ==> #[trigger] post.level(o, d2) == pre.level(o, d2)
    &&& same_blocks(pre, post)
    &&& same_entities(pre, post)
    &&& post.changed() == (if v != pre.level(target, d) {
        pre.changed().insert(target)
    } else {
        pre.changed()
    })
    &&& v == pre.level(target, d) ==> post == pre
}

/// Whether `post` is `pre` with the material of one cell replaced: the
/// block keeps its flags and its damage, and its color seed is drawn anew.
pub open spec fn material_written(pre: WorldInfo, post: WorldInfo, x: int, y: int, id: u16) -> bool {
    &&& post.wf()
    &&& post.block(x, y) is Some
    &&& post.block(x, y)->0.id == id
    &&& post.block(x, y)->0.damage == pre.block(x, y)->0.damage
    &&& post.block(x, y)->0.stored_properties == pre.block(x, y)->0.stored_properties
    &&& forall|cx: int, cy: int|
        (cx != x || cy != y) ==> #[trigger] post.block(cx, cy) == pre.block(cx, cy)
    &&& same_levels(pre, post)
    &&& same_entities(pre, post)
    &&& changes_noted(pre, post)
}

/// Whether `post` is `pre` with the new entity `e`, one more than the
/// largest identifier registered before, registered at the bounds that stand
/// for `by`.
pub open spec fn summoned(pre: WorldInfo, post: WorldInfo, by: Object, e: u64) -> bool {
    &&& post.wf()
    &&& pre.is_fresh(e)
    &&& pre.collider(e) is None
    &&& post.collider(e) == Some(pre.bounds_of(by))
    &&& forall|e2: u64| e2 != e ==> #[trigger] post.collider(e2) == pre.collider(e2)
    &&& same_blocks(pre, post)
    &&& same_levels(pre, post)
    &&& post.changed() == pre.changed().insert(Object::Entity(e))
}

/// What one effect does to a target, and the target that later effects
/// apply to. Sending or adding a material replaces the material of a cell
/// of the grid; sending or adding a dynamic property stores one; receiving
/// or removing a dynamic property stores zero; summoning registers a new
/// entity, which becomes the target. Every other effect changes nothing.
pub open spec fn effect_applied(pre: WorldInfo, post: WorldInfo, effect: SpellEffect, target: Object, out: Object) -> bool {
    match effect {
        SpellEffect::Summon => (out matches Object::Entity(e) && summoned(pre, post, target, e)) || (
        out == target && post == pre && pre.collider(u64::MAX) is Some),
        SpellEffect::Send(Property::Material(id)) | SpellEffect::Add(Property::Material(id)) => out
            == target && (match target {
            Object::Block(x, y) => if in_grid(x as int, y as int) {
                material_written(pre, post, x as int, y as int, id)
            } else {
                post == pre
            },
            Object::Entity(_) => post == pre,
        }),
        SpellEffect::Send(Property::Dynamic(d)) | SpellEffect::Add(Property::Dynamic(d)) => out
            == target && level_written(pre, post, target, d, LEVEL_ONE),
        SpellEffect::Receive(Property::Dynamic(d)) | SpellEffect::Remove(
            Property::Dynamic(d),
        ) => out == target && level_written(pre, post, target, d, 0),
        _ => out == target && post == pre,
    }
}

/// What a list of effects does to a target: each effect in turn, each
/// applied to the target that the one before left.
pub open spec fn effects_applied(pre: WorldInfo, post: WorldInfo, effects: Seq<SpellEffect>, target: Object, out: Object) -> bool
    decreases effects.len(),
{
    if effects.len() == 0 {
        post == pre && out == target
    } else {
        exists|mid: WorldInfo, mid_target: Object|
            effects_applied(pre, mid, effects.drop_last(), target, mid_target) && mid.wf()
                && #[trigger] effect_applied(mid, post, effects.last(), mid_target, out)
    }
}

proof fn lemma_effects_step(
    pre: WorldInfo,
    mid: WorldInfo,
    post: WorldInfo,
    effects: Seq<SpellEffect>,
    target: Object,
    mid_target: Object,
    out: Object,
)
    requires
        effects.len() > 0,
        effects_applied(pre, mid, effects.drop_last(), target, mid_target),
        mid.wf(),
        effect_applied(mid, post, effects.last(), mid_target, out),
    ensures
        effects_applied(pre, post, effects, target, out),
{
}

/// Applies one effect to a target and returns the target for later
/// effects.
pub fn apply_effect(info: &mut WorldInfo, effect: SpellEffect, target: Object) -> (out: Object)
    requires
        old(info).wf(),
        effect_ok(effect),
    ensures
        final(info).wf(),
        effect_applied(*old(info), *final(info), effect, target, out),
{
    match effect {
        SpellEffect::Summon => {
            match info.fresh_entity() {
                Some(e) => {
                    let bounds = info.bounds(target);
                    info.set_collider(e, bounds);
                    Object::Entity(e)
                },
                None => target,
            }
        },
        SpellEffect::Send(Property::Material(id)) | SpellEffect::Add(Property::Material(id)) => {
            match target {
                Object::Block(x, y) => {
                    match info.get_block(x, y) {
                        Some(b) => {
                            let seed = Block::new(id).color_seed;
                            let block = Block {
                                id,
                                color_seed: seed,
                                damage: b.damage,
                                stored_properties: b.stored_properties,
                            };
                            info.set_block(x, y, block);
                            proof {
                                assert forall|cx: i32, cy: i32|
                                    in_grid(cx as int, cy as int) && #[trigger] info.block(
                                        cx as int,
                                        cy as int,
                                    ) != old(info).block(cx as int, cy as int) implies info.changed().contains(
                                    Object::Block(cx, cy),
                                ) by {
                                    if cx != x || cy != y {
                                        assert(info.block(cx as int, cy as int) == old(info).block(
                                            cx as int,
                                            cy as int,
                                        ));
                                    }
                                }
                            }
                        },
                        None => {},
                    }
                },
                Object::Entity(_) => {},
            }
            target
        },
        SpellEffect::Send(Property::Dynamic(d)) | SpellEffect::Add(Property::Dynamic(d)) => {
            info.set(target, d, LEVEL_ONE);
            target
        },
        SpellEffect::Receive(Property::Dynamic(d)) | SpellEffect::Remove(Property::Dynamic(d)) => {
            info.set(target, d, 0);
            target
        },
        _ => target,
    }
}

/// Applies a list of effects to a target, each in turn, and returns the
/// target that the last one left.
pub fn apply_effects(info: &mut WorldInfo, effects: &Vec<SpellEffect>, target: Object) -> (out:
    Object)
    requires
        old(info).wf(),
        forall|i: int| 0 <= i < effects@.len() ==> effect_ok(#[trigger] effects@[i]),
    ensures
        final(info).wf(),
        effects_applied(*old(info), *final(info), effects@, target, out),
{
    let mut current = target;
    let mut i: usize = 0;
    proof {
        assert(effects@.take(0) =~= Seq::<SpellEffect>::empty());
    }
    while i < effects.len()
        invariant
            i <= effects@.len(),
            info.wf(),
            forall|j: int| 0 <= j < effects@.len() ==> effect_ok(#[trigger] effects@[j]),
            effects_applied(*old(info), *info, effects@.take(i as int), target, current),
        decreases effects@.len() - i,
    {
        let ghost mid = *info;
        let ghost mid_target = current;
        current = apply_effect(info, effects[i], current);
        proof {
            let done = effects@.take(i + 1);
            assert(done.drop_last() =~= effects@.take(i as int));
            assert(done.last() == effects@[i as int]);
            assert(done.len() > 0);
            assert(mid.wf());
            assert(effect_applied(mid, *info, done.last(), mid_target, current));
            lemma_effects_step(*old(info), mid, *info, done, target, mid_target, current);
        }
        i = i + 1;
    }
    proof {
        assert(effects@.take(effects@.len() as int) =~= effects@);
    }
    current
}

/// What a rule does to a list of candidates, given one draw for each: for
/// each candidate in turn, if a draw is there and the candidate fires, the
/// effects are applied to its target.
pub open spec fn rule_applied(
    pre: WorldInfo,
    post: WorldInfo,
    rate: Rate,
    effects: Seq<SpellEffect>,
    candidates: Seq<SpellTarget>,
    draws: Seq<u32>,
) -> bool
    decreases candidates.len(),
{
    if candidates.len() == 0 {
        post == pre
    } else {
        let i = candidates.len() - 1;
        exists|mid: WorldInfo|
            rule_applied(pre, mid, rate, effects, candidates.drop_last(), draws) && mid.wf()
                && #[trigger] candidate_applied(
                mid,
                post,
                effects,
                candidates[i].target,
                fires_at(rate, candidates, draws, i),
            )
    }
}

/// Whether the candidate at a position fires: a draw is there for it and
/// it fires with that draw.
pub open spec fn fires_at(rate: Rate, candidates: Seq<SpellTarget>, draws: Seq<u32>, i: int) -> bool {
    0 <= i < candidates.len() && i < draws.len() && fires(
        rate,
        candidates[i].connection as int,
        draws[i],
    )
}

/// What a rule does to one candidate: if the candidate fires, the effects
/// are applied to its target, and else nothing changes.
pub open spec fn candidate_applied(pre: WorldInfo, post: WorldInfo, effects: Seq<SpellEffect>, target: Object, fired: bool) -> bool {
    if fired {
        exists|out: Object| #[trigger] effects_applied(pre, post, effects, target, out)
    } else {
        post == pre
    }
}

/// Applies a rule to a list of candidates with the given draws.
pub fn apply_rule(
    info: &mut WorldInfo,
    rate: Rate,
    effects: &Vec<SpellEffect>,
    candidates: &Vec<SpellTarget>,
    draws: &Vec<u32>,
)
    requires
        old(info).wf(),
        forall|i: int| 0 <= i < effects@.len() ==> effect_ok(#[trigger] effects@[i]),
    ensures
        final(info).wf(),
        rule_applied(*old(info), *final(info), rate, effects@, candidates@, draws@),
{
    let mut i: usize = 0;
    proof {
        assert(candidates@.take(0) =~= Seq::<SpellTarget>::empty());
    }
    while i < candidates.len()
        invariant
            i <= candidates@.len(),
            info.wf(),
            forall|j: int| 0 <= j < effects@.len() ==> effect_ok(#[trigger] effects@[j]),
            rule_applied(*old(info), *info, rate, effects@, candidates@.take(i as int), draws@),
        decreases candidates@.len() - i,
    {
        let ghost mid = *info;
        let candidate = candidates[i];
        if i < draws.len() && rule_fires(rate, candidate.connection, draws[i]) {
            let out = apply_effects(info, effects, candidate.target);
            proof {
                assert(effects_applied(mid, *info, effects@, candidate.target, out));
            }
        }
        proof {
            let done = candidates@.take(i + 1);
            assert(done.drop_last() =~= candidates@.take(i as int));
            assert(done[i as int] == candidate);
            assert(done.len() - 1 == i);
            assert(mid.wf());
            assert(rule_applied(*old(info), mid, rate, effects@, done.drop_last(), draws@));
            assert(fires_at(rate, done, draws@, i as int) == (i < draws@.len() && fires(
                rate,
                candidate.connection as int,
                draws@[i as int],
            )));
            assert(candidate_applied(
                mid,
                *info,
                effects@,
                candidate.target,
                fires_at(rate, done, draws@, i as int),
            ));
            assert(rule_applied(*old(info), *info, rate, effects@, done, draws@));
        }
        i = i + 1;
    }
    proof {
        assert(candidates@.take(candidates@.len() as int) =~= candidates@);
    }
}

/// What applying a spell rule from one source does, whatever its draws:
/// the candidates are the targets that the spell reaches from the source,
/// each with connection one and as often as there are ways to reach it, and
/// the rule is applied to them as [`rule_applied`] says.
pub open spec fn spell_updated(pre: WorldInfo, post: WorldInfo, spell_rule: SpellRule, source: Object) -> bool {
    exists|candidates: Seq<SpellTarget>, draws: Seq<u32>|
        draws.len() == candidates.len() && (forall|i: int|
            0 <= i < candidates.len() ==> (#[trigger] candidates[i]).connection == 1) && (forall|
            t: Object,
        |
            #[trigger] bag_weight(candidates, t) == weight(
                spell_relation(spell_rule.spell, pre),
                source,
                t,
            )) && #[trigger] rule_applied(
            pre,
            post,
            spell_rule.rate,
            spell_effects(spell_rule.spell),
            candidates,
            draws,
        )
}

/// Applies a rule from one source: casts the rule's spell from the source
/// and applies the rule to the targets reached, with one random draw for
/// each.
pub fn spell_update(info: &mut WorldInfo, spell_rule: &SpellRule, source: Object)
    requires
        old(info).wf(),
        spell_rule.spell.wf(),
    ensures
        final(info).wf(),
        spell_updated(*old(info), *final(info), *spell_rule, source),
{
    let results = spell_rule.spell.cast(info, SpellTarget::new(source));
    let mut candidates: Vec<SpellTarget> = Vec::new();
    let mut i: usize = 0;
    while i < results.len()
        invariant
            i <= results@.len(),
            candidates@ == result_targets(results@).take(i as int),
            forall|j: int| 0 <= j < results@.len() ==> (#[trigger] results@[j]).target.connection == 1,
        decreases results@.len() - i,
    {
        candidates.push(results[i].target);
        assert(candidates@ =~= result_targets(results@).take(i + 1));
        i = i + 1;
    }
    proof {
        assert(result_targets(results@).take(results@.len() as int) =~= result_targets(results@));
    }
    let draws = random_draws(candidates.len());
    let effects = spell_rule.spell.effects();
    apply_rule(info, spell_rule.rate, effects, &candidates, &draws);
    proof {
        assert forall|t: Object|
            #[trigger] bag_weight(candidates@, t) == weight(
                spell_relation(spell_rule.spell, *old(info)),
                source,
                t,
            ) by {
            assert(bag_weight(result_targets(results@), t) == 1 * weight(
                spell_relation(spell_rule.spell, *old(info)),
                source,
                t,
            ));
        }
        assert forall|j: int| 0 <= j < candidates@.len() implies (#[trigger] candidates@[j]).connection
            == 1 by {
            assert(results@[j].target.connection == 1);
        }
        assert(rule_applied(
            *old(info),
            *info,
            spell_rule.rate,
            spell_effects(spell_rule.spell),
            candidates@,
            draws@,
        ));
    }
}

/// The candidates that the pairs of a relation stand for: the target of
/// each pair, connected with the weight of the pair.
pub open spec fn entry_targets(entries: Seq<(Object, Object, i128)>) -> Seq<SpellTarget> {
    Seq::new(
        entries.len(),
        |i: int| SpellTarget { target: entries[i].1, connection: entries[i].2 as u64 },
    )
}

/// What applying a spell rule to a relation does, whatever its draws:
/// every pair of the relation is a candidate, once, its target connected
/// with the weight of the pair, and the rule is applied to the candidates as
/// [`rule_applied`] says.
pub open spec fn relation_updated(
    pre: WorldInfo,
    post: WorldInfo,
    relation: crate::relation::Relation,
    spell_rule: SpellRule,
) -> bool {
    exists|entries: Seq<(Object, Object, i128)>, draws: Seq<u32>|
        draws.len() == entries.len() && lists_entries(entries, relation) && #[trigger] rule_applied(
            pre,
            post,
            spell_rule.rate,
            spell_effects(spell_rule.spell),
            entry_targets(entries),
            draws,
        )
}

/// Applies a rule to what its selector currently selects: every pair of
/// the relation that the manager keeps under `handle` is a candidate, with
/// one random draw for each.
pub fn rule_update(info: &mut WorldInfo, manager: &StorageManager, handle: usize, spell_rule: &SpellRule)
    requires
        old(info).wf(),
        manager.wf(),
        handle < manager.count(),
        spell_rule.spell.wf(),
    ensures
        final(info).wf(),
        relation_updated(*old(info), *final(info), manager.relation(handle as int), *spell_rule),
{
    let entries = manager.for_each_entry(handle);
    let mut candidates: Vec<SpellTarget> = Vec::new();
    let mut i: usize = 0;
    proof {
        assert(manager.storage(handle as int).wf());
        manager.storage(handle as int).store().lemma_ranges();
    }
    while i < entries.len()
        invariant
            i <= entries@.len(),
            lists_entries(entries@, manager.relation(handle as int)),
            forall|s: Object, t: Object|
                0 <= #[trigger] weight(manager.relation(handle as int), s, t) <= WEIGHT_MAX,
            candidates@ == entry_targets(entries@).take(i as int),
        decreases entries@.len() - i,
    {
        let (s, t, w) = entries[i];
        proof {
            assert(weight(manager.relation(handle as int), s, t) == w);
        }
        candidates.push(SpellTarget { target: t, connection: w as u64 });
        assert(candidates@ =~= entry_targets(entries@).take(i + 1));
        i = i + 1;
    }
    proof {
        assert(entry_targets(entries@).take(entries@.len() as int) =~= entry_targets(entries@));
    }
    let draws = random_draws(candidates.len());
    let effects = spell_rule.spell.effects();
    apply_rule(info, spell_rule.rate, effects, &candidates, &draws);
    proof {
        assert(rule_applied(
            *old(info),
            *info,
            spell_rule.rate,
            spell_effects(spell_rule.spell),
            entry_targets(entries@),
            draws@,
        ));
    }
}

/// Receiving a dynamic property that is already zero changes nothing, not
/// even the set of changed objects.
pub proof fn lemma_receive_is_idempotent(pre: WorldInfo, post: WorldInfo, d: DynamicProperty, target: Object, out: Object)
    requires
        effect_applied(pre, post, SpellEffect::Receive(Property::Dynamic(d)), target, out),
        pre.level(target, d) == 0,
    ensures
        post == pre,
        out == target,
{
}

/// Sending a dynamic property stores exactly one, and sending it once more
/// changes nothing.
pub proof fn lemma_send_is_idempotent(
    pre: WorldInfo,
    mid: WorldInfo,
    post: WorldInfo,
    d: DynamicProperty,
    target: Object,
    out1: Object,
    out2: Object,
)
    requires
        effect_applied(pre, mid, SpellEffect::Send(Property::Dynamic(d)), target, out1),
        effect_applied(mid, post, SpellEffect::Send(Property::Dynamic(d)), out1, out2),
    ensures
        mid.level(target, d) == LEVEL_ONE,
        post.level(target, d) == LEVEL_ONE,
        post == mid,
{
}

/// A rule whose one effect is to receive a dynamic property changes
/// nothing, whatever its rate and its draws, if the property is already zero
/// on the target of every candidate.
pub proof fn lemma_receive_rule_changes_nothing(
    pre: WorldInfo,
    post: WorldInfo,
    rate: Rate,
    d: DynamicProperty,
    candidates: Seq<SpellTarget>,
    draws: Seq<u32>,
)
    requires
        rule_applied(
            pre,
            post,
            rate,
            seq![SpellEffect::Receive(Property::Dynamic(d))],
            candidates,
            draws,
        ),
        forall|i: int| 0 <= i < candidates.len() ==> pre.level((#[trigger] candidates[i]).target, d) == 0,
    ensures
        post == pre,
    decreases candidates.len(),
{
    let effects = seq![SpellEffect::Receive(Property::Dynamic(d))];
    if candidates.len() > 0 {
        let i = candidates.len() - 1;
        let mid = choose|mid: WorldInfo|
            rule_applied(pre, mid, rate, effects, candidates.drop_last(), draws) && mid.wf()
                && #[trigger] candidate_applied(
                mid,
                post,
                effects,
                candidates[i].target,
                fires_at(rate, candidates, draws, i),
            );
        assert forall|j: int| 0 <= j < candidates.drop_last().len() implies pre.level(
            (#[trigger] candidates.drop_last()[j]).target,
            d,
        ) == 0 by {
            assert(candidates.drop_last()[j] == candidates[j]);
        }
        lemma_receive_rule_changes_nothing(pre, mid, rate, d, candidates.drop_last(), draws);
        if fires_at(rate, candidates, draws, i) {
            let out = choose|out: Object| #[trigger]
                effects_applied(mid, post, effects, candidates[i].target, out);
            let (step, step_target) = choose|step: WorldInfo, step_target: Object|
                effects_applied(mid, step, effects.drop_last(), candidates[i].target, step_target)
                    && step.wf() && #[trigger] effect_applied(
                    step,
                    post,
                    effects.last(),
                    step_target,
                    out,
                );
            assert(effects.drop_last().len() == 0);
            assert(step == mid && step_target == candidates[i].target);
            assert(effects.last() == SpellEffect::Receive(Property::Dynamic(d)));
        }
    }
}

/// Applying a rule whose one effect is to receive a dynamic property from
/// a source changes nothing, and marks nothing changed, if the property is
/// already zero on every object that the rule's spell reaches from the
/// source.
pub proof fn lemma_receive_spell_changes_nothing(
    pre: WorldInfo,
    post: WorldInfo,
    spell_rule: SpellRule,
    source: Object,
    d: DynamicProperty,
)
    requires
        spell_updated(pre, post, spell_rule, source),
        spell_effects(spell_rule.spell) == seq![SpellEffect::Receive(Property::Dynamic(d))],
        forall|t: Object|
            #[trigger] weight(spell_relation(spell_rule.spell, pre), source, t) != 0 ==> pre.level(
                t,
                d,
            ) == 0,
    ensures
        post == pre,
{
    let (candidates, draws) = choose|candidates: Seq<SpellTarget>, draws: Seq<u32>|
        draws.len() == candidates.len() && (forall|i: int|
            0 <= i < candidates.len() ==> (#[trigger] candidates[i]).connection == 1) && (forall|
            t: Object,
        |
            #[trigger] bag_weight(candidates, t) == weight(
                spell_relation(spell_rule.spell, pre),
                source,
                t,
            )) && #[trigger] rule_applied(
            pre,
            post,
            spell_rule.rate,
            spell_effects(spell_rule.spell),
            candidates,
            draws,
        );
    assert forall|i: int| 0 <= i < candidates.len() implies pre.level(
        (#[trigger] candidates[i]).target,
        d,
    ) == 0 by {
        let t = candidates[i].target;
        crate::spells::lemma_bag_weight_bounds(candidates, t);
        assert(bag_weight(candidates, t) >= candidates[i].connection);
        assert(weight(spell_relation(spell_rule.spell, pre), source, t) != 0);
    }
    lemma_receive_rule_changes_nothing(pre, post, spell_rule.rate, d, candidates, draws);
}

/// A rule that evolves the world: a built-in physics rule or a spell rule.
#[derive(Debug)]
pub enum UpdateRule {
    Gravity,
    Liquid,
    Spell(SpellRule),
}

/// The property that the first selector of a spell tests, if the spell
/// starts with a test.
pub open spec fn spell_anchor(spell: Spell) -> Option<Property> {
    match spell {
        Spell::Select(SpellSelector::Is(p), _) => Some(p),
        Spell::Select(SpellSelector::Bind(first, _), _) => match *first {
            SpellSelector::Is(p) => Some(p),
            _ => None,
        },
        _ => None,
    }
}

impl UpdateRule {
    /// Whether the rule is one of the built-in physics rules.
    pub open spec fn is_physics(&self) -> bool {
        self is Gravity || self is Liquid
    }

    /// A spell rule names only materials of the catalog.
    pub open spec fn wf(&self) -> bool {
        match self {
            UpdateRule::Spell(rule) => rule.spell.wf(),
            _ => true,
        }
    }

    /// The property whose active set the rule runs on: being a liquid for
    /// the physics rules, and for a spell rule the property that its first
    /// selector tests.
    pub open spec fn anchor(&self) -> Option<Property> {
        match self {
            UpdateRule::Spell(rule) => spell_anchor(rule.spell),
            _ => Some(Property::Static(StaticProperty::Liquid)),
        }
    }

    /// The property whose active set the rule runs on. A spell rule that
    /// does not start with a test has none.
    pub fn only_run_on(&self) -> (r: Option<Property>)
        ensures
            r == self.anchor(),
    {
        match self {
            UpdateRule::Gravity => Some(Property::Static(StaticProperty::Liquid)),
            UpdateRule::Liquid => Some(Property::Static(StaticProperty::Liquid)),
            UpdateRule::Spell(sr) => match &sr.spell {
                Spell::Select(selector, _) => match selector {
                    SpellSelector::Is(property) => Some(*property),
                    SpellSelector::Bind(first, _) => match **first {
                        SpellSelector::Is(property) => Some(property),
                        _ => None,
                    },
                    _ => None,
                },
                _ => None,
            },
        }
    }

    /// What running the rule on one object does.
    pub open spec fn updated(&self, pre: WorldInfo, post: WorldInfo, target: Object) -> bool {
        match self {
            UpdateRule::Gravity => gravity_updated(pre, post, target),
            UpdateRule::Liquid => liquid_updated(pre, post, target),
            UpdateRule::Spell(rule) => spell_updated(pre, post, *rule, target),
        }
    }

    /// Runs the rule on one object. A physics rule keeps every block: it
    /// only exchanges the contents of cells.
    pub fn update(&self, info: &mut WorldInfo, target: Object)
        requires
            old(info).wf(),
            self.wf(),
        ensures
            final(info).wf(),
            self.updated(*old(info), *final(info), target),
            self.is_physics() ==> final(info).materials().to_multiset() == old(info).materials().to_multiset(),
            self.is_physics() ==> same_entities(*old(info), *final(info)),
    {
        match self {
            UpdateRule::Gravity => gravity_update(info, target),
            UpdateRule::Liquid => liquid_update(info, target),
            UpdateRule::Spell(c) => spell_update(info, c, target),
        }
    }
}

/// The order in which a tick visits the objects of an active set: as
/// listed on even ticks, and in reverse on odd ticks.
pub open spec fn visit_order(targets: Seq<Object>, tick: u64) -> Seq<Object> {
    Seq::new(
        targets.len(),
        |k: int|
            if tick % 2 == 0 {
                targets[k]
            } else {
                targets[targets.len() - 1 - k]
            },
    )
}

/// What running a rule on a list of objects does: the rule runs on each in
/// turn.
pub open spec fn pass_applied(pre: WorldInfo, post: WorldInfo, rule: UpdateRule, targets: Seq<Object>) -> bool
    decreases targets.len(),
{
    if targets.len() == 0 {
        post == pre
    } else {
        exists|mid: WorldInfo|
            pass_applied(pre, mid, rule, targets.drop_last()) && mid.wf() && #[trigger] rule.updated(
                mid,
                post,
                targets.last(),
            )
    }
}

/// What one rule does in a tick: it runs on the objects that have the
/// property the rule runs on when its turn comes, in the order in which the
/// index lists them on an even tick and in the reverse of that order on an
/// odd tick; a rule that runs on no property does nothing.
pub open spec fn rule_ran(pre: WorldInfo, post: WorldInfo, rule: UpdateRule, tick: u64) -> bool {
    match rule.anchor() {
        Some(property) => pass_applied(
            pre,
            post,
            rule,
            visit_order(pre.active_order(property), tick),
        ),
        None => post == pre,
    }
}

/// What the rules of a tick do: each rule in turn does what [`rule_ran`]
/// says, on the world that the rules before it left.
pub open spec fn rules_ran(pre: WorldInfo, post: WorldInfo, rules: Seq<UpdateRule>, tick: u64) -> bool
    decreases rules.len(),
{
    if rules.len() == 0 {
        post == pre
    } else {
        exists|mid: WorldInfo|
            rules_ran(pre, mid, rules.drop_last(), tick) && mid.wf() && #[trigger] rule_ran(
                mid,
                post,
                rules.last(),
                tick,
            )
    }
}

/// Whether `post` is `pre` after [`WorldInfo::reset_changes`]: nothing is
/// marked changed, and the blocks that were have lost their moved flag.
pub open spec fn changes_reset(pre: WorldInfo, post: WorldInfo) -> bool {
    &&& post.wf()
    &&& post.changed() == Set::<Object>::empty()
    &&& forall|x: i32, y: i32|
        in_grid(x as int, y as int) ==> #[trigger] post.block(x as int, y as int) == (
        if pre.changed().contains(Object::Block(x, y)) {
            Some(crate::chemistry::unmoved(pre.block(x as int, y as int)->0))
        } else {
            pre.block(x as int, y as int)
        })
    &&& same_levels(pre, post)
    &&& same_entities(pre, post)
}

/// The rules of a world, in the order in which a tick runs them.
pub struct UpdateRules {
    pub update_rules: Vec<UpdateRule>,
}

/// One tick: forgets the changes of the tick before, then runs each rule,
/// in order, on every object that has the property the rule runs on; a
/// spell rule that does not start with a test is passed over. The objects
/// are visited in the order of the active set on even ticks and in the
/// reverse order on odd ticks. A tick of physics rules alone keeps every
/// block and every entity: the materials of the grid, counted by kind, are
/// the same before and after.
pub fn step(info: &mut WorldInfo, update_rules: &UpdateRules, tick: u64)
    requires
        old(info).wf(),
        forall|i: int|
            0 <= i < update_rules.update_rules@.len() ==> (#[trigger] update_rules.update_rules@[i]).wf(),
    ensures
        final(info).wf(),
        exists|reset: WorldInfo|
            changes_reset(*old(info), reset) && #[trigger] rules_ran(
                reset,
                *final(info),
                update_rules.update_rules@,
                tick,
            ),
        (forall|i: int|
            0 <= i < update_rules.update_rules@.len() ==> (
            #[trigger] update_rules.update_rules@[i]).is_physics()) ==> final(info).materials().to_multiset() == old(info).materials().to_multiset() && same_entities(
            *old(info),
            *final(info),
        ),
{
    let rules = &update_rules.update_rules;
    let ghost physics_only = forall|i: int|
        0 <= i < rules@.len() ==> (#[trigger] rules@[i]).is_physics();
    info.reset_changes();
    let ghost reset = *info;
    proof {
        old(info).lemma_ranges();
        info.lemma_ranges();
        assert(info.materials() =~= old(info).materials()) by {
            assert forall|k: int| 0 <= k < info.materials().len() implies info.materials()[k]
                == old(info).materials()[k] by {
                let cx = (k % (GRID_SIZE as int)) as i32;
                let cy = (k / (GRID_SIZE as int)) as i32;
                assert(in_grid(cx as int, cy as int));
                assert(info.block(cx as int, cy as int) == (if old(info).changed().contains(
                    Object::Block(cx, cy),
                ) {
                    Some(crate::chemistry::unmoved(old(info).block(cx as int, cy as int)->0))
                } else {
                    old(info).block(cx as int, cy as int)
                }));
            }
        }
        assert(rules@.take(0) =~= Seq::<UpdateRule>::empty());
    }
    let mut r: usize = 0;
    while r < rules.len()
        invariant
            r <= rules@.len(),
            info.wf(),
            reset.wf(),
            forall|i: int| 0 <= i < rules@.len() ==> (#[trigger] rules@[i]).wf(),
            physics_only == (forall|i: int|
                0 <= i < rules@.len() ==> (#[trigger] rules@[i]).is_physics()),
            physics_only ==> info.materials().to_multiset() == old(info).materials().to_multiset()
                && same_entities(*old(info), *info),
            rules_ran(reset, *info, rules@.take(r as int), tick),
        decreases rules@.len() - r,
    {
        let rule = &rules[r];
        let ghost before_rule = *info;
        match rule.only_run_on() {
            Some(property) => {
                let targets = info.active_matching(property);
                let n = targets.len();
                let ghost order = visit_order(targets@, tick);
                let mut k: usize = 0;
                proof {
                    assert(order.take(0) =~= Seq::<Object>::empty());
                    assert(targets@ == before_rule.active_order(property));
                }
                while k < n
                    invariant
                        k <= n,
                        n == targets@.len(),
                        order == visit_order(targets@, tick),
                        info.wf(),
                        rule.wf(),
                        physics_only ==> rule.is_physics(),
                        physics_only ==> info.materials().to_multiset() == old(info).materials().to_multiset() && same_entities(*old(info), *info),
                        pass_applied(before_rule, *info, *rule, order.take(k as int)),
                    decreases n - k,
                {
                    let target = if tick % 2 == 0 {
                        targets[k]
                    } else {
                        targets[n - 1 - k]
                    };
                    let ghost before = *info;
                    rule.update(info, target);
                    proof {
                        if physics_only {
                            assert forall|e: u64| #[trigger] info.collider(e) == old(info).collider(
                                e,
                            ) by {
                                assert(before.collider(e) == old(info).collider(e));
                            }
                        }
                        let done = order.take(k + 1);
                        assert(done.drop_last() =~= order.take(k as int));
                        assert(done.last() == target);
                        assert(done.len() > 0);
                        assert(before.wf());
                        assert(rule.updated(before, *info, done.last()));
                        assert(pass_applied(before_rule, before, *rule, done.drop_last()));
                        assert(pass_applied(before_rule, *info, *rule, done));
                    }
                    k = k + 1;
                }
                proof {
                    assert(order.take(n as int) =~= order);
                    assert(rule_ran(before_rule, *info, *rule, tick));
                }
            },
            None => {},
        }
        proof {
            let done = rules@.take(r + 1);
            assert(done.drop_last() =~= rules@.take(r as int));
            assert(done.last() == *rule);
            assert(done.len() > 0);
            assert(before_rule.wf());
            assert(rule_ran(before_rule, *info, done.last(), tick));
            assert(rules_ran(reset, before_rule, done.drop_last(), tick));
            assert(rules_ran(reset, *info, done, tick));
        }
        r = r + 1;
    }
    proof {
        assert(rules@.take(rules@.len() as int) =~= rules@);
        assert(changes_reset(*old(info), reset));
    }
}

/// Whether the manager holds a relation for the selector of every spell
/// rule.
pub open spec fn rules_registered(manager: StorageManager, rules: Seq<UpdateRule>) -> bool {
    forall|i: int|
        0 <= i < rules.len() ==> (#[trigger] rules[i] matches UpdateRule::Spell(rule)
            ==> manager.registered(crate::spells::spell_selector(rule.spell)))
}

/// Registers the selector of every spell rule with the manager, operands
/// first. The stores that the manager held before stay as they are.
pub fn register_rules(manager: &mut StorageManager, update_rules: &UpdateRules)
    requires
        old(manager).wf(),
    ensures
        final(manager).wf(),
        rules_registered(*final(manager), update_rules.update_rules@),
        old(manager).count() <= final(manager).count(),
        forall|h: int|
            0 <= h < old(manager).count() ==> #[trigger] final(manager).storage(h) == old(manager).storage(h),
        rules_registered(*old(manager), update_rules.update_rules@) ==> *final(manager) == *old(manager),
{
    let rules = &update_rules.update_rules;
    let mut i: usize = 0;
    while i < rules.len()
        invariant
            i <= rules@.len(),
            manager.wf(),
            old(manager).count() <= manager.count(),
            forall|h: int|
                0 <= h < old(manager).count() ==> #[trigger] manager.storage(h) == old(manager).storage(h),
            forall|j: int|
                0 <= j < i ==> (#[trigger] rules@[j] matches UpdateRule::Spell(rule)
                    ==> manager.registered(crate::spells::spell_selector(rule.spell))),
            rules_registered(*old(manager), rules@) ==> *manager == *old(manager),
        decreases rules@.len() - i,
    {
        let ghost before = *manager;
        match &rules[i] {
            UpdateRule::Spell(rule) => {
                let selector = rule.spell.selector();
                let h = manager.require(&selector);
                proof {
                    assert(manager.selector(h as int) == selector);
                    assert forall|j: int| 0 <= j < i implies (#[trigger] rules@[j] matches UpdateRule::Spell(
                        earlier,
                    ) ==> manager.registered(crate::spells::spell_selector(earlier.spell))) by {
                        match rules@[j] {
                            UpdateRule::Spell(earlier) => {
                                let sel = crate::spells::spell_selector(earlier.spell);
                                assert(before.registered(sel));
                                let k = choose|k: int|
                                    0 <= k < before.count() && #[trigger] before.selector(k) == sel;
                                assert(manager.storage(k) == before.storage(k));
                                assert(manager.selector(k) == sel);
                            },
                            _ => {},
                        }
                    }
                    assert forall|k: int| 0 <= k < old(manager).count() implies #[trigger]
                        manager.storage(k) == old(manager).storage(k) by {
                        assert(before.storage(k) == old(manager).storage(k));
                    }
                    if rules_registered(*old(manager), rules@) {
                        assert(rules@[i as int] matches UpdateRule::Spell(_));
                        assert(before.registered(selector));
                    }
                }
            },
            _ => {},
        }
        i = i + 1;
    }
}

/// What one rule does in a tick of the engine: a physics rule runs on the
/// liquids as [`rule_ran`] says, and a spell rule is applied to the relation
/// that the manager keeps for its selector.
pub open spec fn engine_rule_ran(pre: WorldInfo, post: WorldInfo, manager: StorageManager, rule: UpdateRule, tick: u64) -> bool {
    match rule {
        UpdateRule::Spell(spell_rule) => exists|h: int|
            0 <= h < manager.count() && #[trigger] manager.selector(h)
                == crate::spells::spell_selector(spell_rule.spell) && relation_updated(
                pre,
                post,
                manager.relation(h),
                spell_rule,
            ),
        _ => rule_ran(pre, post, rule, tick),
    }
}

/// What the rules do in a tick of the engine: each rule in turn does what
/// [`engine_rule_ran`] says, on the world that the rules before it left.
pub open spec fn engine_ran(pre: WorldInfo, post: WorldInfo, manager: StorageManager, rules: Seq<UpdateRule>, tick: u64) -> bool
    decreases rules.len(),
{
    if rules.len() == 0 {
        post == pre
    } else {
        exists|mid: WorldInfo|
            engine_ran(pre, mid, manager, rules.drop_last(), tick) && mid.wf()
                && #[trigger] engine_rule_ran(mid, post, manager, rules.last(), tick)
    }
}

/// One tick of the engine. First the manager is brought up to date with
/// the world as the tick before left it. Then the changes of that tick are
/// forgotten, and each rule runs in order: a physics rule on every liquid,
/// a spell rule on every pair of the relation that the manager keeps for its
/// selector. What the rules change is seen by the rules after them, and by
/// the manager at the next tick.
pub fn tick(info: &mut WorldInfo, manager: &mut StorageManager, update_rules: &UpdateRules, tick: u64)
    requires
        old(info).wf(),
        old(manager).wf(),
        forall|i: int|
            0 <= i < update_rules.update_rules@.len() ==> (#[trigger] update_rules.update_rules@[i]).wf(),
        rules_registered(*old(manager), update_rules.update_rules@),
    ensures
        final(info).wf(),
        final(manager).wf(),
        final(manager).same_shape(*old(manager)),
        final(manager).idle(),
        forall|h: int|
            0 <= h < final(manager).count() && final(manager).links(h) is None
                ==> #[trigger] final(manager).relation(h) == crate::spells::select_relation(
                final(manager).selector(h),
                *old(info),
            ),
        old(manager).settled() && old(manager).idle() ==> final(manager).settled_saturated(),
        old(manager).settled() && old(manager).idle() && final(manager).fits() ==> final(manager).mirrors(*old(info)),
        exists|reset: WorldInfo|
            changes_reset(*old(info), reset) && #[trigger] engine_ran(
                reset,
                *final(info),
                *final(manager),
                update_rules.update_rules@,
                tick,
            ),
        (forall|i: int|
            0 <= i < update_rules.update_rules@.len() ==> (
            #[trigger] update_rules.update_rules@[i]).is_physics()) ==> final(info).materials().to_multiset() == old(info).materials().to_multiset(),
{
    manager.sync(info);
    let rules = &update_rules.update_rules;
    let ghost physics_only = forall|i: int|
        0 <= i < rules@.len() ==> (#[trigger] rules@[i]).is_physics();
    info.reset_changes();
    let ghost reset = *info;
    proof {
        old(info).lemma_ranges();
        info.lemma_ranges();
        assert(info.materials() =~= old(info).materials()) by {
            assert forall|k: int| 0 <= k < info.materials().len() implies info.materials()[k]
                == old(info).materials()[k] by {
                let cx = (k % (GRID_SIZE as int)) as i32;
                let cy = (k / (GRID_SIZE as int)) as i32;
                assert(in_grid(cx as int, cy as int));
                assert(info.block(cx as int, cy as int) == (if old(info).changed().contains(
                    Object::Block(cx, cy),
                ) {
                    Some(crate::chemistry::unmoved(old(info).block(cx as int, cy as int)->0))
                } else {
                    old(info).block(cx as int, cy as int)
                }));
            }
        }
        assert(rules@.take(0) =~= Seq::<UpdateRule>::empty());
        assert forall|i: int| 0 <= i < rules@.len() implies (#[trigger] rules@[i] matches UpdateRule::Spell(
            rule,
        ) ==> manager.registered(crate::spells::spell_selector(rule.spell))) by {
            match rules@[i] {
                UpdateRule::Spell(rule) => {
                    let sel = crate::spells::spell_selector(rule.spell);
                    assert(old(manager).registered(sel));
                    let k = choose|k: int|
                        0 <= k < old(manager).count() && #[trigger] old(manager).selector(k) == sel;
                    assert(manager.selector(k) == sel);
                },
                _ => {},
            }
        }
    }
    let mut r: usize = 0;
    while r < rules.len()
        invariant
            r <= rules@.len(),
            info.wf(),
            manager.wf(),
            reset.wf(),
            forall|i: int| 0 <= i < rules@.len() ==> (#[trigger] rules@[i]).wf(),
            rules_registered(*manager, rules@),
            physics_only == (forall|i: int|
                0 <= i < rules@.len() ==> (#[trigger] rules@[i]).is_physics()),
            physics_only ==> info.materials().to_multiset() == old(info).materials().to_multiset(),
            engine_ran(reset, *info, *manager, rules@.take(r as int), tick),
        decreases rules@.len() - r,
    {
        let rule = &rules[r];
        let ghost before_rule = *info;
        match rule {
            UpdateRule::Spell(spell_rule) => {
                let selector = spell_rule.spell.selector();
                proof {
                    assert(rules@[r as int] matches UpdateRule::Spell(_));
                    assert(manager.registered(selector));
                }
                match manager.find(&selector) {
                    Some(h) => {
                        rule_update(info, manager, h, spell_rule);
                        proof {
                            assert(manager.selector(h as int) == crate::spells::spell_selector(
                                spell_rule.spell,
                            ));
                            assert(engine_rule_ran(before_rule, *info, *manager, *rule, tick));
                        }
                    },
                    None => {},
                }
            },
            _ => {
                let property = Property::Static(StaticProperty::Liquid);
                let targets = info.active_matching(property);
                let n = targets.len();
                let ghost order = visit_order(targets@, tick);
                let mut k: usize = 0;
                proof {
                    assert(order.take(0) =~= Seq::<Object>::empty());
                    assert(targets@ == before_rule.active_order(property));
                    assert(rule.anchor() == Some(property));
                }
                while k < n
                    invariant
                        k <= n,
                        n == targets@.len(),
                        order == visit_order(targets@, tick),
                        info.wf(),
                        rule.wf(),
                        rule.is_physics(),
                        physics_only ==> info.materials().to_multiset() == old(info).materials().to_multiset(),
                        pass_applied(before_rule, *info, *rule, order.take(k as int)),
                    decreases n - k,
                {
                    let target = if tick % 2 == 0 {
                        targets[k]
                    } else {
                        targets[n - 1 - k]
                    };
                    let ghost before = *info;
                    rule.update(info, target);
                    proof {
                        let done = order.take(k + 1);
                        assert(done.drop_last() =~= order.take(k as int));
                        assert(done.last() == target);
                        assert(done.len() > 0);
                        assert(before.wf());
                        assert(rule.updated(before, *info, done.last()));
                        assert(pass_applied(before_rule, before, *rule, done.drop_last()));
                        assert(pass_applied(before_rule, *info, *rule, done));
                    }
                    k = k + 1;
                }
                proof {
                    assert(order.take(n as int) =~= order);
                    assert(rule_ran(before_rule, *info, *rule, tick));
                    assert(engine_rule_ran(before_rule, *info, *manager, *rule, tick));
                }
            },
        }
        proof {
            let done = rules@.take(r + 1);
            assert(done.drop_last() =~= rules@.take(r as int));
            assert(done.last() == *rule);
            assert(done.len() > 0);
            assert(before_rule.wf());
            assert(engine_rule_ran(before_rule, *info, *manager, done.last(), tick));
            assert(engine_ran(reset, before_rule, *manager, done.drop_last(), tick));
            assert(engine_ran(reset, *info, *manager, done, tick));
        }
        r = r + 1;
    }
    proof {
        assert(rules@.take(rules@.len() as int) =~= rules@);
        assert(changes_reset(*old(info), reset));
    }
}

} // verus!
