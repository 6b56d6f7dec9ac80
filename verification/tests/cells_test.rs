use spellgrid::blocks::{Block, COAL, SAND, STONE};
use spellgrid::cells::{
    in_bounds, neighbors, neighbors_shuffle, set_block_range, set_block_range_func, BlockGrid,
    GRID_SIZE,
};
use spellgrid::chemistry::WorldInfo;

#[test]
fn the_grid_is_256_cells_wide() {
    assert_eq!(GRID_SIZE, 256);
    assert!(in_bounds(0, 0));
    assert!(in_bounds(255, 255));
    assert!(!in_bounds(256, 0));
    assert!(!in_bounds(0, 256));
    assert!(!in_bounds(-1, 5));
    assert!(!in_bounds(5, -1));
}

#[test]
fn grid_get_is_none_outside_and_set_reads_back() {
    let mut grid = BlockGrid::default();
    assert_eq!(grid.get(3, 4).map(|b| b.id), Some(0));
    assert_eq!(grid.get(-1, 0), None);
    assert_eq!(grid.get(0, 256), None);
    assert_eq!(grid.get(256, 0), None);
    let b = Block::new(SAND);
    grid.set(3, 4, b);
    assert_eq!(grid.get(3, 4), Some(b));
    assert_eq!(grid.get(4, 3).map(|b| b.id), Some(0));
    let c = Block::new(STONE);
    grid.set(255, 255, c);
    assert_eq!(grid.get(255, 255), Some(c));
    assert_eq!(grid.get(0, 0).map(|b| b.id), Some(0));
    // outside the grid there is no cell to set
    grid.set(256, 0, c);
    grid.set(-1, 3, c);
    grid.set(3, 256, c);
    assert_eq!(grid.get(0, 1).map(|b| b.id), Some(0));
    assert_eq!(grid.get(255, 2).map(|b| b.id), Some(0));
    assert_eq!(grid.get(256, 0), None);
}

#[test]
fn neighbors_lists_cells_in_offset_order() {
    let r = neighbors(10, 10, &vec![-1, 0, 1], &vec![-1, 0, 1]);
    assert_eq!(
        r,
        vec![
            (9, 9),
            (9, 10),
            (9, 11),
            (10, 9),
            (10, 10),
            (10, 11),
            (11, 9),
            (11, 10),
            (11, 11)
        ]
    );
}

#[test]
fn neighbors_drops_cells_outside_the_grid() {
    let r = neighbors(0, 0, &vec![-1, 0, 1], &vec![-1, 0, 1]);
    assert_eq!(r, vec![(0, 0), (0, 1), (1, 0), (1, 1)]);
    let r = neighbors(255, 255, &vec![-1, 1], &vec![0]);
    assert_eq!(r, vec![(254, 255)]);
    let r = neighbors(i32::MAX, i32::MIN, &vec![1, -1], &vec![-1, 1]);
    assert_eq!(r, vec![]);
    let r = neighbors(5, 5, &vec![], &vec![0]);
    assert_eq!(r, vec![]);
}

#[test]
fn a_shuffle_keeps_the_cells_and_reaches_both_orders() {
    let mut seen_forward = false;
    let mut seen_backward = false;
    for _ in 0..200 {
        let r = neighbors_shuffle(10, 10, &vec![-1, 1], &vec![0]);
        assert_eq!(r.len(), 2);
        assert!(r.contains(&(9, 10)));
        assert!(r.contains(&(11, 10)));
        if r[0] == (9, 10) {
            seen_forward = true;
        } else {
            seen_backward = true;
        }
    }
    assert!(seen_forward);
    assert!(seen_backward);
}

#[test]
fn set_block_range_fills_a_rectangle() {
    let mut info = WorldInfo::default();
    set_block_range(&mut info, &vec![2, 3, 4], &vec![7, 8], COAL);
    for x in 0..10 {
        for y in 0..10 {
            let b = info.get_block(x, y).unwrap();
            if (2..=4).contains(&x) && (7..=8).contains(&y) {
                assert_eq!(b.id, COAL);
                assert_eq!(b.damage, 0);
                assert_eq!(b.stored_properties.bits, 0);
            } else {
                assert_eq!(b.id, 0);
            }
        }
    }
}

#[test]
fn set_block_range_func_applies_the_function_to_each_cell() {
    let mut info = WorldInfo::default();
    set_block_range(&mut info, &vec![1], &vec![1], COAL);
    set_block_range_func(&mut info, &vec![1, 2], &vec![1], |b: Block| Block {
        damage: b.damage + 1,
        id: if b.id == COAL { SAND } else { STONE },
        ..b
    });
    assert_eq!(info.get_block(1, 1).unwrap().id, SAND);
    assert_eq!(info.get_block(1, 1).unwrap().damage, 1);
    assert_eq!(info.get_block(2, 1).unwrap().id, STONE);
    assert_eq!(info.get_block(3, 1).unwrap().id, 0);
    assert_eq!(info.get_block(3, 1).unwrap().damage, 0);
}
