use cgol::parse::init;
use cgol::sim::{
    bounding_box, check_neighbors, compute_viewport_offset, render_cells, tick, LiveSet, World,
};

fn live_cells_sorted(ls: &LiveSet) -> Vec<(isize, isize)> {
    let mut v = ls.iterate();
    v.sort();
    v.dedup();
    v
}

fn make_set(cells: &[(isize, isize)]) -> LiveSet {
    let mut ls = LiveSet::new();
    for &c in cells {
        ls.insert(c);
    }
    ls
}

fn make_world(cells: &[(isize, isize)], height: usize, width: usize) -> World {
    World::new(height, width, make_set(cells), make_set(cells))
}

#[test]
fn block_is_still_life() {
    let mut w = make_world(&[(0, 0), (1, 0), (0, 1), (1, 1)], 5, 5);
    for _ in 0..6 {
        assert!(w.current.all_in_tick_range());
        tick(&mut w);
        assert_eq!(
            live_cells_sorted(&w.current),
            vec![(0, 0), (0, 1), (1, 0), (1, 1)]
        );
    }
}

#[test]
fn blinker_oscillates_with_period_two() {
    let mut w = make_world(&[(0, 1), (1, 1), (2, 1)], 5, 5);
    tick(&mut w);
    assert_eq!(live_cells_sorted(&w.current), vec![(1, 0), (1, 1), (1, 2)]);
    tick(&mut w);
    assert_eq!(live_cells_sorted(&w.current), vec![(0, 1), (1, 1), (2, 1)]);
}

#[test]
fn lonely_cells_die_of_underpopulation() {
    let mut w = make_world(&[(0, 0), (1, 1)], 3, 3);
    tick(&mut w);
    assert_eq!(live_cells_sorted(&w.current).len(), 0);
}

#[test]
fn crowded_center_dies_of_overpopulation() {
    let mut w = make_world(&[(1, 0), (0, 1), (1, 1), (2, 1), (1, 2)], 5, 5);
    tick(&mut w);
    assert_eq!(
        live_cells_sorted(&w.current),
        vec![
            (0, 0),
            (0, 1),
            (0, 2),
            (1, 0),
            (1, 2),
            (2, 0),
            (2, 1),
            (2, 2)
        ]
    );
}

#[test]
fn birth_on_exactly_three_neighbors() {
    let mut w = make_world(&[(0, 0), (1, 0), (0, 1)], 4, 4);
    tick(&mut w);
    assert_eq!(
        live_cells_sorted(&w.current),
        vec![(0, 0), (0, 1), (1, 0), (1, 1)]
    );
}

#[test]
fn check_neighbors_counts_moore_neighborhood() {
    let w = make_world(&[(0, 0), (1, 0), (0, 1), (5, 5)], 3, 3);
    assert_eq!(check_neighbors(&w, 1, 1), 3);
    assert_eq!(check_neighbors(&w, 0, 0), 2);
    assert_eq!(check_neighbors(&w, 5, 5), 0);
    assert_eq!(check_neighbors(&w, 8, 8), 0);
}

#[test]
fn translated_pattern_ticks_to_translated_result() {
    let base = [(0, 1), (1, 1), (2, 1)];
    let moved: Vec<(isize, isize)> = base.iter().map(|&(x, y)| (x + 7, y - 3)).collect();
    let mut w1 = make_world(&base, 5, 5);
    let mut w2 = make_world(&moved, 5, 5);
    tick(&mut w1);
    tick(&mut w2);
    let r1: Vec<(isize, isize)> = live_cells_sorted(&w1.current)
        .iter()
        .map(|&(x, y)| (x + 7, y - 3))
        .collect();
    assert_eq!(r1, live_cells_sorted(&w2.current));
}

#[test]
fn tick_keeps_current_and_next_in_step() {
    let mut w = make_world(&[(0, 0), (1, 0), (0, 1)], 4, 4);
    tick(&mut w);
    assert_eq!(live_cells_sorted(&w.current), live_cells_sorted(&w.next));
}

#[test]
fn bounding_box_of_empty_set_is_none() {
    let ls = LiveSet::new();
    assert!(bounding_box(&ls).is_none());
}

#[test]
fn bounding_box_spans_all_cells() {
    let ls = make_set(&[(-3, 4), (10, -2), (0, 0)]);
    assert_eq!(bounding_box(&ls), Some((-3, -2, 10, 4)));
}

#[test]
fn bounding_box_of_single_cell_is_that_cell() {
    let ls = make_set(&[(7, -9)]);
    assert_eq!(bounding_box(&ls), Some((7, -9, 7, -9)));
}

#[test]
fn viewport_offset_centers_the_box() {
    assert_eq!(compute_viewport_offset((0, 1, 2, 1), 5, 5), (-1, -1));
}

#[test]
fn viewport_offset_floors_negative_midpoints() {
    assert_eq!(compute_viewport_offset((-3, -3, 0, 0), 2, 2), (-3, -3));
}

#[test]
fn render_marks_live_cells_in_viewport() {
    let w = make_world(&[(0, 1), (1, 1), (2, 1)], 3, 3);
    let rows = render_cells(&w, 0, 0);
    assert_eq!(rows.len(), 3);
    assert_eq!(rows[0], vec![false, false, false]);
    assert_eq!(rows[1], vec![true, true, true]);
    assert_eq!(rows[2], vec![false, false, false]);
}

#[test]
fn render_applies_offset() {
    let w = make_world(&[(5, 7)], 2, 2);
    let rows = render_cells(&w, 5, 7);
    assert_eq!(rows[0], vec![true, false]);
    assert_eq!(rows[1], vec![false, false]);
}

#[test]
fn insert_is_idempotent_and_remove_absent_is_noop() {
    let mut ls = LiveSet::new();
    ls.insert((2, 3));
    ls.insert((2, 3));
    assert_eq!(live_cells_sorted(&ls), vec![(2, 3)]);
    assert!(ls.contains((2, 3)));
    ls.remove((9, 9));
    assert_eq!(live_cells_sorted(&ls), vec![(2, 3)]);
    ls.remove((2, 3));
    assert!(!ls.contains((2, 3)));
    assert_eq!(live_cells_sorted(&ls).len(), 0);
}

#[test]
fn blinker_scenario_end_to_end() {
    let mut w = match init(5, 5, b"[(0,1),(1,1),(2,1)]") {
        Ok(w) => w,
        Err(_) => panic!("seed should parse"),
    };
    assert_eq!(w.height, 5);
    assert_eq!(w.width, 5);
    assert!(w.current.all_in_tick_range());
    tick(&mut w);
    assert_eq!(live_cells_sorted(&w.current), vec![(1, 0), (1, 1), (1, 2)]);
    tick(&mut w);
    assert_eq!(live_cells_sorted(&w.current), vec![(0, 1), (1, 1), (2, 1)]);
}
