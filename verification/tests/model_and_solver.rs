use std::collections::HashSet;

use bombicat::model::{
    fill_neighbour_counts, finish_candidate, free_cells, generate_candidate, place_cats, place_cats_from,
    safe_zone, Field,
    Model,
};
use bombicat::solver::{grid_is_solvable, grid_simulate_reveal};
use rand::rngs::StdRng;
use rand::SeedableRng;

/// A board of `w` x `h` with cats at the given cells and its numbers written in.
fn board(w: usize, h: usize, cats: &[(usize, usize)]) -> Vec<Field> {
    let mut data = vec![Field::default(); w * h];
    for &(x, y) in cats {
        data[y * w + x].cat = true;
    }
    fill_neighbour_counts(&mut data, w, h);
    data
}

#[test]
fn default_field_is_blank() {
    let f = Field::default();
    assert!(!f.cat && !f.discovered);
    assert_eq!(f.flag, 0);
    assert_eq!(f.neighbours, 0);
}

#[test]
fn model_reset_and_validity() {
    let mut m = Model::new();
    assert_eq!(m.width, 0);
    assert_eq!(m.data.len(), 0);
    m.reset(4, 3, 2);
    assert_eq!((m.width, m.height, m.total_cats()), (4, 3, 2));
    assert_eq!(m.data.len(), 12);
    assert!(m.is_valid(0, 0));
    assert!(m.is_valid(3, 2));
    assert!(!m.is_valid(4, 0));
    assert!(!m.is_valid(0, 3));
    assert!(!m.is_valid(-1, 1));
}

#[test]
fn discover_counts_each_cell_once() {
    let mut m = Model::new();
    m.reset(3, 3, 1);
    m.discover(1, 2);
    assert!(m.field(1, 2).discovered);
    assert_eq!(m.discovered_count, 1);
    m.discover(1, 2);
    assert_eq!(m.discovered_count, 1);
    m.field_mut(0, 0).flag = 1;
    m.discover(0, 0);
    assert!(!m.field(0, 0).discovered);
    assert_eq!(m.discovered_count, 1);
}

#[test]
fn disarm_cycles_markers() {
    let mut m = Model::new();
    m.reset(3, 3, 1);
    assert_eq!(m.disarm(1, 1), -1);
    assert_eq!(m.field(1, 1).flag, 1);
    assert!(m.get_flag(1, 1));
    assert_eq!(m.disarm(1, 1), 1);
    assert_eq!(m.field(1, 1).flag, 2);
    assert!(!m.get_flag(1, 1));
    assert_eq!(m.disarm(1, 1), 0);
    assert_eq!(m.field(1, 1).flag, 0);
    m.discover(0, 0);
    assert_eq!(m.disarm(0, 0), 0);
    assert_eq!(m.field(0, 0).flag, 0);
}

#[test]
fn flags_around_a_cell() {
    let mut m = Model::new();
    m.reset(3, 3, 3);
    m.disarm(0, 0);
    m.disarm(2, 2);
    m.disarm(1, 0);
    m.disarm(1, 0); // question mark: not a flag
    assert_eq!(m.count_flags_around(1, 1), 2);
    assert_eq!(m.count_flags_around(0, 0), 0);
    assert_eq!(m.count_flags_around(0, 1), 1);
    assert!(!m.get_flag(-1, 0));
    assert!(!m.get_flag(3, 0));
}

#[test]
fn winning_and_exploding() {
    let mut m = Model::new();
    m.reset(2, 2, 1);
    m.data = board(2, 2, &[(1, 1)]);
    assert!(!m.check_win());
    m.discover(0, 0);
    m.discover(1, 0);
    assert!(!m.check_win());
    m.discover(0, 1);
    assert!(m.check_win());
    assert!(!m.any_discovered_cat());
    assert_eq!(m.find_exploded(), None);
    m.discover(1, 1);
    assert!(m.any_discovered_cat());
    assert_eq!(m.find_exploded(), Some((1, 1)));
}

#[test]
fn numbers_count_the_block() {
    let data = board(3, 3, &[(1, 1)]);
    for y in 0..3 {
        for x in 0..3 {
            assert_eq!(data[y * 3 + x].neighbours, 1);
        }
    }
    let data = board(4, 2, &[(0, 0), (3, 1)]);
    let numbers: Vec<u8> = data.iter().map(|f| f.neighbours).collect();
    assert_eq!(numbers, vec![1, 1, 1, 1, 1, 1, 1, 1]);
    let data = board(3, 1, &[(0, 0), (2, 0)]);
    let numbers: Vec<u8> = data.iter().map(|f| f.neighbours).collect();
    assert_eq!(numbers, vec![1, 2, 1]);
}

#[test]
fn safe_zone_is_the_block_around_the_click() {
    let s = safe_zone(5, 5, 0, 0);
    let expected: HashSet<usize> = [0, 1, 5, 6].into_iter().collect();
    assert_eq!(s, expected);
    let s = safe_zone(5, 5, 2, 2);
    let expected: HashSet<usize> = [6, 7, 8, 11, 12, 13, 16, 17, 18].into_iter().collect();
    assert_eq!(s, expected);
    let s = safe_zone(4, 3, 3, 2);
    let expected: HashSet<usize> = [6, 7, 10, 11].into_iter().collect();
    assert_eq!(s, expected);
}

#[test]
fn free_cells_leave_out_the_safe_zone() {
    let safe = safe_zone(4, 3, 0, 0);
    assert_eq!(free_cells(12, &safe), vec![2, 3, 6, 7, 8, 9, 10, 11]);
    let safe = safe_zone(3, 3, 1, 1);
    assert!(free_cells(9, &safe).is_empty());
    assert_eq!(free_cells(3, &HashSet::new()), vec![0, 1, 2]);
}

#[test]
fn cats_are_never_placed_in_the_safe_zone() {
    let mut rng = StdRng::seed_from_u64(7);
    let safe = safe_zone(4, 3, 0, 0);
    let free = free_cells(12, &safe);
    for total in 0..=free.len() {
        let data = place_cats(&mut rng, 12, &free, total);
        assert_eq!(data.len(), 12);
        assert_eq!(data.iter().filter(|f| f.cat).count(), total);
        for i in 0..12 {
            if safe.contains(&i) {
                assert!(!data[i].cat);
            }
            assert!(!data[i].discovered && data[i].flag == 0 && data[i].neighbours == 0);
        }
    }
    let data = place_cats(&mut rng, 12, &free, free.len());
    for i in 0..12 {
        assert_eq!(data[i].cat, !safe.contains(&i));
    }
}

#[test]
fn accepted_candidates_are_solvable() {
    let mut rng = StdRng::seed_from_u64(11);
    let (w, h, cats, sx, sy) = (6, 6, 5, 2, 3);
    let safe = safe_zone(w, h, sx, sy);
    let free = free_cells(w * h, &safe);
    let mut accepted = 0;
    for _ in 0..50 {
        if let Some(board) = generate_candidate(&mut rng, &free, w, h, cats, sx, sy) {
            accepted += 1;
            assert_eq!(board.iter().filter(|f| f.cat).count(), cats);
            for &i in safe.iter() {
                assert!(!board[i].cat);
            }
            assert!(grid_is_solvable(&board, w, h, cats, sx, sy));
        }
    }
    assert!(accepted > 0);
}

#[test]
fn flood_reveal_stops_at_numbers() {
    // cells 0..5 in a row, a cat at 3
    let data = board(5, 1, &[(3, 0)]);
    let mut discovered = vec![false; 5];
    grid_simulate_reveal(&data, &mut discovered, 5, 1, 0, 0);
    assert_eq!(discovered, vec![true, true, true, false, false]);
    let mut discovered = vec![false; 5];
    grid_simulate_reveal(&data, &mut discovered, 5, 1, 3, 0);
    assert_eq!(discovered, vec![false; 5]);
    grid_simulate_reveal(&data, &mut discovered, 5, 1, 4, 0);
    assert_eq!(discovered, vec![false, false, false, false, true]);
}

#[test]
fn solvable_by_local_and_global_rules() {
    assert!(grid_is_solvable(&board(5, 1, &[(3, 0)]), 5, 1, 1, 0, 0));
    assert!(grid_is_solvable(&board(3, 3, &[(2, 2)]), 3, 3, 1, 0, 0));
    let data = board(4, 4, &[(3, 0)]);
    assert!(grid_is_solvable(&data, 4, 4, 1, 0, 1));
}

#[test]
fn a_fifty_fifty_is_refused() {
    // the cat is at the bottom left or right: nothing tells which
    let data = board(2, 3, &[(0, 2)]);
    assert!(!grid_is_solvable(&data, 2, 3, 1, 0, 0));
    let data = board(2, 3, &[(1, 2)]);
    assert!(!grid_is_solvable(&data, 2, 3, 1, 0, 0));
}

#[test]
fn a_column_of_unknowns_is_refused() {
    // two cats in the last column, four cells that the numbers cannot tell apart
    let data = board(4, 4, &[(3, 3), (3, 0)]);
    assert!(!grid_is_solvable(&data, 4, 4, 2, 0, 1));
}

#[test]
fn clicking_a_cat_solves_nothing() {
    let data = board(3, 3, &[(0, 0)]);
    assert!(!grid_is_solvable(&data, 3, 3, 1, 0, 0));
}

#[test]
fn candidates_are_finished_and_tested() {
    let mut data = vec![Field::default(); 9];
    data[8].cat = true;
    let r = finish_candidate(data.clone(), 3, 3, 1, 0, 0).expect("solvable");
    let numbers: Vec<u8> = r.iter().map(|f| f.neighbours).collect();
    assert_eq!(numbers, vec![0, 0, 0, 0, 1, 1, 0, 1, 1]);
    assert!(finish_candidate(data.clone(), 3, 3, 2, 0, 0).is_none());
    let mut fifty = vec![Field::default(); 6];
    fifty[4].cat = true;
    assert!(finish_candidate(fifty, 2, 3, 1, 0, 0).is_none());
}

#[test]
fn flood_reveal_on_any_board() {
    // numbers that disagree with the cats: the flood follows the numbers
    let mut data = vec![Field::default(); 4];
    data[2].cat = true;
    let mut discovered = vec![false; 4];
    grid_simulate_reveal(&data, &mut discovered, 4, 1, 0, 0);
    assert_eq!(discovered, vec![true, true, false, false]);
    // a cell already uncovered is not opened from, even when it is a zero
    let data = board(5, 1, &[]);
    let mut discovered = vec![false, false, true, false, false];
    grid_simulate_reveal(&data, &mut discovered, 5, 1, 2, 0);
    assert_eq!(discovered, vec![false, false, true, false, false]);
    grid_simulate_reveal(&data, &mut discovered, 5, 1, 4, 0);
    assert_eq!(discovered, vec![false, false, true, true, true]);
    // an uncovered cat stays uncovered, and the flood does not cover it again
    let data = board(3, 1, &[(0, 0)]);
    let mut discovered = vec![true, false, false];
    grid_simulate_reveal(&data, &mut discovered, 3, 1, 2, 0);
    assert_eq!(discovered, vec![true, true, true]);
}

/// The board turned by one of the three symmetries, with its new size.
fn turned(kind: usize, data: &[Field], w: usize, h: usize) -> (Vec<Field>, usize, usize) {
    let (w2, h2) = if kind == 0 { (h, w) } else { (w, h) };
    let mut out = vec![Field::default(); w * h];
    for y in 0..h {
        for x in 0..w {
            let (x2, y2) = match kind {
                0 => (y, x),
                1 => (w - 1 - x, y),
                _ => (x, h - 1 - y),
            };
            out[y2 * w2 + x2] = data[y * w + x];
        }
    }
    (out, w2, h2)
}

fn turned_click(kind: usize, w: usize, h: usize, x: usize, y: usize) -> (usize, usize) {
    match kind {
        0 => (y, x),
        1 => (w - 1 - x, y),
        _ => (x, h - 1 - y),
    }
}

#[test]
fn the_answer_does_not_depend_on_how_the_board_is_turned() {
    let cases: Vec<(usize, usize, Vec<(usize, usize)>, usize, usize, bool)> = vec![
        (5, 1, vec![(3, 0)], 0, 0, true),
        (4, 4, vec![(3, 0)], 0, 1, true),
        (2, 3, vec![(0, 2)], 0, 0, false),
        (4, 4, vec![(3, 3), (3, 0)], 0, 1, false),
        (6, 4, vec![(5, 0), (0, 3)], 2, 1, true),
    ];
    for (w, h, cats, sx, sy, expected) in cases {
        let data = board(w, h, &cats);
        assert_eq!(grid_is_solvable(&data, w, h, cats.len(), sx, sy), expected);
        for kind in 0..3 {
            let (t, w2, h2) = turned(kind, &data, w, h);
            let (tx, ty) = turned_click(kind, w, h, sx, sy);
            assert_eq!(grid_is_solvable(&t, w2, h2, cats.len(), tx, ty), expected);
        }
    }
}

#[test]
fn draws_pick_cells_from_the_pool() {
    let free = vec![2, 3, 6, 7, 8, 9, 10, 11];
    // the first draw takes 2 and moves 11 to the front; the second takes 11;
    // the pool is then [10, 3, 6, 7, 8, 9] and the third takes 9
    let data = place_cats_from(12, &free, &vec![0, 0, 5]);
    let cats: Vec<usize> = (0..12).filter(|&i| data[i].cat).collect();
    assert_eq!(cats, vec![2, 9, 11]);
    assert!(data.iter().all(|f| !f.discovered && f.flag == 0 && f.neighbours == 0));
    let data = place_cats_from(12, &free, &vec![]);
    assert!(data.iter().all(|f| !f.cat));
    let data = place_cats_from(12, &free, &vec![7, 6, 5, 4, 3, 2, 1, 0]);
    assert_eq!(data.iter().filter(|f| f.cat).count(), 8);
}
