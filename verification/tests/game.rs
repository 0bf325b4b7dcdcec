use bombicat::game::{ClickOutcome, Game, GameState};
use bombicat::model::{fill_neighbour_counts, Field, Model};
use bombicat::settings::Preferences;
use bombicat::solver::grid_simulate_reveal;

/// A game on a `w` x `h` board holding cats at the given cells, already running.
fn running(w: usize, h: usize, cats: &[(usize, usize)]) -> Game {
    let mut model = Model::new();
    model.reset(w, h, cats.len());
    for &(x, y) in cats {
        model.data[y * w + x].cat = true;
    }
    fill_neighbour_counts(&mut model.data, w, h);
    Game {
        model,
        state: GameState::Running,
        cat_display: cats.len() as i32,
        gen_attempts: 1,
        exploded: None,
        pending: None,
    }
}

fn uncovered(g: &Game) -> Vec<bool> {
    g.model.data.iter().map(|f| f.discovered).collect()
}

#[test]
fn a_new_game_waits_for_its_first_click() {
    let g = Game::new(&Preferences { level: 0 });
    assert_eq!(g.state, GameState::NotStarted);
    assert_eq!((g.model.width, g.model.height, g.model.total_cats()), (15, 10, 15));
    assert_eq!(g.cat_display, 15);
    assert_eq!(g.model.data.len(), 150);
    assert!(g.model.data.iter().all(|f| !f.cat && !f.discovered && f.flag == 0));
}

#[test]
fn the_first_click_asks_for_a_board() {
    let mut g = Game::new(&Preferences { level: 0 });
    assert_eq!(g.left_click(3, 4), ClickOutcome::Generate);
    assert_eq!(g.pending, Some((3, 4)));
    // while the board is generated, clicks are ignored
    assert_eq!(g.left_click(5, 5), ClickOutcome::Nothing);
    assert_eq!(g.pending, Some((3, 4)));
}

#[test]
fn the_generated_board_opens_at_the_first_click() {
    let mut g = Game::new(&Preferences { level: 0 });
    g.left_click(0, 0);
    let mut data = vec![Field::default(); 150];
    data[14].cat = true; // top right corner
    fill_neighbour_counts(&mut data, 15, 10);
    let won = g.grid_ready(data, 7);
    assert_eq!(g.gen_attempts, 7);
    assert_eq!(g.pending, None);
    // everything opens except the cat: the game is won at once
    assert!(won);
    assert_eq!(g.state, GameState::Won);
    assert_eq!(g.model.discovered_count, 149);
    assert!(!g.model.data[14].discovered);
}

#[test]
fn a_click_opens_the_zeros_around_it() {
    // cats at (3, 0) in a 5 x 1 row
    let mut g = running(5, 1, &[(3, 0)]);
    assert_eq!(g.left_click(0, 0), ClickOutcome::Nothing);
    assert_eq!(uncovered(&g), vec![true, true, true, false, false]);
    assert_eq!(g.model.discovered_count, 3);
    assert_eq!(g.state, GameState::Running);
    assert_eq!(g.left_click(4, 0), ClickOutcome::Won);
    assert_eq!(g.state, GameState::Won);
}

#[test]
fn flags_stop_the_flood() {
    let mut g = running(5, 1, &[(4, 0)]);
    g.right_click(2, 0);
    assert_eq!(g.cat_display, 0);
    g.left_click(0, 0);
    assert_eq!(uncovered(&g), vec![true, true, false, false, false]);
    // a flagged cell ignores left clicks
    assert_eq!(g.left_click(2, 0), ClickOutcome::Nothing);
    assert!(!g.model.data[2].discovered);
}

#[test]
fn clicking_a_cat_loses() {
    let mut g = running(3, 3, &[(2, 1)]);
    assert_eq!(g.left_click(2, 1), ClickOutcome::Nothing);
    assert_eq!(g.state, GameState::Lost);
    assert_eq!(g.exploded, Some((2, 1)));
    // a finished game ignores clicks
    assert_eq!(g.left_click(0, 0), ClickOutcome::Nothing);
    assert!(!g.model.data[0].discovered);
    g.right_click(0, 0);
    assert_eq!(g.model.data[0].flag, 0);
}

#[test]
fn right_clicks_keep_the_cat_count() {
    let mut g = running(3, 3, &[(0, 0), (2, 2)]);
    assert_eq!(g.cat_display, 2);
    g.right_click(1, 1);
    assert_eq!((g.model.data[4].flag, g.cat_display), (1, 1));
    g.right_click(1, 1);
    assert_eq!((g.model.data[4].flag, g.cat_display), (2, 2));
    g.right_click(1, 1);
    assert_eq!((g.model.data[4].flag, g.cat_display), (0, 2));
    g.right_click(0, 0);
    g.right_click(2, 2);
    g.right_click(2, 0);
    assert_eq!(g.cat_display, -1);
    let flags = g.model.data.iter().filter(|f| f.flag == 1).count() as i32;
    assert_eq!(g.cat_display + flags, 2);
}

#[test]
fn right_clicks_on_uncovered_cells_do_nothing() {
    let mut g = running(3, 1, &[(2, 0)]);
    g.left_click(0, 0);
    assert!(g.model.data[0].discovered);
    g.right_click(0, 0);
    assert_eq!(g.model.data[0].flag, 0);
    assert_eq!(g.cat_display, 1);
}

#[test]
fn a_chord_opens_the_neighbours_when_the_flags_match() {
    // a 3 x 3 board with a cat in the top left corner
    let mut g = running(3, 3, &[(0, 0)]);
    g.left_click(1, 1);
    assert_eq!(uncovered(&g), vec![false, false, false, false, true, false, false, false, false]);
    // no flag yet: the chord does nothing
    assert!(!g.chord_click(1, 1));
    assert_eq!(g.model.discovered_count, 1);
    g.right_click(0, 0);
    assert!(g.chord_click(1, 1));
    assert_eq!(g.state, GameState::Won);
    assert_eq!(uncovered(&g), vec![false, true, true, true, true, true, true, true, true]);
    assert_eq!(g.model.discovered_count, 8);
}

#[test]
fn a_wrong_chord_loses() {
    let mut g = running(3, 3, &[(0, 0)]);
    g.left_click(1, 1);
    g.right_click(2, 2);
    assert!(!g.chord_click(1, 1));
    assert_eq!(g.state, GameState::Lost);
    assert_eq!(g.exploded, Some((0, 0)));
}

#[test]
fn revealing_everything_does_not_count_the_cells() {
    let mut g = running(2, 2, &[(1, 1)]);
    g.reveal_all();
    assert!(g.model.data.iter().all(|f| f.discovered));
    assert_eq!(g.model.discovered_count, 0);
    assert!(!g.check_outcome());
    assert_eq!(g.state, GameState::Lost);
    assert_eq!(g.exploded, Some((1, 1)));
}

#[test]
fn a_new_game_resets_everything() {
    let mut g = running(3, 3, &[(0, 0)]);
    g.left_click(0, 0);
    g.new_game(&Preferences { level: 2 });
    assert_eq!(g.state, GameState::NotStarted);
    assert_eq!((g.model.width, g.model.height), (25, 15));
    assert_eq!(g.cat_display, 35);
    assert_eq!(g.exploded, None);
    assert_eq!(g.gen_attempts, 0);
    assert_eq!(g.model.discovered_count, 0);
}

#[test]
fn a_click_opens_what_the_solver_flood_opens() {
    let cats = [(4, 0), (0, 4), (2, 2)];
    for &(x, y) in &[(0, 0), (4, 4), (1, 3), (3, 1)] {
        let mut g = running(5, 5, &cats);
        let data = g.model.data.clone();
        let mut discovered = vec![false; 25];
        grid_simulate_reveal(&data, &mut discovered, 5, 5, x, y);
        g.left_click(x, y);
        assert_eq!(uncovered(&g), discovered);
    }
}
