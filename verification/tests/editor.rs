use std::path::PathBuf;

use bombicat::editor::{EditorState, GridFile, SolvabilityStatus, MAX_H, MAX_W, MIN_H, MIN_W};
use bombicat::scores::Score;

#[test]
fn a_new_editor_grid() {
    let ed = EditorState::new();
    assert_eq!((ed.width, ed.height), (20, 15));
    assert_eq!(ed.width_buf, "20");
    assert_eq!(ed.height_buf, "15");
    assert_eq!(ed.bombs.len(), 300);
    assert_eq!(ed.bomb_count(), 0);
    assert!(ed.path.is_none() && !ed.dirty && ed.error.is_none() && !ed.changed);
    assert!(ed.solvability.is_none() && ed.drag_value.is_none());
}

#[test]
fn painting_cats() {
    let mut ed = EditorState::new();
    ed.paint(3, 2, true);
    assert!(ed.bombs[2 * 20 + 3]);
    assert!(ed.dirty && ed.changed);
    assert_eq!(ed.bomb_count(), 1);
    ed.solvability = Some(SolvabilityStatus::Testing);
    ed.paint(3, 2, true);
    assert_eq!(ed.solvability, Some(SolvabilityStatus::Testing));
    ed.paint(20, 0, true);
    ed.paint(0, 15, true);
    assert_eq!(ed.bomb_count(), 1);
    ed.paint(0, 0, true);
    ed.paint(19, 14, true);
    assert_eq!(ed.bomb_count(), 3);
    ed.paint(3, 2, false);
    assert_eq!(ed.bomb_count(), 2);
    assert_eq!(ed.solvability, None);
}

#[test]
fn clearing_the_grid() {
    let mut ed = EditorState::new();
    ed.paint(1, 1, true);
    ed.paint(2, 1, true);
    ed.dirty = false;
    ed.clear();
    assert_eq!(ed.bomb_count(), 0);
    assert_eq!(ed.bombs.len(), 300);
    assert!(ed.dirty && ed.changed);
}

#[test]
fn resizing_keeps_the_overlap() {
    let mut ed = EditorState::new();
    ed.paint(0, 0, true);
    ed.paint(19, 0, true);
    ed.paint(4, 9, true);
    ed.width_buf = "10".to_string();
    ed.height_buf = "12".to_string();
    assert!(ed.apply_size());
    assert_eq!((ed.width, ed.height), (10, 12));
    assert_eq!(ed.bombs.len(), 120);
    assert!(ed.bombs[0]);
    assert!(ed.bombs[9 * 10 + 4]);
    assert_eq!(ed.bomb_count(), 2);
    assert!(ed.dirty && ed.changed);
    // applying the same text again changes nothing
    assert!(!ed.apply_size());
    assert_eq!((ed.width, ed.height), (10, 12));
}

#[test]
fn sizes_are_clamped_and_text_falls_back() {
    let mut ed = EditorState::new();
    ed.width_buf = "3".to_string();
    ed.height_buf = "1000".to_string();
    assert!(ed.apply_size());
    assert_eq!((ed.width, ed.height), (MIN_W, MAX_H));
    assert_eq!(ed.width_buf, "5");
    assert_eq!(ed.height_buf, "40");
    ed.width_buf = "wide".to_string();
    ed.height_buf = "+7".to_string();
    assert!(ed.apply_size());
    assert_eq!((ed.width, ed.height), (5, 7));
    assert_eq!(ed.width_buf, "5");
    assert_eq!(ed.height_buf, "7");
    ed.width_buf = " 9".to_string();
    ed.height_buf = "".to_string();
    assert!(!ed.apply_size());
    ed.width_buf = "99999999999999999999999".to_string();
    assert!(!ed.apply_size());
    assert_eq!(ed.width, 5);
    ed.width_buf = "60".to_string();
    ed.height_buf = "-3".to_string();
    assert!(ed.apply_size());
    assert_eq!((ed.width, ed.height), (MAX_W, 7));
    assert_eq!(MIN_H, 5);
}

#[test]
fn the_saved_grid_lists_its_cats_in_order() {
    let mut ed = EditorState::new();
    ed.paint(5, 3, true);
    ed.paint(1, 0, true);
    ed.paint(19, 14, true);
    let gf = ed.grid_file();
    assert_eq!(gf.version, 1);
    assert_eq!((gf.width, gf.height), (20, 15));
    assert_eq!(gf.bombs, vec![(1, 0), (5, 3), (19, 14)]);
}

#[test]
fn saving_then_loading_gives_the_grid_back() {
    let mut ed = EditorState::new();
    ed.width_buf = "7".to_string();
    ed.height_buf = "6".to_string();
    ed.apply_size();
    ed.paint(0, 0, true);
    ed.paint(6, 5, true);
    ed.paint(3, 2, true);
    let gf = ed.grid_file();
    let loaded = EditorState::from_grid_file(&gf, PathBuf::from("grid.json"));
    assert_eq!((loaded.width, loaded.height), (7, 6));
    assert_eq!(loaded.bombs, ed.bombs);
    assert_eq!(loaded.width_buf, "7");
    assert_eq!(loaded.path, Some(PathBuf::from("grid.json")));
    assert!(!loaded.dirty && loaded.changed && loaded.error.is_none());
}

#[test]
fn loading_clamps_and_drops_cats_off_the_grid() {
    let gf = GridFile { version: 1, width: 2, height: 100, bombs: vec![(1, 1), (7, 0), (0, 45), (4, 39)] };
    let ed = EditorState::from_grid_file(&gf, PathBuf::from("x"));
    assert_eq!((ed.width, ed.height), (5, 40));
    assert_eq!(ed.bomb_count(), 2);
    assert!(ed.bombs[1 * 5 + 1]);
    assert!(ed.bombs[39 * 5 + 4]);
}

#[test]
fn finishing_a_save() {
    let mut ed = EditorState::new();
    ed.paint(1, 1, true);
    ed.finish_save(Err("Erreur : disque plein".to_string()));
    assert_eq!(ed.error.as_deref(), Some("Erreur : disque plein"));
    assert!(ed.dirty);
    ed.finish_save(Ok(PathBuf::from("a.json")));
    assert_eq!(ed.path, Some(PathBuf::from("a.json")));
    assert!(!ed.dirty);
    assert!(ed.error.is_none());
}

#[test]
fn a_score_record() {
    let s = Score { name: "Chat".to_string(), time: 42 };
    let t = s.clone();
    assert_eq!(t.name, "Chat");
    assert_eq!(t.time, 42);
}

#[test]
fn a_save_keeps_the_text_fields_and_the_drag() {
    let mut ed = EditorState::new();
    ed.width_buf = "3x".to_string();
    ed.drag_value = Some(true);
    ed.dirty = true;
    ed.finish_save(Ok(PathBuf::from("b.json")));
    assert_eq!(ed.width_buf, "3x");
    assert_eq!(ed.height_buf, "15");
    assert_eq!(ed.drag_value, Some(true));
    assert_eq!(ed.path, Some(PathBuf::from("b.json")));
    assert!(!ed.dirty && ed.error.is_none());
}

/// An editor on a `w` x `h` grid with cats at the given cells, sizes outside the limits allowed.
fn editor_of(w: usize, h: usize, cats: &[usize]) -> EditorState {
    let mut ed = EditorState::new();
    ed.width = w;
    ed.height = h;
    ed.width_buf = w.to_string();
    ed.height_buf = h.to_string();
    ed.bombs = vec![false; w * h];
    for &i in cats {
        ed.bombs[i] = true;
    }
    ed
}

#[test]
fn a_small_grid_is_saved_and_resized() {
    let ed = editor_of(3, 2, &[1, 5]);
    let gf = ed.grid_file();
    assert_eq!((gf.version, gf.width, gf.height), (1, 3, 2));
    assert_eq!(gf.bombs, vec![(1, 0), (2, 1)]);

    // the text fields ask for the current size: clamped, it grows to the minimum
    let mut ed = editor_of(3, 2, &[1, 5]);
    assert!(ed.apply_size());
    assert_eq!((ed.width, ed.height), (MIN_W, MIN_H));
    assert_eq!(ed.width_buf, MIN_W.to_string());
    assert_eq!(ed.bombs.len(), MIN_W * MIN_H);
    assert!(ed.bombs[1] && ed.bombs[MIN_W + 2]);
    assert_eq!(ed.bomb_count(), 2);

    // a grid too wide, whose fields ask for the same size, is cut to the maximum
    let mut ed = editor_of(MAX_W + 2, MIN_H, &[MAX_W + 1, 0]);
    assert!(ed.apply_size());
    assert_eq!((ed.width, ed.height), (MAX_W, MIN_H));
    assert_eq!(ed.bomb_count(), 1);
}

#[test]
fn an_unchanged_size_leaves_the_editor_alone() {
    let mut ed = EditorState::new();
    ed.width_buf = "vingt".to_string();
    ed.changed = false;
    ed.dirty = false;
    assert!(!ed.apply_size());
    assert_eq!(ed.width_buf, "vingt");
    assert!(!ed.changed && !ed.dirty);
}
