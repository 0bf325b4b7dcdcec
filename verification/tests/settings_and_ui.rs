use bombicat::game::GameState;
use bombicat::model::Field;
use bombicat::settings::Preferences;
use bombicat::ui::{cell_look, face_for, lcd_text, release_action, status_line, CellLook, ClickKind, FaceKind};

#[test]
fn level_table_matches_readme() {
    assert_eq!(Preferences::level_params(0), (15, 10, 15));
    assert_eq!(Preferences::level_params(1), (20, 15, 25));
    assert_eq!(Preferences::level_params(2), (25, 15, 35));
    assert_eq!(Preferences::level_params(3), (27, 20, 110));
    assert_eq!(Preferences::level_params(4), (35, 22, 160));
    assert_eq!(Preferences::level_params(5), (40, 25, 215));
    assert_eq!(Preferences::level_params(6), (15, 15, 25));
    assert_eq!(Preferences::level_params(usize::MAX), (15, 15, 25));
}

#[test]
fn level_names() {
    assert_eq!(Preferences::level_name(0), "Débutant");
    assert_eq!(Preferences::level_name(1), "Normal");
    assert_eq!(Preferences::level_name(2), "Difficile");
    assert_eq!(Preferences::level_name(3), "Ultra Difficile");
    assert_eq!(Preferences::level_name(4), "Géant");
    assert_eq!(Preferences::level_name(5), "Chuck Norris");
    assert_eq!(Preferences::level_name(7), "?");
}

#[test]
fn default_preferences_are_normal() {
    let p = Preferences::default();
    assert_eq!(p.level, 1);
    assert_eq!(p.effective_dims(), (20, 15, 25));
    let q = Preferences { level: 5 };
    assert_eq!(q.effective_dims(), (40, 25, 215));
}

#[test]
fn every_level_leaves_room_for_the_safe_block() {
    for level in 0..8 {
        let (w, h, cats) = Preferences::level_params(level);
        assert!(w >= 3 && h >= 3);
        assert!(cats + 9 <= w * h);
    }
}

#[test]
fn faces() {
    assert_eq!(face_for(GameState::Won, true), FaceKind::Happy);
    assert_eq!(face_for(GameState::Lost, false), FaceKind::Sad);
    assert_eq!(face_for(GameState::Running, true), FaceKind::Fear);
    assert_eq!(face_for(GameState::NotStarted, false), FaceKind::Normal);
}

#[test]
fn button_releases() {
    assert_eq!(release_action(false, true, false, false), Some(ClickKind::Right));
    assert_eq!(release_action(true, false, false, true), Some(ClickKind::Chord));
    assert_eq!(release_action(true, false, false, false), Some(ClickKind::Left));
    assert_eq!(release_action(false, true, true, false), None);
    assert_eq!(release_action(false, false, false, false), None);
}

fn field(cat: bool, discovered: bool, flag: u8, neighbours: u8) -> Field {
    Field { cat, discovered, flag, neighbours }
}

#[test]
fn cell_looks_while_playing() {
    assert_eq!(cell_look(&field(false, false, 0, 0), true, false), CellLook::Covered);
    assert_eq!(cell_look(&field(true, false, 1, 1), true, false), CellLook::Flag);
    assert_eq!(cell_look(&field(false, false, 2, 0), true, false), CellLook::Question);
    assert_eq!(cell_look(&field(false, true, 0, 3), true, false), CellLook::Number(3));
    assert_eq!(cell_look(&field(false, true, 0, 0), true, false), CellLook::Open);
    assert_eq!(cell_look(&field(true, true, 0, 1), true, false), CellLook::Cat);
    assert_eq!(cell_look(&field(true, true, 0, 1), false, true), CellLook::Exploded);
}

#[test]
fn cell_looks_after_the_game() {
    assert_eq!(cell_look(&field(true, false, 1, 1), false, false), CellLook::Flag);
    assert_eq!(cell_look(&field(false, false, 1, 1), false, false), CellLook::WrongFlag);
    assert_eq!(cell_look(&field(true, false, 0, 1), false, false), CellLook::HiddenCat);
    assert_eq!(cell_look(&field(true, false, 2, 1), false, false), CellLook::HiddenCat);
    assert_eq!(cell_look(&field(false, false, 2, 0), false, false), CellLook::Covered);
    assert_eq!(cell_look(&field(false, true, 0, 2), false, false), CellLook::Number(2));
}

#[test]
fn status_lines() {
    assert_eq!(status_line(GameState::Lost, 1, 3), "Malheureusement, tu as perdu.");
    assert_eq!(status_line(GameState::Won, 1, 3), "Tu as gagné !");
    assert_eq!(status_line(GameState::NotStarted, 0, 0), "Débutant — 15 BombaCat");
    assert_eq!(
        status_line(GameState::Running, 5, 1),
        "Chuck Norris — 215 BombaCat  (grille résoluble générée en 1 essai.)"
    );
    assert_eq!(
        status_line(GameState::Running, 3, 12),
        "Ultra Difficile — 110 BombaCat  (grille résoluble générée en 12 essais.)"
    );
}

#[test]
fn counter_display() {
    assert_eq!(lcd_text(5), "005");
    assert_eq!(lcd_text(42), "042");
    assert_eq!(lcd_text(215), "215");
    assert_eq!(lcd_text(0), "000");
    assert_eq!(lcd_text(-5), "-05");
    assert_eq!(lcd_text(-42), "-42");
    assert_eq!(lcd_text(1234), "999");
    assert_eq!(lcd_text(-150), "-99");
    for v in -120..1100 {
        assert_eq!(lcd_text(v), format!("{:03}", v.clamp(-99, 999)));
    }
}
