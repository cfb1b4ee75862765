use rust_lander::end_screen::{EndScreen, KeyPress, RowColour};

fn named(s: &str) -> KeyPress {
    KeyPress::Named(String::from(s))
}

#[test]
fn new_end_screen() {
    let e = EndScreen::new();
    assert!(!e.new_entry());
    assert!(!e.space());
    assert_eq!(e.tick(), 0);
    assert_eq!(e.keyboard_input(), "");
    assert_eq!(e.high_score_table().len(), 0);
}

#[test]
fn game_over_at_asks_for_a_name() {
    let mut e = EndScreen::new();
    e.game_over_at(120, 2, 0);
    assert!(e.new_entry());
    assert_eq!(e.high_score_table().len(), 1);
}

#[test]
fn typing_a_name() {
    let mut e = EndScreen::new();
    e.game_over_at(120, 2, 0);
    e.handle_keyboard(&vec![named("A"), named("B"), KeyPress::Space, named("C")]);
    assert_eq!(e.keyboard_input(), "AB C");
    // Space while typing a name does not ask for another game.
    assert!(!e.space());
    e.handle_keyboard(&vec![KeyPress::Backspace]);
    assert_eq!(e.keyboard_input(), "AB ");
    // Keys with longer names, or names of several bytes, type nothing.
    e.handle_keyboard(&vec![named("Left Shift"), named("§")]);
    assert_eq!(e.keyboard_input(), "AB ");
    e.handle_keyboard(&vec![KeyPress::Backspace, KeyPress::Backspace, KeyPress::Backspace, KeyPress::Backspace]);
    assert_eq!(e.keyboard_input(), "");
}

#[test]
fn return_finishes_the_name_on_the_next_frame() {
    let mut e = EndScreen::new();
    e.game_over_at(120, 2, 0);
    e.handle_keyboard(&vec![named("J"), named("O"), KeyPress::Return]);
    assert!(e.new_entry());
    e.advance_frame();
    assert!(!e.new_entry());
    assert_eq!(e.high_score_table().line(0).by, "JO");
}

#[test]
fn six_characters_finish_the_name_at_five() {
    let mut e = EndScreen::new();
    e.game_over_at(120, 2, 0);
    let keys: Vec<KeyPress> = ["A", "B", "C", "D", "E"].iter().map(|s| named(s)).collect();
    e.handle_keyboard(&keys);
    e.advance_frame();
    assert!(e.new_entry());
    e.handle_keyboard(&vec![named("F")]);
    e.advance_frame();
    assert!(!e.new_entry());
    assert_eq!(e.keyboard_input(), "ABCDE");
    assert_eq!(e.high_score_table().line(0).by, "ABCDE");
}

#[test]
fn space_asks_for_another_game_once_named() {
    let mut e = EndScreen::new();
    e.game_over_at(120, 2, 0);
    e.handle_keyboard(&vec![KeyPress::Return]);
    e.advance_frame();
    e.handle_keyboard(&vec![KeyPress::Space]);
    assert!(e.space());
    e.game_over_at(5, 1, 0);
    assert!(!e.space());
}

#[test]
fn frames_flash_every_sixty() {
    let mut e = EndScreen::new();
    e.game_over_at(120, 2, 0);
    e.handle_keyboard(&vec![KeyPress::Return]);
    for _ in 0..59 {
        e.advance_frame();
    }
    assert!(matches!(e.row_colour(0), RowColour::Highlight { bright: true }));
    e.advance_frame();
    assert_eq!(e.tick(), 60);
    assert!(matches!(e.row_colour(0), RowColour::Highlight { bright: false }));
}

#[test]
fn other_lines_cycle_through_the_palette() {
    let mut e = EndScreen::new();
    e.game_over_at(300, 1, 0);
    e.game_over_at(200, 1, 0);
    e.game_over_at(100, 1, 0);
    e.game_over_at(50, 1, 0);
    e.game_over_at(400, 1, 0);
    // Row 0 holds the last game.
    assert!(matches!(e.row_colour(0), RowColour::Highlight { bright: true }));
    assert!(matches!(e.row_colour(1), RowColour::Palette(2)));
    assert!(matches!(e.row_colour(2), RowColour::Palette(3)));
    assert!(matches!(e.row_colour(3), RowColour::Palette(0)));
    assert!(matches!(e.row_colour(4), RowColour::Palette(1)));
}

#[test]
fn missing_the_table_asks_for_no_name() {
    let mut e = EndScreen::new();
    for _ in 0..10 {
        e.game_over_at(100, 1, 0);
        e.handle_keyboard(&vec![KeyPress::Return]);
        e.advance_frame();
    }
    e.game_over_at(1, 1, 0);
    assert!(!e.new_entry());
    e.handle_keyboard(&vec![KeyPress::Space]);
    assert!(e.space());
}

#[test]
fn game_over_reads_the_clock() {
    let mut e = EndScreen::new();
    e.game_over(10, 1);
    assert!(e.new_entry());
    assert!(e.high_score_table().line(0).when > 1_600_000_000);
}
