//! The display names of movesets and the developer-overlay state.

use chessnt::board::{join, move_to_string, moves_to_string, Move};
use chessnt::ui::{DevUi, DevUiMenu};

#[test]
fn movement_names() {
    assert_eq!(move_to_string(Move::Pawn), "Pawn");
    assert_eq!(move_to_string(Move::Queen), "Queen");
    assert_eq!(move_to_string(Move::Knight), "Knight");
}

#[test]
fn join_puts_the_delimiter_between_words() {
    let words = vec![
        String::from("a"),
        String::from("b"),
        String::from("c"),
    ];
    assert_eq!(join(words, ", "), "a, b, c");
    assert_eq!(join(vec![String::from("solo")], " + "), "solo");
}

#[test]
fn moveset_names_are_joined_with_plus() {
    assert_eq!(moves_to_string(&vec![Move::Rook, Move::Bishop]), "Rook + Bishop");
    assert_eq!(moves_to_string(&vec![Move::King]), "King");
}

#[test]
fn dev_ui_toggles_between_hidden_and_main() {
    let mut ui = DevUi::new();
    assert!(ui.show());
    assert_eq!(ui.menu, DevUiMenu::Main);
    ui.toggle();
    assert!(!ui.show());
    assert_eq!(ui.menu, DevUiMenu::Hidden);
    ui.toggle();
    assert!(ui.show());
}
