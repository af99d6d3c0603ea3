use solitaire::card::{Card, Suit};
use solitaire::session::Session;
use solitaire::validate::{
    cell_allowed, census_within_deck, copies_in_stack, copies_on_board, deck_copies, is_run_of,
    only_deck_cards, rose_allowed, well_formed,
};

fn card(word: &str) -> Card {
    let suit = match &word[0..1] {
        "R" => Suit::Red,
        "G" => Suit::Green,
        "B" => Suit::Black,
        _ => Suit::Rose,
    };
    let value = if &word[1..] == "D" { -1 } else { word[1..].parse().unwrap() };
    Card::new(suit, value)
}

fn pile(text: &str) -> Vec<Card> {
    text.split_whitespace().map(card).collect()
}

fn board(slots: &[(usize, &str)]) -> Vec<Vec<Card>> {
    let mut board: Vec<Vec<Card>> = vec![Vec::new(); 15];
    for (slot, text) in slots {
        board[*slot] = pile(text);
    }
    board
}

#[test]
fn deck_copies_counts_the_deck() {
    for suit in [Suit::Red, Suit::Green, Suit::Black] {
        assert_eq!(deck_copies(Card::new(suit, -1)), 4);
        for value in 1..=9 {
            assert_eq!(deck_copies(Card::new(suit, value)), 1);
        }
        assert_eq!(deck_copies(Card::new(suit, 0)), 0);
        assert_eq!(deck_copies(Card::new(suit, 10)), 0);
        assert_eq!(deck_copies(Card::new(suit, -2)), 0);
    }
    assert_eq!(deck_copies(Card::new(Suit::Rose, -1)), 1);
    assert_eq!(deck_copies(Card::new(Suit::Rose, 1)), 0);
    assert!(only_deck_cards(&pile("R1 GD ZD B9")));
    assert!(!only_deck_cards(&pile("R1 G10")));
    assert!(!only_deck_cards(&pile("Z3")));
    assert!(only_deck_cards(&Vec::new()));
}

#[test]
fn holding_cell_takes_nothing_one_card_or_a_sealed_set() {
    assert!(cell_allowed(&Vec::new()));
    assert!(cell_allowed(&pile("R5")));
    assert!(cell_allowed(&pile("GD")));
    assert!(cell_allowed(&pile("GD GD GD GD")));
    assert!(!cell_allowed(&pile("GD GD")));
    assert!(!cell_allowed(&pile("GD GD GD")));
    assert!(!cell_allowed(&pile("GD GD GD RD")));
    assert!(!cell_allowed(&pile("R1 R1 R1 R1")));
    assert!(!cell_allowed(&pile("ZD ZD ZD ZD")));
    assert!(!cell_allowed(&pile("GD GD GD GD GD")));
}

#[test]
fn foundation_is_a_run_from_one() {
    assert!(is_run_of(&Vec::new(), Suit::Red));
    assert!(is_run_of(&pile("R1"), Suit::Red));
    assert!(is_run_of(&pile("R1 R2 R3"), Suit::Red));
    assert!(!is_run_of(&pile("R1 R3"), Suit::Red));
    assert!(!is_run_of(&pile("R2"), Suit::Red));
    assert!(!is_run_of(&pile("R1 G2"), Suit::Red));
    assert!(!is_run_of(&pile("R1 R2"), Suit::Green));
    assert!(!is_run_of(&pile("RD"), Suit::Red));
    assert!(rose_allowed(&Vec::new()));
    assert!(rose_allowed(&pile("ZD")));
    assert!(!rose_allowed(&pile("ZD ZD")));
    assert!(!rose_allowed(&pile("R1")));
    assert!(!rose_allowed(&pile("Z1")));
}

#[test]
fn copies_are_counted_over_stacks_and_boards() {
    let stack = pile("GD R5 GD B2 GD");
    assert_eq!(copies_in_stack(&stack, card("GD")), 3);
    assert_eq!(copies_in_stack(&stack, card("R5")), 1);
    assert_eq!(copies_in_stack(&stack, card("R6")), 0);
    assert_eq!(copies_in_stack(&Vec::new(), card("R6")), 0);
    let stacks = board(&[(0, "GD R5"), (4, "GD"), (9, "GD"), (14, "ZD")]);
    assert_eq!(copies_on_board(&stacks, card("GD")), 3);
    assert_eq!(copies_on_board(&stacks, card("ZD")), 1);
    assert_eq!(copies_on_board(&stacks, card("BD")), 0);
    assert_eq!(copies_on_board(&Vec::new(), card("BD")), 0);
}

#[test]
fn census_counts_board_and_hand_together() {
    assert!(census_within_deck(&board(&[(0, "GD GD"), (1, "GD")]), &pile("GD")));
    assert!(!census_within_deck(&board(&[(0, "GD GD"), (1, "GD GD")]), &pile("GD")));
    assert!(!census_within_deck(&board(&[(0, "R5")]), &pile("R5")));
    assert!(!census_within_deck(&board(&[(0, "R5"), (7, "R5")]), &Vec::new()));
    assert!(!census_within_deck(&board(&[(0, "R10")]), &Vec::new()));
    assert!(!census_within_deck(&board(&[]), &pile("Z2")));
    assert!(census_within_deck(&board(&[]), &Vec::new()));
}

#[test]
fn well_formed_accepts_a_dealt_board_and_an_empty_one() {
    let dealt = Session::new_game(3);
    assert!(well_formed(dealt.board(), dealt.hand()));
    assert!(well_formed(&board(&[]), &Vec::new()));
    assert!(Session::from_parts(board(&[]), Vec::new(), 0).is_some());
}

#[test]
fn from_parts_keeps_what_it_is_given() {
    let stacks = board(&[(0, "R2 B9"), (8, "G4"), (11, "R1"), (14, "ZD")]);
    let session = Session::from_parts(stacks.clone(), pile("B8 R7"), 5).unwrap();
    assert_eq!(session.board(), &stacks);
    assert_eq!(session.hand(), &pile("B8 R7"));
    assert_eq!(session.recentgrab(), 5);
}

#[test]
fn from_parts_wants_fifteen_slots() {
    assert!(Session::from_parts(vec![Vec::new(); 14], Vec::new(), 0).is_none());
    assert!(Session::from_parts(vec![Vec::new(); 16], Vec::new(), 0).is_none());
    assert!(Session::from_parts(Vec::new(), Vec::new(), 0).is_none());
    assert!(!well_formed(&vec![Vec::new(); 14], &Vec::new()));
}

#[test]
fn from_parts_refuses_a_card_too_many() {
    assert!(Session::from_parts(board(&[(0, "R5"), (1, "R5")]), Vec::new(), 0).is_none());
    assert!(Session::from_parts(board(&[(0, "R5")]), pile("R5"), 0).is_none());
    assert!(Session::from_parts(board(&[(0, "ZD"), (14, "ZD")]), Vec::new(), 0).is_none());
    assert!(
        Session::from_parts(board(&[(0, "BD BD BD"), (1, "BD BD")]), Vec::new(), 0).is_none()
    );
    assert!(Session::from_parts(board(&[(0, "BD BD BD"), (1, "BD")]), Vec::new(), 0).is_some());
}

#[test]
fn from_parts_refuses_what_is_no_card_of_the_deck() {
    assert!(Session::from_parts(board(&[(0, "R10")]), Vec::new(), 0).is_none());
    assert!(Session::from_parts(board(&[(0, "R0")]), Vec::new(), 0).is_none());
    assert!(Session::from_parts(board(&[(0, "Z1")]), Vec::new(), 0).is_none());
    assert!(Session::from_parts(board(&[]), pile("G-2"), 0).is_none());
}

#[test]
fn from_parts_refuses_a_holding_cell_with_two_cards() {
    assert!(Session::from_parts(board(&[(8, "R5 B4")]), Vec::new(), 0).is_none());
    assert!(Session::from_parts(board(&[(9, "GD GD GD")]), Vec::new(), 0).is_none());
    assert!(Session::from_parts(board(&[(10, "GD GD GD GD")]), Vec::new(), 0).is_some());
}

#[test]
fn from_parts_refuses_a_foundation_that_is_no_run() {
    assert!(Session::from_parts(board(&[(11, "R1 R3")]), Vec::new(), 0).is_none());
    assert!(Session::from_parts(board(&[(11, "G1")]), Vec::new(), 0).is_none());
    assert!(Session::from_parts(board(&[(12, "G2")]), Vec::new(), 0).is_none());
    assert!(Session::from_parts(board(&[(13, "BD")]), Vec::new(), 0).is_none());
    assert!(Session::from_parts(board(&[(14, "R1")]), Vec::new(), 0).is_none());
    assert!(Session::from_parts(board(&[(13, "B1 B2 B3")]), Vec::new(), 0).is_some());
}

#[test]
fn from_parts_refuses_a_hand_that_is_no_valid_stack() {
    assert!(Session::from_parts(board(&[]), pile("R5 R4"), 0).is_none());
    assert!(Session::from_parts(board(&[]), pile("R5 G3"), 0).is_none());
    assert!(Session::from_parts(board(&[]), pile("R5 G4 B3"), 0).is_some());
}

#[test]
fn from_parts_takes_a_tableau_pile_in_any_order() {
    assert!(Session::from_parts(board(&[(0, "R1 R2 GD ZD B9")]), Vec::new(), 0).is_some());
}
