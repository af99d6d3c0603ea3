use solitaire::card::{Card, Suit};
use solitaire::rules::MoveError;
use solitaire::session::Session;

fn card(word: &str) -> Card {
    let suit = match &word[0..1] {
        "R" => Suit::Red,
        "G" => Suit::Green,
        "B" => Suit::Black,
        _ => Suit::Rose,
    };
    let value = if &word[1..] == "D" { -1 } else { word[1..].parse().unwrap() };
    Card::new(suit, value)
}

fn pile(text: &str) -> Vec<Card> {
    text.split_whitespace().map(card).collect()
}

fn position(slots: &[(usize, &str)], hand: &str, recentgrab: usize) -> Session {
    let mut board: Vec<Vec<Card>> = vec![Vec::new(); 15];
    for (slot, text) in slots {
        board[*slot] = pile(text);
    }
    Session::from_parts(board, pile(hand), recentgrab).unwrap()
}

fn snapshot(session: &Session) -> (Vec<Vec<Card>>, Vec<Card>, usize) {
    (session.board().clone(), session.hand().clone(), session.recentgrab())
}

#[test]
fn valid_from_looks_at_the_upper_part_only() {
    let stack = pile("R2 B9 G8 R7");
    assert!(!Card::valid_from(&stack, 0));
    assert!(Card::valid_from(&stack, 1));
    assert!(Card::valid_from(&stack, 2));
    assert!(Card::valid_from(&stack, 3));
    assert!(Card::valid_from(&stack, 4));
    assert!(Card::valid_from(&Vec::new(), 0));
}

#[test]
fn grab_lifts_a_valid_run_from_a_tableau_pile() {
    let mut session = position(&[(2, "R2 B9 G8 R7")], "", 0);
    assert_eq!(session.grab(2, Some(1)), Ok(()));
    assert_eq!(session.hand(), &pile("B9 G8 R7"));
    assert_eq!(session.board()[2], pile("R2"));
    assert_eq!(session.recentgrab(), 2);
}

#[test]
fn grab_can_lift_a_whole_pile() {
    let mut session = position(&[(7, "B9 G8")], "", 0);
    assert_eq!(session.grab(7, Some(0)), Ok(()));
    assert_eq!(session.hand(), &pile("B9 G8"));
    assert!(session.board()[7].is_empty());
    assert_eq!(session.recentgrab(), 7);
}

#[test]
fn grab_refuses_cards_that_are_no_valid_run() {
    let mut session = position(&[(2, "R2 B9 G3 RD")], "", 5);
    let before = snapshot(&session);
    assert_eq!(session.grab(2, Some(1)), Err(MoveError::NotAValidRun));
    assert_eq!(session.grab(2, Some(2)), Err(MoveError::NotAValidRun));
    assert_eq!(session.grab(2, Some(0)), Err(MoveError::NotAValidRun));
    assert_eq!(snapshot(&session), before);
    assert_eq!(session.grab(2, Some(3)), Ok(()));
    assert_eq!(session.hand(), &pile("RD"));
}

#[test]
fn grab_refuses_an_index_outside_the_pile() {
    let mut session = position(&[(2, "R2 B9 G8 R7")], "", 0);
    let before = snapshot(&session);
    assert_eq!(session.grab(2, Some(4)), Err(MoveError::IndexOutOfRange));
    assert_eq!(session.grab(2, Some(usize::MAX)), Err(MoveError::IndexOutOfRange));
    assert_eq!(session.grab(2, None), Err(MoveError::IndexOutOfRange));
    assert_eq!(session.grab(3, Some(0)), Err(MoveError::IndexOutOfRange));
    assert_eq!(snapshot(&session), before);
}

#[test]
fn grab_refuses_while_the_hand_holds_cards() {
    let mut session = position(&[(2, "R2 B9"), (8, "G4"), (11, "R1")], "R5", 3);
    let before = snapshot(&session);
    assert_eq!(session.grab(2, Some(1)), Err(MoveError::HandNotEmpty));
    assert_eq!(session.grab(8, None), Err(MoveError::HandNotEmpty));
    assert_eq!(session.grab(11, None), Err(MoveError::HandNotEmpty));
    assert_eq!(session.grab(14, None), Err(MoveError::HandNotEmpty));
    assert_eq!(snapshot(&session), before);
}

#[test]
fn grab_refuses_the_rose_foundation_and_slots_beyond() {
    let mut session = position(&[(14, "ZD")], "", 0);
    let before = snapshot(&session);
    assert_eq!(session.grab(14, None), Err(MoveError::InvalidSlot));
    assert_eq!(session.grab(15, Some(0)), Err(MoveError::InvalidSlot));
    assert_eq!(session.grab(usize::MAX, None), Err(MoveError::InvalidSlot));
    assert_eq!(snapshot(&session), before);
}

#[test]
fn grab_lifts_the_single_card_of_a_holding_cell() {
    let mut session = position(&[(9, "G4")], "", 0);
    assert_eq!(session.grab(9, None), Ok(()));
    assert_eq!(session.hand(), &pile("G4"));
    assert!(session.board()[9].is_empty());
    assert_eq!(session.recentgrab(), 9);
}

#[test]
fn grab_refuses_an_empty_or_sealed_holding_cell() {
    let mut session = position(&[(8, "BD BD BD BD")], "", 0);
    let before = snapshot(&session);
    assert_eq!(session.grab(8, None), Err(MoveError::SealedCell));
    assert_eq!(session.grab(8, Some(3)), Err(MoveError::SealedCell));
    assert_eq!(session.grab(9, None), Err(MoveError::EmptySlot));
    assert_eq!(session.grab(10, Some(0)), Err(MoveError::EmptySlot));
    assert_eq!(snapshot(&session), before);
}

#[test]
fn grab_lifts_the_top_card_of_a_foundation() {
    let mut session = position(&[(11, "R1 R2 R3"), (13, "B1")], "", 0);
    assert_eq!(session.grab(11, Some(0)), Ok(()));
    assert_eq!(session.hand(), &pile("R3"));
    assert_eq!(session.board()[11], pile("R1 R2"));
    assert_eq!(session.recentgrab(), 11);
    assert_eq!(session.place(11), Ok(()));
    assert_eq!(session.grab(13, None), Ok(()));
    assert_eq!(session.hand(), &pile("B1"));
    assert!(session.board()[13].is_empty());
}

#[test]
fn grab_refuses_an_empty_foundation() {
    let mut session = position(&[(11, "R1")], "", 0);
    let before = snapshot(&session);
    assert_eq!(session.grab(12, None), Err(MoveError::EmptySlot));
    assert_eq!(snapshot(&session), before);
}

#[test]
fn place_puts_the_hand_on_an_empty_tableau_pile() {
    let mut session = position(&[(0, "R9")], "B8 R7 G6", 4);
    assert_eq!(session.place(3), Ok(()));
    assert_eq!(session.board()[3], pile("B8 R7 G6"));
    assert!(session.hand().is_empty());
    assert_eq!(session.board()[0], pile("R9"));
}

#[test]
fn place_puts_the_hand_on_a_card_it_may_lie_on() {
    let mut session = position(&[(0, "G2 R9")], "B8 R7", 4);
    assert_eq!(session.place(0), Ok(()));
    assert_eq!(session.board()[0], pile("G2 R9 B8 R7"));
    assert!(session.hand().is_empty());
}

#[test]
fn place_refuses_a_tableau_top_that_does_not_fit() {
    let mut session = position(&[(0, "R9"), (1, "B9"), (2, "G7"), (3, "GD")], "R8", 7);
    let before = snapshot(&session);
    assert_eq!(session.place(0), Err(MoveError::WrongSuitOrRank));
    assert_eq!(session.place(2), Err(MoveError::WrongSuitOrRank));
    assert_eq!(session.place(3), Err(MoveError::WrongSuitOrRank));
    assert_eq!(snapshot(&session), before);
    assert_eq!(session.place(1), Ok(()));
    assert_eq!(session.board()[1], pile("B9 R8"));
}

#[test]
fn place_always_takes_the_hand_back_where_it_came_from() {
    let mut session = position(&[(0, "R5 G9"), (1, "B2")], "", 0);
    let before = session.board().clone();
    assert_eq!(session.grab(0, Some(1)), Ok(()));
    assert_eq!(session.place(1), Err(MoveError::WrongSuitOrRank));
    assert_eq!(session.place(0), Ok(()));
    assert_eq!(session.board(), &before);
    assert!(session.hand().is_empty());
}

#[test]
fn place_puts_a_single_card_into_an_empty_holding_cell() {
    let mut session = position(&[], "G4", 0);
    assert_eq!(session.place(10), Ok(()));
    assert_eq!(session.board()[10], pile("G4"));
    assert!(session.hand().is_empty());
}

#[test]
fn place_refuses_a_holding_cell_that_is_taken_or_sealed() {
    let mut session = position(&[(8, "R5"), (9, "BD BD BD BD")], "G4", 0);
    let before = snapshot(&session);
    assert_eq!(session.place(8), Err(MoveError::DestinationOccupied));
    assert_eq!(session.place(9), Err(MoveError::SealedCell));
    assert_eq!(snapshot(&session), before);
}

#[test]
fn place_refuses_more_than_one_card_off_the_tableau() {
    let mut session = position(&[(11, "R1 R2")], "B4 R3", 0);
    let before = snapshot(&session);
    assert_eq!(session.place(8), Err(MoveError::TooManyCards));
    assert_eq!(session.place(11), Err(MoveError::TooManyCards));
    assert_eq!(session.place(14), Err(MoveError::TooManyCards));
    assert_eq!(snapshot(&session), before);
}

#[test]
fn place_starts_a_foundation_with_its_ace() {
    let mut session = position(&[], "G1", 0);
    assert_eq!(session.place(12), Ok(()));
    assert_eq!(session.board()[12], pile("G1"));
    assert!(session.hand().is_empty());
}

#[test]
fn place_extends_a_foundation_by_its_next_rank() {
    let mut session = position(&[(13, "B1 B2 B3")], "B4", 0);
    assert_eq!(session.place(13), Ok(()));
    assert_eq!(session.board()[13], pile("B1 B2 B3 B4"));
}

#[test]
fn place_refuses_a_gap_in_a_foundation() {
    let mut session = position(&[(13, "B1 B2 B3")], "B5", 0);
    let before = snapshot(&session);
    assert_eq!(session.place(13), Err(MoveError::FoundationGap));
    assert_eq!(snapshot(&session), before);
    let mut session = position(&[], "R2", 0);
    assert_eq!(session.place(11), Err(MoveError::FoundationGap));
    let mut session = position(&[(12, "G1")], "GD", 0);
    assert_eq!(session.place(12), Err(MoveError::FoundationGap));
    let mut session = position(&[], "RD", 0);
    assert_eq!(session.place(11), Err(MoveError::FoundationGap));
}

#[test]
fn place_refuses_a_foundation_of_another_suit() {
    let mut session = position(&[(11, "R1"), (12, "G1"), (13, "B1")], "R2", 0);
    let before = snapshot(&session);
    assert_eq!(session.place(12), Err(MoveError::WrongSuitOrRank));
    assert_eq!(session.place(13), Err(MoveError::WrongSuitOrRank));
    assert_eq!(session.place(14), Err(MoveError::WrongSuitOrRank));
    assert_eq!(snapshot(&session), before);
    assert_eq!(session.place(11), Ok(()));
}

#[test]
fn place_puts_the_rose_card_on_its_foundation() {
    let mut session = position(&[], "ZD", 0);
    assert_eq!(session.place(11), Err(MoveError::WrongSuitOrRank));
    assert_eq!(session.place(14), Ok(()));
    assert_eq!(session.board()[14], pile("ZD"));
    assert!(session.hand().is_empty());
}

#[test]
fn place_refuses_an_empty_hand_and_slots_beyond_the_board() {
    let mut session = position(&[(0, "R9")], "", 0);
    let before = snapshot(&session);
    assert_eq!(session.place(0), Err(MoveError::HandEmpty));
    assert_eq!(session.place(15), Err(MoveError::HandEmpty));
    assert_eq!(snapshot(&session), before);
    let mut session = position(&[(0, "R9")], "B8", 0);
    let before = snapshot(&session);
    assert_eq!(session.place(15), Err(MoveError::InvalidSlot));
    assert_eq!(session.place(usize::MAX), Err(MoveError::InvalidSlot));
    assert_eq!(snapshot(&session), before);
}

#[test]
fn seed_one_top_card_can_be_grabbed_and_goes_to_an_empty_pile() {
    let dealt = Session::new_game(1);
    let mut board = dealt.board().clone();
    board[0].clear();
    let mut session = Session::from_parts(board, Vec::new(), 0).unwrap();
    assert_eq!(session.grab(3, Some(4)), Ok(()));
    assert_eq!(session.hand(), &pile("R8"));
    assert_eq!(session.board()[3], pile("B1 R4 G9 B6"));
    assert_eq!(session.place(0), Ok(()));
    assert_eq!(session.board()[0], pile("R8"));
    assert!(session.hand().is_empty());
}

#[test]
fn seed_one_top_card_is_refused_by_a_foundation_of_another_suit() {
    let mut session = Session::new_game(1);
    assert_eq!(session.grab(3, Some(4)), Ok(()));
    let before = snapshot(&session);
    assert_eq!(session.place(12), Err(MoveError::WrongSuitOrRank));
    assert_eq!(session.place(13), Err(MoveError::WrongSuitOrRank));
    assert_eq!(session.place(14), Err(MoveError::WrongSuitOrRank));
    assert_eq!(snapshot(&session), before);
    assert_eq!(session.hand(), &pile("R8"));
}

#[test]
fn every_dealt_top_card_can_be_grabbed() {
    for seed in 1..20u64 {
        for slot in 0..8 {
            let mut session = Session::new_game(seed);
            let top = session.board()[slot][4];
            assert_eq!(session.grab(slot, Some(4)), Ok(()));
            assert_eq!(session.hand(), &vec![top]);
            assert_eq!(session.board()[slot].len(), 4);
        }
    }
}

#[test]
fn win_needs_an_empty_hand_and_an_empty_tableau() {
    assert!(position(&[], "", 0).is_won());
    assert!(!position(&[], "R5", 0).is_won());
    assert!(!position(&[(0, "R5")], "", 0).is_won());
    assert!(!position(&[(7, "ZD")], "", 0).is_won());
}

#[test]
fn win_does_not_look_at_cells_and_foundations() {
    assert!(position(&[(8, "R5"), (11, "R1 R2"), (14, "ZD")], "", 0).is_won());
    assert!(position(&[(9, "GD GD GD GD")], "", 3).is_won());
    let finished = position(
        &[
            (8, "RD RD RD RD"),
            (9, "GD GD GD GD"),
            (10, "BD BD BD BD"),
            (11, "R1 R2 R3 R4 R5 R6 R7 R8 R9"),
            (12, "G1 G2 G3 G4 G5 G6 G7 G8 G9"),
            (13, "B1 B2 B3 B4 B5 B6 B7 B8 B9"),
            (14, "ZD"),
        ],
        "",
        0,
    );
    assert!(finished.is_won());
}

#[test]
fn placement_by_fit_keeps_a_valid_pile_valid() {
    let mut session = position(&[(0, "R9 B8"), (1, "G7 R6 B5"), (2, "")], "", 0);
    assert_eq!(session.grab(1, Some(0)), Ok(()));
    assert_eq!(session.place(0), Ok(()));
    assert_eq!(session.board()[0], pile("R9 B8 G7 R6 B5"));
    assert!(Card::validstack(&session.board()[0]));
    assert_eq!(session.grab(0, Some(3)), Ok(()));
    assert_eq!(session.place(2), Ok(()));
    assert!(Card::validstack(&session.board()[2]));
    assert!(Card::validstack(&session.board()[0]));
}

#[test]
fn return_to_a_dealt_pile_leaves_it_as_it_was() {
    let mut session = Session::new_game(1);
    let before = session.board().clone();
    assert!(!Card::validstack(&before[3]));
    assert_eq!(session.grab(3, Some(4)), Ok(()));
    assert_eq!(session.place(3), Ok(()));
    assert_eq!(session.board(), &before);
}
