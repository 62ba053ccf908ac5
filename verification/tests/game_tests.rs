use minicact::HIDDEN;
use minicact::game::{Action, Game};
use minicact::payout::Payout;

const H: u8 = HIDDEN;

#[test]
fn fresh_game_expects_a_position() {
    let g = Game::new();
    assert!(matches!(g.next_action(), Action::ChoosePosition(_)));
    assert_eq!(g.last_action(), Action::Start);
    assert_eq!(g.total_payout(), 0);
}

#[test]
fn one_reveal_round_trip() {
    let mut g = Game::new();
    g.set_position(4);
    assert!(matches!(g.next_action(), Action::RevealNumber(_)));
    assert_eq!(g.last_action(), Action::ChoosePosition(4));
    g.set_number(7);
    assert_eq!(g.last_action(), Action::RevealNumber(7));
    assert_eq!(g.used_positions(), vec![4]);
    assert_eq!(g.used_numbers(), vec![7]);
}

#[test]
fn ticket_flow_reaches_payout() {
    let mut g = Game::new();
    let positions = [0, 4, 8, 2];
    let numbers = [3, 6, 1, 8];
    for k in 0..4 {
        g.set_position(positions[k]);
        g.set_number(numbers[k]);
    }
    assert!(matches!(g.next_action(), Action::EnterPayout(_)));
    g.set_payout(Payout::_360);
    assert_eq!(g.last_action(), Action::EnterPayout(Payout::_360));
    assert_eq!(g.total_payout(), 360);
    // the next ticket starts with a fresh window
    assert!(matches!(g.next_action(), Action::ChoosePosition(_)));
    assert_eq!(g.used_positions(), vec![]);
}

#[test]
fn undo_steps_back_through_the_history() {
    let mut g = Game::new();
    g.set_position(3);
    g.set_number(5);
    g.set_position(7);
    g.undo();
    assert_eq!(g.last_action(), Action::RevealNumber(5));
    g.undo();
    assert_eq!(g.last_action(), Action::ChoosePosition(3));
    g.undo();
    assert_eq!(g.last_action(), Action::Start);
    g.undo();
    assert_eq!(g.last_action(), Action::Start);
}

#[test]
fn reset_clears_the_current_ticket() {
    let mut g = Game::new();
    g.set_position(0);
    g.set_number(2);
    g.set_position(5);
    g.set_number(4);
    g.reset();
    assert_eq!(g.last_action(), Action::Start);
    assert!(matches!(g.next_action(), Action::ChoosePosition(_)));
    assert_eq!(g.used_numbers(), vec![]);
}

#[test]
fn undo_clears_an_entered_payout() {
    let mut g = Game::new();
    let positions = [6, 7, 8, 5];
    let numbers = [0, 1, 2, 3];
    for k in 0..4 {
        g.set_position(positions[k]);
        g.set_number(numbers[k]);
    }
    g.set_payout(Payout::_10000);
    assert_eq!(g.total_payout(), 10000);
    g.undo();
    assert_eq!(g.total_payout(), 0);
    assert!(matches!(g.next_action(), Action::EnterPayout(_)));
    assert_eq!(g.last_action(), Action::RevealNumber(3));
}

#[test]
fn as_board_places_the_ticket_reveals() {
    let mut g = Game::new();
    g.set_position(4);
    g.set_number(0);
    g.set_position(8);
    g.set_number(6);
    let b = g.as_board();
    assert_eq!(b.state, [H, H, H, H, 0, H, H, H, 6]);
    assert_eq!(b.remaining_digits(), 7);
}

#[test]
fn as_board_resets_between_tickets() {
    let mut g = Game::new();
    let positions = [0, 1, 2, 3];
    let numbers = [8, 7, 6, 5];
    for k in 0..4 {
        g.set_position(positions[k]);
        g.set_number(numbers[k]);
    }
    g.set_payout(Payout::_36);
    // the new ticket's board is empty again
    let b = g.as_board();
    assert_eq!(b.state, [H; 9]);
    assert_eq!(b.remaining_digits(), 9);
}
