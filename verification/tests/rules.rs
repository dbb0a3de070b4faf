use std::str::FromStr;

use backgammon_logic::board::{Board, InternalBoard, Point, CHEQUER_DOES_NOT_EXIST};
use backgammon_logic::constants::BOARD_SIZE;
use backgammon_logic::moves::{Move, Submove};
use backgammon_logic::player::Player;
use backgammon_logic::rules::ApplyError;

fn position(stacks: &[(usize, Player, u8)]) -> Board {
    let mut board: InternalBoard = [None; BOARD_SIZE];
    for &(slot, owner, count) in stacks {
        board[slot] = Some(Point::new(owner, count));
    }
    let b = Board { board };
    assert!(b.is_wf());
    b
}

fn chequers(b: &Board, p: Player) -> u32 {
    b.board
        .iter()
        .map(|slot| match slot {
            Some(point) if point.owner == p => point.count as u32,
            _ => 0,
        })
        .sum()
}

fn read(text: &str) -> Submove {
    let s = Submove::from_str(text).unwrap();
    assert!(s.is_wf());
    s
}

/// The starting position after Black has played 1/3 and White has hit the
/// chequer on point 3, from White's point 19: Black has a chequer on the bar.
fn black_on_the_bar() -> Board {
    let mut b = Board::init();
    assert_eq!(b.apply_submove(&read("1/3"), Player::Black), Ok(()));
    assert_eq!(b.apply_submove(&read("19/22"), Player::White), Ok(()));
    b
}

#[test]
fn message_of_the_missing_chequer() {
    assert_eq!(CHEQUER_DOES_NOT_EXIST, "Chequer does not exist.");
}

#[test]
fn missing_chequer_is_an_error() {
    let b = Board::init();
    for p in [Player::Black, Player::White] {
        assert_eq!(b.validate_submove(&read("4/3"), p), Err("Chequer does not exist."));
        assert_eq!(b.validate_submove(&read("4/6"), p), Err("Chequer does not exist."));
        assert_eq!(b.validate_submove(&read("2/o"), p), Err("Chequer does not exist."));
        assert_eq!(b.validate_submove(&read("23/24"), p), Err("Chequer does not exist."));
    }
}

#[test]
fn missing_chequer_comes_before_the_bar() {
    let b = black_on_the_bar();
    assert_eq!(b.validate_submove(&read("4/5"), Player::Black), Err("Chequer does not exist."));
    assert_eq!(b.validate_submove(&read("4/o"), Player::Black), Err("Chequer does not exist."));
}

#[test]
fn chequer_of_the_other_side_is_illegal() {
    let b = Board::init();
    // Point 6 is White's in Black's numbering, and Black's in White's.
    assert_eq!(b.validate_submove(&read("6/7"), Player::Black), Ok(false));
    assert_eq!(b.validate_submove(&read("6/o"), Player::Black), Ok(false));
    assert_eq!(b.validate_submove(&read("24/23"), Player::Black), Ok(false));
    assert_eq!(b.validate_submove(&read("6/7"), Player::White), Ok(false));
    assert_eq!(b.validate_submove(&read("6/o"), Player::White), Ok(false));
    assert_eq!(b.validate_submove(&read("24/23"), Player::White), Ok(false));
}

#[test]
fn own_chequer_may_move() {
    let b = Board::init();
    for p in [Player::Black, Player::White] {
        // To an empty point.
        assert_eq!(b.validate_submove(&read("1/3"), p), Ok(true));
        // To a point of one's own.
        assert_eq!(b.validate_submove(&read("1/12"), p), Ok(true));
        assert_eq!(b.validate_submove(&read("12/17"), p), Ok(true));
        // Nothing tells a chequer which way to go, or how far.
        assert_eq!(b.validate_submove(&read("19/2"), p), Ok(true));
        assert_eq!(b.validate_submove(&read("19/19"), p), Ok(true));
    }
}

#[test]
fn blocked_point_cannot_be_moved_to() {
    let b = Board::init();
    for p in [Player::Black, Player::White] {
        assert_eq!(b.validate_submove(&read("1/6"), p), Ok(false));
        assert_eq!(b.validate_submove(&read("12/13"), p), Ok(false));
        assert_eq!(b.validate_submove(&read("19/24"), p), Ok(false));
    }
}

#[test]
fn blocked_point_cannot_be_entered_on() {
    let b = Board::init();
    for p in [Player::Black, Player::White] {
        assert_eq!(b.validate_submove(&read("bar/6"), p), Ok(false));
        assert_eq!(b.validate_submove(&read("bar/24"), p), Ok(false));
        assert_eq!(b.validate_submove(&read("bar/5"), p), Ok(true));
        assert_eq!(b.validate_submove(&read("bar/1"), p), Ok(true));
    }
}

#[test]
fn two_chequers_block_and_one_does_not() {
    let b = position(&[
        (1, Player::Black, 2),
        (10, Player::Black, 13),
        (4, Player::White, 1),
        (5, Player::White, 2),
        (6, Player::White, 12),
    ]);
    assert_eq!(b.validate_submove(&read("1/4"), Player::Black), Ok(true));
    assert_eq!(b.validate_submove(&read("1/5"), Player::Black), Ok(false));
    assert_eq!(b.validate_submove(&read("1/6"), Player::Black), Ok(false));
    assert_eq!(b.validate_submove(&read("bar/4"), Player::Black), Ok(true));
    assert_eq!(b.validate_submove(&read("bar/5"), Player::Black), Ok(false));
    assert_eq!(b.validate_submove(&read("bar/6"), Player::Black), Ok(false));
}

#[test]
fn bearing_off_asks_for_an_own_chequer_and_a_clear_bar() {
    let b = Board::init();
    // Nothing asks that the chequers be home.
    assert_eq!(b.validate_submove(&read("1/o"), Player::Black), Ok(true));
    assert_eq!(b.validate_submove(&read("19/o"), Player::Black), Ok(true));
    assert_eq!(b.validate_submove(&read("1/o"), Player::White), Ok(true));
    assert_eq!(b.validate_submove(&read("13/o"), Player::Black), Ok(false));
    let b = black_on_the_bar();
    assert_eq!(b.validate_submove(&read("19/o"), Player::Black), Ok(false));
    assert_eq!(b.validate_submove(&read("19/o"), Player::White), Ok(true));
}

#[test]
fn chequer_on_the_bar_stops_every_move() {
    let b = black_on_the_bar();
    assert_eq!(b.bar(Player::Black), 1);
    assert_eq!(b.bar(Player::White), 0);
    for from in 0..24 {
        let s = Submove::BearOff { from };
        assert_ne!(b.validate_submove(&s, Player::Black), Ok(true));
        for to in 0..24 {
            let s = Submove::Move { from, to };
            assert_ne!(b.validate_submove(&s, Player::Black), Ok(true));
        }
    }
    assert_eq!(b.validate_submove(&read("1/2"), Player::Black), Ok(false));
    assert_eq!(b.validate_submove(&read("12/14"), Player::Black), Ok(false));
    // The other side is free to move.
    assert_eq!(b.validate_submove(&read("1/2"), Player::White), Ok(true));
}

#[test]
fn chequer_on_the_bar_may_enter() {
    let b = black_on_the_bar();
    for to in 0..24 {
        let blocked = match b.point_at(Player::Black, to + 1) {
            Some(point) => point.owner == Player::White && point.count >= 2,
            None => false,
        };
        let s = Submove::Enter { to };
        assert_eq!(b.validate_submove(&s, Player::Black), Ok(!blocked));
    }
    assert_eq!(b.validate_submove(&read("bar/2"), Player::Black), Ok(true));
    assert_eq!(b.validate_submove(&read("bar/3"), Player::Black), Ok(true));
    assert_eq!(b.validate_submove(&read("bar/6"), Player::Black), Ok(false));
}

#[test]
fn validation_leaves_the_board_alone() {
    let b = black_on_the_bar();
    let before = b;
    let _ = b.validate_submove(&read("bar/3"), Player::Black);
    let _ = b.validate_submove(&read("4/3"), Player::Black);
    let _ = b.validate_submove(&read("1/o"), Player::White);
    assert_eq!(b, before);
}

#[test]
fn black_plays_one_to_three() {
    let mut b = Board::init();
    let s = Submove::from_str("1/3").unwrap();
    assert_eq!(s, Submove::Move { from: 0, to: 2 });
    assert_eq!(b.validate_submove(&s, Player::Black), Ok(true));
    assert_eq!(b.apply_submove(&s, Player::Black), Ok(()));
    assert_eq!(b.board[1], Some(Point::new(Player::Black, 1)));
    assert_eq!(b.board[3], Some(Point::new(Player::Black, 1)));
    for slot in 0..BOARD_SIZE {
        if slot != 1 && slot != 3 {
            assert_eq!(b.board[slot], Board::init().board[slot]);
        }
    }
    assert_eq!(chequers(&b, Player::Black), 15);
    assert_eq!(chequers(&b, Player::White), 15);
    assert!(b.is_wf());
    assert_eq!(b.pips(Player::Black), 165);
    assert_eq!(b.pips(Player::White), 167);
}

#[test]
fn black_cannot_play_four_to_three() {
    let mut b = Board::init();
    let s = Submove::from_str("4/3").unwrap();
    assert_eq!(s, Submove::Move { from: 3, to: 2 });
    assert_eq!(b.validate_submove(&s, Player::Black), Err("Chequer does not exist."));
    assert_eq!(b.apply_submove(&s, Player::Black), Err(ApplyError::ChequerDoesNotExist));
    assert_eq!(b, Board::init());
}

#[test]
fn white_plays_in_its_own_numbering() {
    let mut b = Board::init();
    assert_eq!(b.apply_submove(&read("1/3"), Player::White), Ok(()));
    assert_eq!(b.board[24], Some(Point::new(Player::White, 1)));
    assert_eq!(b.board[22], Some(Point::new(Player::White, 1)));
    assert_eq!(b.pips(Player::White), 165);
    assert_eq!(b.pips(Player::Black), 167);
    assert!(b.is_wf());
}

#[test]
fn last_chequer_leaves_no_stack() {
    let mut b = Board::init();
    assert_eq!(b.apply_submove(&read("1/2"), Player::Black), Ok(()));
    assert_eq!(b.apply_submove(&read("1/2"), Player::Black), Ok(()));
    assert_eq!(b.board[1], None);
    assert_eq!(b.board[2], Some(Point::new(Player::Black, 2)));
    assert_eq!(
        b.validate_submove(&read("1/2"), Player::Black),
        Err("Chequer does not exist.")
    );
    assert!(b.is_wf());
}

#[test]
fn chequer_joins_a_stack() {
    let mut b = Board::init();
    assert_eq!(b.apply_submove(&read("1/12"), Player::Black), Ok(()));
    assert_eq!(b.board[1], Some(Point::new(Player::Black, 1)));
    assert_eq!(b.board[12], Some(Point::new(Player::Black, 6)));
    assert!(b.is_wf());
}

#[test]
fn chequer_that_stays_changes_nothing() {
    let mut b = Board::init();
    assert_eq!(b.apply_submove(&read("1/1"), Player::Black), Ok(()));
    assert_eq!(b, Board::init());
    assert_eq!(b.apply_submove(&read("1/2"), Player::Black), Ok(()));
    let before = b;
    assert_eq!(b.apply_submove(&read("2/2"), Player::Black), Ok(()));
    assert_eq!(b, before);
}

#[test]
fn hit_chequer_goes_to_the_bar() {
    let b = black_on_the_bar();
    assert_eq!(b.board[0], Some(Point::new(Player::Black, 1)));
    assert_eq!(b.board[1], Some(Point::new(Player::Black, 1)));
    assert_eq!(b.board[3], Some(Point::new(Player::White, 1)));
    assert_eq!(b.board[6], Some(Point::new(Player::White, 4)));
    assert_eq!(b.bar(Player::Black), 1);
    assert_eq!(chequers(&b, Player::Black), 15);
    assert_eq!(chequers(&b, Player::White), 15);
    assert!(b.is_wf());
    // Point 3 was 22 away, the bar is 25 away.
    assert_eq!(b.pips(Player::Black), 168);
    assert_eq!(b.pips(Player::White), 164);
}

#[test]
fn entering_chequer_leaves_the_bar() {
    let mut b = black_on_the_bar();
    assert_eq!(b.apply_submove(&read("bar/2"), Player::Black), Ok(()));
    assert_eq!(b.board[0], None);
    assert_eq!(b.board[2], Some(Point::new(Player::Black, 1)));
    assert_eq!(b.bar(Player::Black), 0);
    assert_eq!(b.validate_submove(&read("12/14"), Player::Black), Ok(true));
    assert!(b.is_wf());
}

#[test]
fn entering_chequer_may_hit() {
    let mut b = black_on_the_bar();
    assert_eq!(b.apply_submove(&read("bar/3"), Player::Black), Ok(()));
    assert_eq!(b.board[0], None);
    assert_eq!(b.board[3], Some(Point::new(Player::Black, 1)));
    assert_eq!(b.board[25], Some(Point::new(Player::White, 1)));
    assert_eq!(b.bar(Player::Black), 0);
    assert_eq!(b.bar(Player::White), 1);
    assert_eq!(b.validate_submove(&read("1/2"), Player::White), Ok(false));
    assert_eq!(b.validate_submove(&read("bar/1"), Player::White), Ok(true));
    assert_eq!(chequers(&b, Player::Black), 15);
    assert_eq!(chequers(&b, Player::White), 15);
    assert!(b.is_wf());
}

#[test]
fn second_hit_raises_the_bar() {
    let mut b = position(&[
        (1, Player::Black, 13),
        (0, Player::Black, 2),
        (5, Player::White, 1),
        (7, Player::White, 1),
        (20, Player::White, 13),
    ]);
    assert_eq!(b.apply_submove(&read("bar/5"), Player::Black), Ok(()));
    assert_eq!(b.board[25], Some(Point::new(Player::White, 1)));
    assert_eq!(b.apply_submove(&read("bar/7"), Player::Black), Ok(()));
    assert_eq!(b.board[25], Some(Point::new(Player::White, 2)));
    assert_eq!(b.board[0], None);
    assert_eq!(b.bar(Player::White), 2);
    assert!(b.is_wf());
}

#[test]
fn borne_off_chequer_goes_to_the_tray() {
    let mut b = position(&[
        (24, Player::Black, 2),
        (25, Player::Black, 13),
        (1, Player::White, 15),
    ]);
    assert_eq!(b.apply_submove(&read("24/o"), Player::Black), Ok(()));
    assert_eq!(b.board[24], Some(Point::new(Player::Black, 1)));
    assert_eq!(b.board[25], Some(Point::new(Player::Black, 14)));
    assert_eq!(b.apply_submove(&read("24/o"), Player::Black), Ok(()));
    assert_eq!(b.board[24], None);
    assert_eq!(b.board[25], Some(Point::new(Player::Black, 15)));
    assert_eq!(b.pips(Player::Black), 0);
    assert!(b.is_wf());
    // The tray of White is slot 0.
    assert_eq!(b.apply_submove(&read("24/o"), Player::White), Ok(()));
    assert_eq!(b.board[1], Some(Point::new(Player::White, 14)));
    assert_eq!(b.board[0], Some(Point::new(Player::White, 1)));
    assert!(b.is_wf());
}

#[test]
fn illegal_submove_is_not_carried_out() {
    let mut b = Board::init();
    // A chequer of the other side.
    assert_eq!(b.apply_submove(&read("6/7"), Player::Black), Err(ApplyError::Illegal));
    // A blocked point.
    assert_eq!(b.apply_submove(&read("1/6"), Player::Black), Err(ApplyError::Illegal));
    assert_eq!(b, Board::init());
    // A chequer on the bar.
    let mut b = black_on_the_bar();
    let before = b;
    assert_eq!(b.apply_submove(&read("12/14"), Player::Black), Err(ApplyError::Illegal));
    assert_eq!(b.apply_submove(&read("19/o"), Player::Black), Err(ApplyError::Illegal));
    assert_eq!(b.apply_submove(&read("bar/6"), Player::Black), Err(ApplyError::Illegal));
    assert_eq!(b, before);
}

#[test]
fn nothing_enters_from_an_empty_bar() {
    let mut b = Board::init();
    assert_eq!(b.validate_submove(&read("bar/2"), Player::Black), Ok(true));
    assert_eq!(
        b.apply_submove(&read("bar/2"), Player::Black),
        Err(ApplyError::ChequerDoesNotExist)
    );
    assert_eq!(b, Board::init());
}

#[test]
fn nothing_enters_from_the_tray_of_the_other_side() {
    let mut b = position(&[
        (0, Player::White, 3),
        (1, Player::White, 12),
        (24, Player::Black, 15),
    ]);
    let before = b;
    assert_eq!(b.apply_submove(&read("bar/2"), Player::Black), Err(ApplyError::Illegal));
    assert_eq!(b, before);
}

#[test]
fn no_room_in_the_tray() {
    // White waits on its bar, which is the slot that Black bears off to.
    let mut b = position(&[
        (24, Player::Black, 15),
        (25, Player::White, 1),
        (1, Player::White, 14),
    ]);
    let before = b;
    assert_eq!(b.validate_submove(&read("24/o"), Player::Black), Ok(true));
    assert_eq!(b.apply_submove(&read("24/o"), Player::Black), Err(ApplyError::NoRoom));
    assert_eq!(b, before);
}

#[test]
fn no_room_on_the_bar() {
    // Black has borne off to the slot that is the bar of White.
    let mut b = position(&[
        (20, Player::Black, 12),
        (25, Player::Black, 3),
        (22, Player::White, 1),
        (1, Player::White, 14),
    ]);
    let before = b;
    assert_eq!(b.validate_submove(&read("20/22"), Player::Black), Ok(true));
    assert_eq!(b.apply_submove(&read("20/22"), Player::Black), Err(ApplyError::NoRoom));
    assert_eq!(b, before);
    // A point without a chequer to hit can still be moved to.
    assert_eq!(b.apply_submove(&read("20/21"), Player::Black), Ok(()));
    assert!(b.is_wf());
}

#[test]
fn submoves_of_a_move_one_after_the_other() {
    let mut b = Board::init();
    let m = Move::new("1/3 3/5").unwrap();
    for s in m.submoves.iter() {
        assert!(s.is_wf());
        assert_eq!(b.validate_submove(s, Player::Black), Ok(true));
        assert_eq!(b.apply_submove(s, Player::Black), Ok(()));
    }
    assert_eq!(b.board[1], Some(Point::new(Player::Black, 1)));
    assert_eq!(b.board[3], None);
    assert_eq!(b.board[5], Some(Point::new(Player::Black, 1)));
    // The second submove needs the first: on the starting position it has
    // no chequer to move.
    assert_eq!(
        Board::init().validate_submove(&m.submoves[1], Player::Black),
        Err("Chequer does not exist.")
    );
}

#[test]
fn chequers_are_kept_through_a_game() {
    let mut b = Board::init();
    let plays = [
        ("1/3", Player::Black),
        ("19/22", Player::White),
        ("bar/3", Player::Black),
        ("bar/2", Player::White),
        ("12/14", Player::Black),
        ("2/10", Player::White),
        ("17/18", Player::Black),
        ("12/16", Player::White),
    ];
    for (text, p) in plays {
        assert_eq!(b.apply_submove(&read(text), p), Ok(()), "{}", text);
        assert!(b.is_wf());
        assert_eq!(chequers(&b, Player::Black), 15);
        assert_eq!(chequers(&b, Player::White), 15);
    }
}

#[test]
fn whole_move_is_carried_out() {
    let mut b = Board::init();
    let m = Move::new("1/3 3/5 12/14").unwrap();
    assert_eq!(b.apply_move(&m, Player::Black), Ok(()));
    assert_eq!(b.board[1], Some(Point::new(Player::Black, 1)));
    assert_eq!(b.board[3], None);
    assert_eq!(b.board[5], Some(Point::new(Player::Black, 1)));
    assert_eq!(b.board[12], Some(Point::new(Player::Black, 4)));
    assert_eq!(b.board[14], Some(Point::new(Player::Black, 1)));
    assert_eq!(b.pips(Player::Black), 167 - 6);
    assert!(b.is_wf());
}

#[test]
fn move_is_all_or_nothing() {
    let mut b = Board::init();
    // The third submove runs into a blocked point.
    let m = Move::new("1/3 3/5 5/6 12/14").unwrap();
    assert_eq!(b.apply_move(&m, Player::Black), Err((2, ApplyError::Illegal)));
    assert_eq!(b, Board::init());
    // The first submove has no chequer to move.
    let m = Move::new("2/3 1/3").unwrap();
    assert_eq!(b.apply_move(&m, Player::Black), Err((0, ApplyError::ChequerDoesNotExist)));
    assert_eq!(b, Board::init());
    // The last submove has none either, once the one before it is played.
    let m = Move::new("1/2 1/2 1/2").unwrap();
    assert_eq!(b.apply_move(&m, Player::Black), Err((2, ApplyError::ChequerDoesNotExist)));
    assert_eq!(b, Board::init());
}

#[test]
fn move_may_hit_and_enter() {
    let mut b = black_on_the_bar();
    let m = Move::new("bar/3 3/4").unwrap();
    assert_eq!(b.apply_move(&m, Player::Black), Ok(()));
    assert_eq!(b.board[0], None);
    assert_eq!(b.board[3], None);
    assert_eq!(b.board[4], Some(Point::new(Player::Black, 1)));
    assert_eq!(b.board[25], Some(Point::new(Player::White, 1)));
    assert!(b.is_wf());
    // White has to enter before it moves.
    let before = b;
    let m = Move::new("12/14 bar/2").unwrap();
    assert_eq!(b.apply_move(&m, Player::White), Err((0, ApplyError::Illegal)));
    assert_eq!(b, before);
    let m = Move::new("bar/2 12/14").unwrap();
    assert_eq!(b.apply_move(&m, Player::White), Ok(()));
    assert_eq!(b.board[25], None);
    assert_eq!(b.board[23], Some(Point::new(Player::White, 1)));
    assert!(b.is_wf());
}

#[test]
fn move_without_submoves_changes_nothing() {
    let mut b = Board::init();
    let m = Move { submoves: vec![] };
    assert_eq!(b.apply_move(&m, Player::White), Ok(()));
    assert_eq!(b, Board::init());
}
