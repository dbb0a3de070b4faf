//! The board: chequer stacks on 26 slots, the view of each player, the pip
//! count, and the validation and the execution of a submove.

use vstd::prelude::*;

use crate::constants::{BAR, BEAR_OFF, BOARD_SIZE, CHEQUERS_PER_SIDE};
use crate::moves::{all_wf, Move, Submove};
use crate::player::Player;
use crate::rules::{
    applied, hits, legality, lemma_applied_well_formed, lemma_played_stops, played, refusal,
    ApplyError,
};
use crate::slots::{
    blocked, chequers_in, chequers_of, chequers_upto, initial_layout, lemma_chequers_upto_grows,
    lemma_initial_layout_well_formed, lemma_pips_within_reach, lemma_reframe_keeps_chequers,
    lemma_reframe_well_formed, lemma_slot_within_total, lift, pip_count, pips_upto, put, reframe,
    well_formed,
};

verus! {

/// A slot of the board: empty, or one stack of chequers.
pub type MaybePoint = Option<Point>;

/// The slots of a board: slot 0 is the bar, slots 1 to 24 are the points and
/// slot 25 is the bear-off tray.
pub type InternalBoard = [MaybePoint; BOARD_SIZE];

/// Message of the error that a submove gets whose origin holds no chequer.
pub const CHEQUER_DOES_NOT_EXIST: &'static str = "Chequer does not exist.";

/// A stack of chequers, all of one side.
#[derive(Debug, Clone, Copy, PartialEq, Eq, Structural)]
pub struct Point {
    pub owner: Player,
    pub count: u8,
}

impl Point {
    /// A stack of `count` chequers of `owner`.
    pub fn new(owner: Player, count: u8) -> (point: Point)
        ensures
            point == (Point { owner, count }),
    {
        Point { owner, count }
    }
}

/// The state of a game's chequers, in absolute numbering: Black enters on
/// the low points and bears off beyond point 24, White plays the other way.
/// Slot 0 is the bar of Black and the tray of White, slot 25 the bar of
/// White and the tray of Black.
#[derive(Debug, Clone, Copy, PartialEq)]
pub struct Board {
    pub board: InternalBoard,
}

impl Board {
    /// No stack is empty, and each side has its 15 chequers somewhere on the
    /// 26 slots.
    pub open spec fn wf(&self) -> bool {
        well_formed(self.board@)
    }

    /// The slots as `p` sees them: slot 0 is the bar of `p`, slot 25 the
    /// bear-off tray of `p`.
    pub open spec fn view_of(&self, p: Player) -> Seq<MaybePoint> {
        reframe(self.board@, p)
    }

    /// Returns the starting position:
    /// ```markdown
    /// +12-11-10--9--8--7-----6--5--4--3--2--1-+
    /// | B  .  .  .  W  . | | W  .  .  .  .  B |
    /// | B  .  .  .  W  . | | W  .  .  .  .  B |
    /// | B  .  .  .  W  . | | W  .  .  .  .  . |
    /// | B  .  .  .  .  . | | W  .  .  .  .  . |
    /// | B  .  .  .  .  . | | W  .  .  .  .  . |
    /// |                  | |                  |
    /// | W  .  .  .  .  . | | B  .  .  .  .  . |
    /// | W  .  .  .  .  . | | B  .  .  .  .  . |
    /// | W  .  .  .  B  . | | B  .  .  .  .  . |
    /// | W  .  .  .  B  . | | B  .  .  .  .  W |
    /// | W  .  .  .  B  . | | B  .  .  .  .  W |
    /// +13-14-15-16-17-18----19-20-21-22-23-24-+
    /// ```
    pub fn init() -> (b: Board)
        ensures
            b.board@ == initial_layout(),
            b.wf(),
    {
        let mut board: InternalBoard = [None;BOARD_SIZE];
        board[1] = Some(Point::new(Player::Black, 2));
        board[6] = Some(Point::new(Player::White, 5));
        board[8] = Some(Point::new(Player::White, 3));
        board[12] = Some(Point::new(Player::Black, 5));
        board[13] = Some(Point::new(Player::White, 5));
        board[17] = Some(Point::new(Player::Black, 3));
        board[19] = Some(Point::new(Player::Black, 5));
        board[24] = Some(Point::new(Player::White, 2));
        proof {
            assert(board@ =~= initial_layout());
            lemma_initial_layout_well_formed();
        }
        Board { board }
    }

    /// Tells whether the board is well formed: no stack is empty, and each
    /// side has its 15 chequers.
    pub fn is_wf(&self) -> (ok: bool)
        ensures
            ok == self.wf(),
    {
        let mut black: u16 = 0;
        let mut white: u16 = 0;
        let mut i: usize = 0;
        while i < BOARD_SIZE
            invariant
                i <= BOARD_SIZE,
                black == chequers_upto(self.board@, Player::Black, i as nat),
                white == chequers_upto(self.board@, Player::White, i as nat),
                black <= 255 * i,
                white <= 255 * i,
                forall|j: int|
                    0 <= j < i ==> (#[trigger] self.board@[j] matches Some(point) ==> point.count
                        >= 1),
            decreases BOARD_SIZE - i,
        {
            if let Some(point) = self.board[i] {
                if point.count == 0 {
                    return false;
                }
                match point.owner {
                    Player::Black => {
                        black += point.count as u16;
                    },
                    Player::White => {
                        white += point.count as u16;
                    },
                }
            }
            i += 1;
        }
        black == 15 && white == 15
    }

    /// Returns what the slot `slot` of the view of `p` holds.
    pub fn point_at(&self, p: Player, slot: usize) -> (point: MaybePoint)
        requires
            slot < BOARD_SIZE,
        ensures
            point == self.view_of(p)[slot as int],
    {
        match p {
            Player::Black => self.board[slot],
            Player::White => self.board[BOARD_SIZE - 1 - slot],
        }
    }

    /// Returns the number of chequers that `p` has on the bar.
    pub fn bar(&self, p: Player) -> (count: u8)
        ensures
            count == chequers_in(self.view_of(p)[BAR as int], p),
    {
        match self.point_at(p, BAR) {
            Some(point) => if point.owner == p {
                point.count
            } else {
                0
            },
            None => 0,
        }
    }

    /// Returns the board as `p` sees it, with the bar of `p` in slot 0 and
    /// the chequers of `p` travelling towards slot 25. The board itself is
    /// left as it is.
    pub fn board(&self, p: Player) -> (view: InternalBoard)
        ensures
            view@ == self.view_of(p),
    {
        match p {
            Player::White => {
                let mut reversed = self.board;
                let mut i: usize = 0;
                while i < BOARD_SIZE
                    invariant
                        i <= BOARD_SIZE,
                        forall|j: int|
                            0 <= j < i ==> reversed@[j] == self.board@[BOARD_SIZE - 1 - j],
                    decreases BOARD_SIZE - i,
                {
                    reversed[i] = self.board[BOARD_SIZE - 1 - i];
                    i += 1;
                }
                proof {
                    assert(reversed@ =~= self.view_of(p));
                }
                reversed
            },
            Player::Black => self.board,
        }
    }

    /// Returns the pip count of `p`: the number of points that the chequers
    /// of `p` still have to travel, those on the bar 25 each. The side must
    /// not have more than its 15 chequers on the board; counted on the
    /// board or on a view, that is the same number.
    pub fn pips(&self, p: Player) -> (count: u16)
        requires
            chequers_of(self.view_of(p), p) <= CHEQUERS_PER_SIDE || chequers_of(self.board@, p)
                <= CHEQUERS_PER_SIDE,
        ensures
            count == pip_count(self.view_of(p), p),
    {
        let ghost view = self.view_of(p);
        let mut count: u16 = 0;
        let mut i: usize = 0;
        proof {
            lemma_reframe_keeps_chequers(self.board@, p, p);
        }
        while i < BOARD_SIZE
            invariant
                i <= BOARD_SIZE,
                view == self.view_of(p),
                view.len() == BOARD_SIZE,
                chequers_of(view, p) <= CHEQUERS_PER_SIDE,
                count == pips_upto(view, p, i as nat),
            decreases BOARD_SIZE - i,
        {
            proof {
                lemma_pips_within_reach(view, p, (i + 1) as nat);
                lemma_chequers_upto_grows(view, p, (i + 1) as nat, BOARD_SIZE as nat);
            }
            if let Some(point) = self.point_at(p, i) {
                if point.owner == p {
                    let distance: u16 = (BEAR_OFF - i) as u16;
                    count += point.count as u16 * distance;
                }
            }
            i += 1;
        }
        count
    }

    /// Tells whether the slot `slot` of the view of `p` is blocked for `p`.
    fn is_blocked(&self, p: Player, slot: usize) -> (b: bool)
        requires
            slot < BOARD_SIZE,
        ensures
            b == blocked(self.view_of(p)[slot as int], p),
    {
        match self.point_at(p, slot) {
            Some(point) => point.owner != p && point.count >= 2,
            None => false,
        }
    }

    /// Checks a submove of `p` against the movement rules, on the view of
    /// `p`. Returns `Ok(true)` if it is legal and `Ok(false)` if it is not.
    /// A submove that takes a chequer from a point without any stack is an
    /// error, with the message [`CHEQUER_DOES_NOT_EXIST`].
    ///
    /// Checks, in order:
    /// - the chequer exists,
    /// - it belongs to `p`,
    /// - `p` has no chequer on the bar,
    /// - the point of arrival is not blocked.
    ///
    /// An entering chequer is only held to the last of these, and a chequer
    /// borne off to all but the last. The board is left as it is.
    pub fn validate_submove(&self, s: &Submove, p: Player) -> (verdict: Result<bool, &'static str>)
        requires
            s.wf(),
        ensures
            verdict is Err <==> legality(self.view_of(p), *s, p) is None,
            verdict matches Err(message) ==> message@ == CHEQUER_DOES_NOT_EXIST@,
            verdict matches Ok(legal) ==> legality(self.view_of(p), *s, p) == Some(legal),
    {
        match *s {
            Submove::Enter { to } => Ok(!self.is_blocked(p, to + 1)),
            Submove::Move { from, to } => match self.point_at(p, from + 1) {
                None => Err(CHEQUER_DOES_NOT_EXIST),
                Some(point) => Ok(
                    point.owner == p && self.bar(p) == 0 && !self.is_blocked(p, to + 1),
                ),
            },
            Submove::BearOff { from } => match self.point_at(p, from + 1) {
                None => Err(CHEQUER_DOES_NOT_EXIST),
                Some(point) => Ok(point.owner == p && self.bar(p) == 0),
            },
        }
    }

    /// Puts `value` in the slot `slot` of the view of `p`.
    fn set_point(&mut self, p: Player, slot: usize, value: MaybePoint)
        requires
            slot < BOARD_SIZE,
        ensures
            final(self).view_of(p) == old(self).view_of(p).update(slot as int, value),
    {
        match p {
            Player::Black => {
                self.board[slot] = value;
            },
            Player::White => {
                self.board[BOARD_SIZE - 1 - slot] = value;
            },
        }
        proof {
            assert(self.view_of(p) =~= old(self).view_of(p).update(slot as int, value));
        }
    }

    /// Takes one chequer away from the slot `slot` of the view of `p`.
    fn take_from(&mut self, p: Player, slot: usize)
        requires
            slot < BOARD_SIZE,
        ensures
            final(self).view_of(p) == lift(old(self).view_of(p), slot as int),
    {
        match self.point_at(p, slot) {
            Some(point) => {
                if point.count >= 2 {
                    self.set_point(p, slot, Some(Point::new(point.owner, point.count - 1)));
                } else {
                    self.set_point(p, slot, None);
                }
            },
            None => {},
        }
    }

    /// Sets one chequer of `q` down on the slot `slot` of the view of `p`.
    fn put_on(&mut self, p: Player, slot: usize, q: Player)
        requires
            slot < BOARD_SIZE,
            chequers_in(old(self).view_of(p)[slot as int], q) < u8::MAX,
        ensures
            final(self).view_of(p) == put(old(self).view_of(p), slot as int, q),
    {
        let held = match self.point_at(p, slot) {
            Some(point) => if point.owner == q {
                point.count
            } else {
                0
            },
            None => 0,
        };
        self.set_point(p, slot, Some(Point::new(q, held + 1)));
    }

    /// Carries out a submove of `p`, if the slot that the chequer leaves
    /// holds a stack of `p`, the submove is legal and there is room for
    /// what it sets down. A single chequer of the other side on the point
    /// of arrival is sent to the bar. Says otherwise why not, and leaves
    /// the board as it is.
    pub fn apply_submove(&mut self, s: &Submove, p: Player) -> (outcome: Result<(), ApplyError>)
        requires
            old(self).wf(),
            s.wf(),
        ensures
            match refusal(old(self).view_of(p), *s, p) {
                Some(error) => outcome == Err::<(), ApplyError>(error) && *final(self) == *old(
                    self,
                ),
                None => outcome is Ok && final(self).view_of(p) == applied(
                    old(self).view_of(p),
                    *s,
                    p,
                ),
            },
            final(self).wf(),
    {
        let ghost view = self.view_of(p);
        proof {
            lemma_reframe_well_formed(self.board@, p);
        }
        let src = s.source_slot();
        let dst = s.destination_slot();
        match self.point_at(p, src) {
            None => {
                return Err(ApplyError::ChequerDoesNotExist);
            },
            Some(point) => {
                if point.owner != p {
                    return Err(ApplyError::Illegal);
                }
            },
        }
        match self.validate_submove(s, p) {
            Ok(true) => {},
            _ => {
                return Err(ApplyError::Illegal);
            },
        }
        let hit = dst != BEAR_OFF && match self.point_at(p, dst) {
            Some(point) => point.owner != p,
            None => false,
        };
        assert(hit == hits(view, *s, p));
        // The side whose chequer ends in the last slot of the view, if any
        // does: the other side when its chequer is hit, `p` when `p` bears
        // off.
        let settler = if hit {
            p.switch()
        } else {
            p
        };
        if hit || dst == BEAR_OFF {
            if let Some(point) = self.point_at(p, BEAR_OFF) {
                if point.owner != settler {
                    return Err(ApplyError::NoRoom);
                }
            }
        }
        proof {
            lemma_applied_well_formed(view, *s, p);
        }
        self.take_from(p, src);
        if hit {
            self.set_point(p, dst, Some(Point::new(p, 1)));
            proof {
                lemma_slot_within_total(view, settler, BEAR_OFF as int);
            }
            self.put_on(p, BEAR_OFF, settler);
        } else {
            proof {
                lemma_slot_within_total(view, p, dst as int);
            }
            self.put_on(p, dst, p);
        }
        proof {
            lemma_reframe_well_formed(self.board@, p);
        }
        Ok(())
    }

    /// Carries out the submoves of a move of `p` one after the other, each
    /// on the board that the one before it has left. If one of them cannot
    /// be carried out, none is: the board is left as it was, and the error
    /// names that submove by its index and says why.
    pub fn apply_move(&mut self, m: &Move, p: Player) -> (outcome: Result<(), (usize, ApplyError)>)
        requires
            old(self).wf(),
            all_wf(m@),
        ensures
            match played(old(self).view_of(p), m@, p) {
                Ok(view) => outcome is Ok && final(self).view_of(p) == view,
                Err(refused) => outcome == Err::<(), (usize, ApplyError)>(
                    (refused.0 as usize, refused.1),
                ) && *final(self) == *old(self),
            },
            final(self).wf(),
    {
        let before = *self;
        let mut i: usize = 0;
        proof {
            assert(m@.take(0) =~= Seq::<Submove>::empty());
        }
        while i < m.submoves.len()
            invariant
                i <= m@.len(),
                all_wf(m@),
                before == *old(self),
                before.wf(),
                self.wf(),
                played(before.view_of(p), m@.take(i as int), p) == Ok::<
                    Seq<MaybePoint>,
                    (nat, ApplyError),
                >(self.view_of(p)),
            decreases m@.len() - i,
        {
            proof {
                assert(m@.take(i + 1).drop_last() =~= m@.take(i as int));
                assert(m@.take(i + 1).last() == m@[i as int]);
                assert(m@[i as int].wf());
            }
            match self.apply_submove(&m.submoves[i], p) {
                Ok(()) => {},
                Err(error) => {
                    proof {
                        lemma_played_stops(before.view_of(p), m@, i + 1, p);
                    }
                    *self = before;
                    return Err((i, error));
                },
            }
            i += 1;
        }
        proof {
            assert(m@.take(i as int) =~= m@);
        }
        Ok(())
    }
}

} // verus!
