//! The mathematical model of a board: a sequence of 26 slots, each empty or
//! holding one stack, and what can be counted on it.

use vstd::prelude::*;

use crate::board::{MaybePoint, Point};
use crate::constants::{BEAR_OFF, BOARD_SIZE, CHEQUERS_PER_SIDE};
use crate::player::Player;

verus! {

/// Number of chequers of `p` that a slot holds.
pub open spec fn chequers_in(slot: MaybePoint, p: Player) -> nat {
    match slot {
        Some(point) => if point.owner == p {
            point.count as nat
        } else {
            0
        },
        None => 0,
    }
}

/// A slot is blocked for `p` when the other side holds it with two chequers
/// or more.
pub open spec fn blocked(slot: MaybePoint, p: Player) -> bool {
    slot matches Some(point) && point.owner != p && point.count >= 2
}

/// A slot is free for `p` when it holds no stack of the other side.
pub open spec fn free_for(slot: MaybePoint, p: Player) -> bool {
    slot matches Some(point) ==> point.owner == p
}

/// No stack in the slots is empty.
pub open spec fn stacks_hold_chequers(slots: Seq<MaybePoint>) -> bool {
    forall|i: int|
        0 <= i < slots.len() ==> (#[trigger] slots[i] matches Some(point) ==> point.count >= 1)
}

/// Number of chequers of `p` in the first `n` slots.
pub open spec fn chequers_upto(slots: Seq<MaybePoint>, p: Player, n: nat) -> nat
    decreases n,
{
    if n == 0 {
        0
    } else {
        chequers_upto(slots, p, (n - 1) as nat) + chequers_in(slots[n - 1], p)
    }
}

/// Number of chequers of `p` in all the slots.
pub open spec fn chequers_of(slots: Seq<MaybePoint>, p: Player) -> nat {
    chequers_upto(slots, p, slots.len())
}

/// The slots are those of a position that a game can reach: there are 26 of
/// them, no stack is empty, and each side has its 15 chequers somewhere on
/// them.
pub open spec fn well_formed(slots: Seq<MaybePoint>) -> bool {
    &&& slots.len() == BOARD_SIZE
    &&& stacks_hold_chequers(slots)
    &&& chequers_of(slots, Player::Black) == CHEQUERS_PER_SIDE
    &&& chequers_of(slots, Player::White) == CHEQUERS_PER_SIDE
}

/// Number of points that a chequer in slot `slot` of its owner's view still
/// has to travel to the bear-off tray: 25 from the bar, 24 from the first
/// point, 1 from the last point and nothing from the tray.
pub open spec fn distance_home(slot: int) -> int {
    BEAR_OFF - slot
}

/// Pip count of `p` over the first `n` slots of the view `view` of `p`.
pub open spec fn pips_upto(view: Seq<MaybePoint>, p: Player, n: nat) -> int
    decreases n,
{
    if n == 0 {
        0
    } else {
        pips_upto(view, p, (n - 1) as nat) + chequers_in(view[n - 1], p) * distance_home(n - 1)
    }
}

/// Pip count of `p` on the view `view` of `p`: the sum, over the chequers
/// of `p`, of their distance from the bear-off tray.
pub open spec fn pip_count(view: Seq<MaybePoint>, p: Player) -> int {
    pips_upto(view, p, view.len())
}

/// The slots as `p` sees them: unchanged for Black, who plays towards higher
/// absolute numbers, and turned end to end for White. Slot 0 of the result is
/// the bar of `p`, and slot 25 the bear-off tray of `p`.
pub open spec fn reframe(slots: Seq<MaybePoint>, p: Player) -> Seq<MaybePoint> {
    match p {
        Player::Black => slots,
        Player::White => Seq::new(slots.len(), |i: int| slots[slots.len() - 1 - i]),
    }
}

/// What the starting position holds in absolute slot `i`.
pub open spec fn initial_slot(i: int) -> MaybePoint {
    if i == 1 {
        Some(Point { owner: Player::Black, count: 2 })
    } else if i == 6 {
        Some(Point { owner: Player::White, count: 5 })
    } else if i == 8 {
        Some(Point { owner: Player::White, count: 3 })
    } else if i == 12 {
        Some(Point { owner: Player::Black, count: 5 })
    } else if i == 13 {
        Some(Point { owner: Player::White, count: 5 })
    } else if i == 17 {
        Some(Point { owner: Player::Black, count: 3 })
    } else if i == 19 {
        Some(Point { owner: Player::Black, count: 5 })
    } else if i == 24 {
        Some(Point { owner: Player::White, count: 2 })
    } else {
        None
    }
}

/// The starting position, in absolute numbering.
pub open spec fn initial_layout() -> Seq<MaybePoint> {
    Seq::new(BOARD_SIZE as nat, |i: int| initial_slot(i))
}

/// The slots after one chequer has left slot `slot`: the stack there is one
/// lower, and gone if that chequer was its last.
pub open spec fn lift(slots: Seq<MaybePoint>, slot: int) -> Seq<MaybePoint> {
    match slots[slot] {
        Some(point) => if point.count >= 2 {
            slots.update(slot, Some(Point { owner: point.owner, count: (point.count - 1) as u8 }))
        } else {
            slots.update(slot, None)
        },
        None => slots,
    }
}

/// The slots after one chequer of `p` has come to slot `slot`, which was
/// free for `p`.
pub open spec fn put(slots: Seq<MaybePoint>, slot: int, p: Player) -> Seq<MaybePoint> {
    slots.update(slot, Some(Point { owner: p, count: (chequers_in(slots[slot], p) + 1) as u8 }))
}

/// The first `n` slots hold no more chequers of `p` than the first `m`,
/// where `n <= m`.
pub proof fn lemma_chequers_upto_grows(slots: Seq<MaybePoint>, p: Player, n: nat, m: nat)
    requires
        n <= m,
    ensures
        chequers_upto(slots, p, n) <= chequers_upto(slots, p, m),
    decreases m,
{
    if n < m {
        lemma_chequers_upto_grows(slots, p, n, (m - 1) as nat);
    }
}

/// No slot holds more chequers of `p` than all the slots together.
pub proof fn lemma_slot_within_total(slots: Seq<MaybePoint>, p: Player, k: int)
    requires
        0 <= k < slots.len(),
    ensures
        chequers_in(slots[k], p) <= chequers_of(slots, p),
{
    lemma_chequers_upto_grows(slots, p, (k + 1) as nat, slots.len());
}

/// What the first `n` slots hold after slot `k` has been given `value`.
proof fn lemma_update_upto(slots: Seq<MaybePoint>, k: int, value: MaybePoint, p: Player, n: nat)
    requires
        0 <= k < slots.len(),
        n <= slots.len(),
    ensures
        chequers_upto(slots.update(k, value), p, n) == if k < n {
            chequers_upto(slots, p, n) - chequers_in(slots[k], p) + chequers_in(value, p)
        } else {
            chequers_upto(slots, p, n) as int
        },
    decreases n,
{
    if n > 0 {
        lemma_update_upto(slots, k, value, p, (n - 1) as nat);
        if k < n - 1 {
            lemma_chequers_upto_grows(slots, p, (k + 1) as nat, (n - 1) as nat);
        }
    }
}

/// Giving slot `k` another content changes the number of chequers of `p` by
/// what the new content holds more than the old.
pub proof fn lemma_update_chequers(slots: Seq<MaybePoint>, k: int, value: MaybePoint, p: Player)
    requires
        0 <= k < slots.len(),
    ensures
        chequers_of(slots.update(k, value), p) == chequers_of(slots, p) - chequers_in(
            slots[k],
            p,
        ) + chequers_in(value, p),
{
    lemma_update_upto(slots, k, value, p, slots.len());
}

/// The pip count over the first `n` slots after slot `k` has been given
/// `value`.
proof fn lemma_update_pips_upto(
    view: Seq<MaybePoint>,
    k: int,
    value: MaybePoint,
    p: Player,
    n: nat,
)
    requires
        0 <= k < view.len(),
        n <= view.len(),
    ensures
        pips_upto(view.update(k, value), p, n) == if k < n {
            pips_upto(view, p, n) + (chequers_in(value, p) - chequers_in(view[k], p))
                * distance_home(k)
        } else {
            pips_upto(view, p, n)
        },
    decreases n,
{
    if n > 0 {
        lemma_update_pips_upto(view, k, value, p, (n - 1) as nat);
        if k == n - 1 {
            let new = chequers_in(value, p) as int;
            let old = chequers_in(view[k], p) as int;
            let d = distance_home(k);
            assert((new - old) * d == new * d - old * d) by (nonlinear_arith);
        }
    }
}

/// Giving slot `k` of the view of `p` another content changes the pip count
/// of `p` by the distance of the slot from the tray for each chequer of `p`
/// that the slot holds more than before: by 25 for one more on the bar, and
/// by nothing for any number in the tray.
pub proof fn lemma_update_pips(view: Seq<MaybePoint>, k: int, value: MaybePoint, p: Player)
    requires
        0 <= k < view.len(),
    ensures
        pip_count(view.update(k, value), p) == pip_count(view, p) + (chequers_in(value, p)
            - chequers_in(view[k], p)) * distance_home(k),
{
    lemma_update_pips_upto(view, k, value, p, view.len());
}

/// The chequers of `p` are at most 25 points from the tray each: the pip
/// count over the first `n` slots of a view of 26 is at most 25 times their
/// number.
pub proof fn lemma_pips_within_reach(view: Seq<MaybePoint>, p: Player, n: nat)
    requires
        n <= view.len() == BOARD_SIZE,
    ensures
        0 <= pips_upto(view, p, n) <= 25 * chequers_upto(view, p, n),
    decreases n,
{
    if n > 0 {
        lemma_pips_within_reach(view, p, (n - 1) as nat);
        let c = chequers_in(view[n - 1], p) as int;
        let d = distance_home(n - 1);
        assert(0 <= c * d <= 25 * c) by (nonlinear_arith)
            requires
                0 <= c,
                0 <= d <= 25,
        ;
    }
}

/// The first `n` slots of a board turned end to end hold what its last `n`
/// slots hold.
proof fn lemma_reversed_upto(slots: Seq<MaybePoint>, p: Player, n: nat)
    requires
        n <= slots.len(),
    ensures
        chequers_upto(reframe(slots, Player::White), p, n) + chequers_upto(
            slots,
            p,
            (slots.len() - n) as nat,
        ) == chequers_of(slots, p),
    decreases n,
{
    if n > 0 {
        lemma_reversed_upto(slots, p, (n - 1) as nat);
    }
}

/// Each player's view holds as many chequers of either side as the board.
pub proof fn lemma_reframe_keeps_chequers(slots: Seq<MaybePoint>, p: Player, q: Player)
    ensures
        chequers_of(reframe(slots, p), q) == chequers_of(slots, q),
{
    lemma_reversed_upto(slots, q, slots.len());
}

/// A view is well formed exactly when the board is.
pub proof fn lemma_reframe_well_formed(slots: Seq<MaybePoint>, p: Player)
    ensures
        well_formed(reframe(slots, p)) == well_formed(slots),
{
    lemma_reframe_keeps_chequers(slots, p, Player::Black);
    lemma_reframe_keeps_chequers(slots, p, Player::White);
    let view = reframe(slots, p);
    if stacks_hold_chequers(slots) {
        assert(stacks_hold_chequers(view));
    }
    if stacks_hold_chequers(view) {
        assert forall|i: int| 0 <= i < slots.len() implies (#[trigger] slots[i] matches Some(point)
            ==> point.count >= 1) by {
            if p == Player::White {
                assert(slots[i] == view[slots.len() - 1 - i]);
            }
        }
    }
}

/// Reframing is its own inverse: the view of a view is the board again, so
/// a view never has to be stored.
pub proof fn lemma_reframe_involution(slots: Seq<MaybePoint>, p: Player)
    ensures
        reframe(reframe(slots, p), p) == slots,
{
    assert(reframe(reframe(slots, p), p) =~= slots);
}

/// The starting position is well formed.
pub proof fn lemma_initial_layout_well_formed()
    ensures
        well_formed(initial_layout()),
{
    reveal_with_fuel(chequers_upto, 27);
}

/// In the starting position the pip count of either side is 167.
pub proof fn lemma_initial_pip_count(p: Player)
    ensures
        pip_count(reframe(initial_layout(), p), p) == 167,
{
    reveal_with_fuel(pips_upto, 27);
}

} // verus!
