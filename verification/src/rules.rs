//! The movement rules, stated on the view of the player who moves.

use vstd::prelude::*;

use crate::board::{MaybePoint, Point};
use crate::constants::{BAR, BEAR_OFF};
use crate::moves::Submove;
use crate::player::Player;
use crate::slots::{
    blocked, chequers_in, chequers_of, free_for, lemma_slot_within_total, lemma_update_chequers,
    lift, put, stacks_hold_chequers, well_formed,
};

verus! {

/// Why a submove was not carried out.
#[derive(Debug, Clone, Copy, PartialEq, Eq, Structural)]
pub enum ApplyError {
    /// The slot that the chequer should leave holds no stack.
    ChequerDoesNotExist,
    /// The movement rules forbid the submove.
    Illegal,
    /// The slot that has to take a chequer is held by the other side: the
    /// mover bears off while chequers of the other side wait on their bar,
    /// or hits a chequer while chequers of the mover's own lie in the tray.
    /// Both share the last slot of the mover's view.
    NoRoom,
}

/// What the movement rules say of a submove of `p` on the view `view` of
/// `p`: `None` when the submove takes a chequer from a point that holds no
/// stack, else whether the submove is legal.
///
/// A chequer may enter on any point that is not blocked. A chequer may move
/// when it is the mover's own, the mover has nothing on the bar and the point
/// of arrival is not blocked. A chequer may be borne off when it is the
/// mover's own and the mover has nothing on the bar.
pub open spec fn legality(view: Seq<MaybePoint>, s: Submove, p: Player) -> Option<bool> {
    match s {
        Submove::Enter { to } => Some(!blocked(view[to + 1], p)),
        Submove::Move { from, to } => match view[from + 1] {
            None => None,
            Some(point) => Some(
                point.owner == p && chequers_in(view[BAR as int], p) == 0 && !blocked(
                    view[to + 1],
                    p,
                ),
            ),
        },
        Submove::BearOff { from } => match view[from + 1] {
            None => None,
            Some(point) => Some(point.owner == p && chequers_in(view[BAR as int], p) == 0),
        },
    }
}

/// The submove of `p` lands on a point that holds a single chequer of the
/// other side.
pub open spec fn hits(view: Seq<MaybePoint>, s: Submove, p: Player) -> bool {
    &&& s !is BearOff
    &&& view[s.destination()] matches Some(point)
    &&& point.owner != p
    &&& point.count == 1
}

/// Every chequer that the submove of `p` sets down finds a slot that is free
/// for its side: the tray of `p` for a chequer borne off, and the bar of the
/// other side, which is the last slot of the view of `p` too, for a chequer
/// that was hit.
pub open spec fn has_room(view: Seq<MaybePoint>, s: Submove, p: Player) -> bool {
    if hits(view, s, p) {
        free_for(view[BEAR_OFF as int], p.opponent())
    } else if s is BearOff {
        free_for(view[BEAR_OFF as int], p)
    } else {
        true
    }
}

/// Why the submove of `p` cannot be carried out on the view `view` of `p`,
/// or `None` if it can. The slot that the chequer leaves must hold a stack,
/// the stack must belong to `p`, the submove must be legal, and there must
/// be room for what it sets down.
pub open spec fn refusal(view: Seq<MaybePoint>, s: Submove, p: Player) -> Option<ApplyError> {
    match view[s.source()] {
        None => Some(ApplyError::ChequerDoesNotExist),
        Some(point) => if point.owner != p || legality(view, s, p) != Some(true) {
            Some(ApplyError::Illegal)
        } else if !has_room(view, s, p) {
            Some(ApplyError::NoRoom)
        } else {
            None
        },
    }
}

/// The view of `p` after the submove of `p` has been carried out. The
/// chequer leaves its slot and is set down where it arrives. A single
/// chequer of the other side that it finds there goes to the bar of the
/// other side, which is the last slot of the view of `p`.
pub open spec fn applied(view: Seq<MaybePoint>, s: Submove, p: Player) -> Seq<MaybePoint> {
    let lifted = lift(view, s.source());
    if hits(view, s, p) {
        put(
            lifted.update(s.destination(), Some(Point { owner: p, count: 1 })),
            BEAR_OFF as int,
            p.opponent(),
        )
    } else {
        put(lifted, s.destination(), p)
    }
}

/// The view of `p` after the submoves of `p` have been carried out one after
/// the other, each on what the one before it has left. Where one of them
/// cannot be carried out, the result is the index of the first such submove
/// and why it cannot.
pub open spec fn played(view: Seq<MaybePoint>, submoves: Seq<Submove>, p: Player) -> Result<
    Seq<MaybePoint>,
    (nat, ApplyError),
>
    decreases submoves.len(),
{
    if submoves.len() == 0 {
        Ok(view)
    } else {
        match played(view, submoves.drop_last(), p) {
            Ok(reached) => match refusal(reached, submoves.last(), p) {
                Some(error) => Err(((submoves.len() - 1) as nat, error)),
                None => Ok(applied(reached, submoves.last(), p)),
            },
            Err(refused) => Err(refused),
        }
    }
}

/// A submove that takes a chequer from a point without a stack is an error,
/// and no other submove is.
pub proof fn lemma_missing_chequer(view: Seq<MaybePoint>, s: Submove, p: Player)
    ensures
        legality(view, s, p) is None <==> s !is Enter && view[s.source()] is None,
{
}

/// A submove that takes a chequer of the other side from a point is
/// illegal, and not an error.
pub proof fn lemma_foreign_chequer(view: Seq<MaybePoint>, s: Submove, p: Player)
    requires
        s !is Enter,
        view[s.source()] matches Some(point) && point.owner != p,
    ensures
        legality(view, s, p) == Some(false),
{
}

/// While a side has a chequer on the bar, it may neither move nor bear off,
/// whatever else holds: such a submove is illegal, or an error where it
/// takes a chequer from a point without a stack. The side may enter on
/// every point that is not blocked.
pub proof fn lemma_bar_comes_first(view: Seq<MaybePoint>, s: Submove, p: Player)
    requires
        chequers_in(view[BAR as int], p) >= 1,
    ensures
        s !is Enter ==> legality(view, s, p) != Some(true),
        s !is Enter && view[s.source()] is Some ==> legality(view, s, p) == Some(false),
        s matches Submove::Enter { to } ==> legality(view, s, p) == Some(
            !blocked(view[to + 1], p),
        ),
{
}

/// A point that holds two or more chequers of the other side can neither be
/// entered on nor moved to: such a submove is illegal, or an error where it
/// takes a chequer from a point without a stack.
pub proof fn lemma_blocked_point(view: Seq<MaybePoint>, s: Submove, p: Player)
    requires
        s !is BearOff,
        view[s.destination()] matches Some(point) && point.owner != p && point.count >= 2,
    ensures
        legality(view, s, p) != Some(true),
        s is Enter ==> legality(view, s, p) == Some(false),
        s is Move && view[s.source()] is Some ==> legality(view, s, p) == Some(false),
{
}

/// A single chequer of the other side does not close a point: a chequer may
/// enter on it, and a chequer of the mover's own may move to it when the
/// mover has nothing on the bar.
pub proof fn lemma_single_chequer_can_be_hit(view: Seq<MaybePoint>, s: Submove, p: Player)
    requires
        hits(view, s, p),
    ensures
        !blocked(view[s.destination()], p),
        s is Enter ==> legality(view, s, p) == Some(true),
        s is Move && chequers_in(view[BAR as int], p) == 0 && (view[s.source()] matches Some(point)
            && point.owner == p) ==> legality(view, s, p) == Some(true),
{
}

/// Where the first `n` submoves cannot all be carried out, no submove after
/// them changes which one is refused, nor why.
pub proof fn lemma_played_stops(view: Seq<MaybePoint>, submoves: Seq<Submove>, n: int, p: Player)
    requires
        0 <= n <= submoves.len(),
        played(view, submoves.take(n), p) is Err,
    ensures
        played(view, submoves, p) == played(view, submoves.take(n), p),
    decreases submoves.len(),
{
    if n == submoves.len() {
        assert(submoves.take(n) =~= submoves);
    } else {
        assert(submoves.drop_last().take(n) =~= submoves.take(n));
        lemma_played_stops(view, submoves.drop_last(), n, p);
    }
}

/// Carrying out a submove keeps a well-formed view well formed: no stack
/// becomes empty, and each side keeps its 15 chequers.
pub proof fn lemma_applied_well_formed(view: Seq<MaybePoint>, s: Submove, p: Player)
    requires
        well_formed(view),
        s.wf(),
        refusal(view, s, p) is None,
    ensures
        well_formed(applied(view, s, p)),
        chequers_of(applied(view, s, p), p) == chequers_of(view, p),
        chequers_of(applied(view, s, p), p.opponent()) == chequers_of(view, p.opponent()),
{
    let q = p.opponent();
    let src = s.source();
    let dst = s.destination();
    let last = BEAR_OFF as int;
    let lifted = lift(view, src);
    let left = match view[src] {
        Some(point) => if point.count >= 2 {
            Some(Point { owner: point.owner, count: (point.count - 1) as u8 })
        } else {
            None
        },
        None => None,
    };
    assert(lifted == view.update(src, left));
    lemma_update_chequers(view, src, left, p);
    lemma_update_chequers(view, src, left, q);
    assert(stacks_hold_chequers(lifted));
    if hits(view, s, p) {
        let taken = lifted.update(dst, Some(Point { owner: p, count: 1 }));
        lemma_update_chequers(lifted, dst, Some(Point { owner: p, count: 1 }), p);
        lemma_update_chequers(lifted, dst, Some(Point { owner: p, count: 1 }), q);
        let sent = Some(Point { owner: q, count: (chequers_in(taken[last], q) + 1) as u8 });
        lemma_update_chequers(taken, last, sent, p);
        lemma_update_chequers(taken, last, sent, q);
        lemma_slot_within_total(taken, q, last);
        assert(stacks_hold_chequers(applied(view, s, p)));
    } else {
        let set = Some(Point { owner: p, count: (chequers_in(lifted[dst], p) + 1) as u8 });
        lemma_update_chequers(lifted, dst, set, p);
        lemma_update_chequers(lifted, dst, set, q);
        lemma_slot_within_total(lifted, p, dst);
        assert(stacks_hold_chequers(applied(view, s, p)));
    }
}

} // verus!
