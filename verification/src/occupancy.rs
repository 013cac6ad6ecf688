//! Counting the occupied cells of an arena.

use vstd::prelude::*;
use vstd::arithmetic::div_mod::lemma_fundamental_div_mod_converse;
use crate::layout::lemma_quotient;

verus! {

/// Number of occupied cells, given for each cell whether it is free.
pub open spec fn occupied_in(free: Seq<bool>) -> nat
    decreases free.len(),
{
    if free.len() == 0 {
        0
    } else {
        occupied_in(free.drop_last()) + if free.last() {
            0nat
        } else {
            1nat
        }
    }
}

/// There are no more occupied cells than cells.
pub proof fn lemma_occupied_bound(free: Seq<bool>)
    ensures
        occupied_in(free) <= free.len(),
    decreases free.len(),
{
    if free.len() > 0 {
        lemma_occupied_bound(free.drop_last());
    }
}

/// Where every cell is free, none is occupied.
pub proof fn lemma_occupied_none(free: Seq<bool>)
    requires
        forall|i: int| 0 <= i < free.len() ==> free[i],
    ensures
        occupied_in(free) == 0,
    decreases free.len(),
{
    if free.len() > 0 {
        lemma_occupied_none(free.drop_last());
    }
}

/// Changing the state of one cell changes the number of occupied cells by
/// that cell alone.
pub proof fn lemma_occupied_update(free: Seq<bool>, ix: int, now_free: bool)
    requires
        0 <= ix < free.len(),
    ensures
        occupied_in(free.update(ix, now_free)) + (if free[ix] {
            0nat
        } else {
            1nat
        }) == occupied_in(free) + (if now_free {
            0nat
        } else {
            1nat
        }),
    decreases free.len(),
{
    let changed = free.update(ix, now_free);
    if ix == free.len() - 1 {
        assert(changed.drop_last() =~= free.drop_last());
    } else {
        lemma_occupied_update(free.drop_last(), ix, now_free);
        assert(changed.drop_last() =~= free.drop_last().update(ix, now_free));
    }
}

/// The occupied cells of two runs of cells, one after the other, are those
/// of the one and those of the other.
pub proof fn lemma_occupied_concat(a: Seq<bool>, b: Seq<bool>)
    ensures
        occupied_in(a + b) == occupied_in(a) + occupied_in(b),
    decreases b.len(),
{
    if b.len() == 0 {
        assert(a + b =~= a);
    } else {
        lemma_occupied_concat(a, b.drop_last());
        assert((a + b).drop_last() =~= a + b.drop_last());
    }
}

/// The states of the cells after growth by the factor `step`: cell `i` has
/// moved to cell `i * step`, and the cells in between are free.
pub open spec fn spread(free: Seq<bool>, step: int) -> Seq<bool> {
    Seq::new((free.len() * step) as nat, |ix: int| !(ix % step == 0 && !free[ix / step]))
}

/// Growth moves the occupied cells and adds none: as many cells are occupied
/// after it as before.
pub proof fn lemma_spread_count(free: Seq<bool>, step: int)
    requires
        0 < step,
    ensures
        occupied_in(spread(free, step)) == occupied_in(free),
    decreases free.len(),
{
    if free.len() == 0 {
        assert(free.len() * step == 0) by (nonlinear_arith)
            requires
                free.len() == 0,
        ;
    } else {
        let rest = free.drop_last();
        let below = rest.len() * step;
        assert(0 <= below && free.len() * step == below + step) by (nonlinear_arith)
            requires
                rest.len() + 1 == free.len(),
                0 < step,
                below == rest.len() * step,
        ;
        let first = seq![free.last()];
        let gap = Seq::new((step - 1) as nat, |k: int| true);
        let joined = spread(rest, step) + (first + gap);
        assert forall|ix: int| 0 <= ix < below + step implies #[trigger] spread(free, step)[ix]
            == joined[ix] by {
            if ix < below {
                lemma_quotient(ix, step, rest.len() as int);
            } else {
                lemma_fundamental_div_mod_converse(ix, step, rest.len() as int, ix - below);
            }
        }
        assert(spread(free, step) =~= joined);
        lemma_spread_count(rest, step);
        lemma_occupied_concat(spread(rest, step), first + gap);
        lemma_occupied_concat(first, gap);
        lemma_occupied_none(gap);
        assert(first.drop_last() =~= Seq::<bool>::empty());
        assert(occupied_in(first.drop_last()) == 0);
    }
}

} // verus!
