//! Sorting references by round, with the sort of `itertools`.

use crate::types::{BlockReference, RoundNumber};
use itertools::Itertools;
use std::cmp::Ordering;
use vstd::prelude::*;

verus! {

/// How two references compare by round.
pub fn round_order(a: &BlockReference, b: &BlockReference) -> (r: Ordering)
    ensures
        r == Ordering::Less <==> a.round < b.round,
        r == Ordering::Greater <==> a.round > b.round,
        r == Ordering::Equal <==> a.round == b.round,
{
    if a.round < b.round {
        Ordering::Less
    } else if a.round > b.round {
        Ordering::Greater
    } else {
        Ordering::Equal
    }
}

/// The condition of being of round `round`.
pub open spec fn of_round(round: RoundNumber) -> spec_fn(BlockReference) -> bool {
    |x: BlockReference| x.round == round
}

/// Whether the rounds of `list` never go down.
pub open spec fn rounds_ascend(list: Seq<BlockReference>) -> bool {
    forall|i: int, j: int|
        0 <= i <= j < list.len() ==> (#[trigger] list[i]).round <= (#[trigger] list[j]).round
}

/// Calls `Itertools::sorted_by` with [`round_order`]. It collects the items
/// and sorts them with the stable sort of slices: in the result the rounds
/// never go down, and the items of one round are those of the argument, in
/// the order they had there.
#[verifier::external_body]
pub(crate) fn sorted_by_round(references: Vec<BlockReference>) -> (sorted: Vec<BlockReference>)
    ensures
        rounds_ascend(sorted@),
        forall|round: RoundNumber| #[trigger]
            sorted@.filter(of_round(round)) == references@.filter(of_round(round)),
{
    references.into_iter().sorted_by(round_order).collect()
}

} // verus!
