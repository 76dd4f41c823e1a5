//! The order in which a search ranks its states: by evaluated score alone.
//! Two states of equal score are equal in this order, whatever else holds of
//! them.

use crate::maze::MazeState;
use core::cmp::Ordering;
use vstd::prelude::*;

verus! {

impl PartialEq for MazeState {
    /// Two states are equal in rank when their evaluated scores are.
    fn eq(&self, other: &Self) -> (equal: bool) {
        self.evaluated_score() == other.evaluated_score()
    }
}

impl vstd::std_specs::cmp::PartialEqSpecImpl for MazeState {
    open spec fn obeys_eq_spec() -> bool {
        true
    }

    open spec fn eq_spec(&self, other: &Self) -> bool {
        self@.evaluated_score == other@.evaluated_score
    }
}

impl Eq for MazeState {}

impl PartialOrd for MazeState {
    /// Compares two states by evaluated score.
    fn partial_cmp(&self, other: &Self) -> (order: Option<Ordering>) {
        let mine = self.evaluated_score();
        let theirs = other.evaluated_score();
        if mine < theirs {
            Some(Ordering::Less)
        } else if mine == theirs {
            Some(Ordering::Equal)
        } else {
            Some(Ordering::Greater)
        }
    }
}

impl vstd::std_specs::cmp::PartialOrdSpecImpl for MazeState {
    open spec fn obeys_partial_cmp_spec() -> bool {
        true
    }

    open spec fn partial_cmp_spec(&self, other: &Self) -> Option<Ordering> {
        if self@.evaluated_score < other@.evaluated_score {
            Some(Ordering::Less)
        } else if self@.evaluated_score == other@.evaluated_score {
            Some(Ordering::Equal)
        } else {
            Some(Ordering::Greater)
        }
    }
}

/// True when the first state is ranked above the second.
pub fn ranks_above(first: &MazeState, second: &MazeState) -> (above: bool)
    ensures
        above == (first@.evaluated_score > second@.evaluated_score),
{
    first > second
}

} // verus!
