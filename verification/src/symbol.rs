//! The two symbols a resolved cell can hold, ordered `Sun < Moon`.

use std::cmp::Ordering;
use vstd::prelude::*;
use vstd::std_specs::cmp::PartialOrdSpecImpl;

verus! {

/// A resolved symbol.
#[derive(Debug, Clone, Copy, PartialEq, Eq, Hash, Structural)]
pub enum SolvedSquare {
    Sun,
    Moon,
}

impl PartialOrd for SolvedSquare {
    fn partial_cmp(&self, other: &Self) -> (r: Option<Ordering>) {
        match (self, other) {
            (SolvedSquare::Sun, SolvedSquare::Sun) => Some(Ordering::Equal),
            (SolvedSquare::Sun, SolvedSquare::Moon) => Some(Ordering::Less),
            (SolvedSquare::Moon, SolvedSquare::Sun) => Some(Ordering::Greater),
            (SolvedSquare::Moon, SolvedSquare::Moon) => Some(Ordering::Equal),
        }
    }
}

/// `Sun` sorts before `Moon`; equal symbols compare equal.
impl PartialOrdSpecImpl for SolvedSquare {
    open spec fn obeys_partial_cmp_spec() -> bool {
        true
    }

    open spec fn partial_cmp_spec(&self, other: &Self) -> Option<Ordering> {
        match (*self, *other) {
            (SolvedSquare::Sun, SolvedSquare::Moon) => Some(Ordering::Less),
            (SolvedSquare::Moon, SolvedSquare::Sun) => Some(Ordering::Greater),
            _ => Some(Ordering::Equal),
        }
    }
}

} // verus!
