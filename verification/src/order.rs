//! Equality and order of cells: cells are equal when their candidates are,
//! and they are ordered by how hard they are to branch on.

use crate::cell::Cell;
use std::cmp::Ordering;
use vstd::prelude::*;
use vstd::std_specs::cmp::{PartialEqSpecImpl, PartialOrdSpecImpl};

verus! {

impl PartialEq for Cell {
    /// Whether the two cells have the same candidates.
    fn eq(&self, other: &Cell) -> (r: bool) {
        self.value() == other.value()
    }
}

impl PartialEqSpecImpl for Cell {
    open spec fn obeys_eq_spec() -> bool {
        true
    }

    open spec fn eq_spec(&self, other: &Cell) -> bool {
        self.spec_value() == other.spec_value()
    }
}

impl PartialOrd for Cell {
    /// Compares the two cells by rank: fewer candidates come first, and a
    /// known cell comes after every other.
    fn partial_cmp(&self, other: &Cell) -> (r: Option<Ordering>) {
        let s = self.rank();
        let o = other.rank();
        if s < o {
            Some(Ordering::Less)
        } else if o < s {
            Some(Ordering::Greater)
        } else {
            Some(Ordering::Equal)
        }
    }
}

impl PartialOrdSpecImpl for Cell {
    open spec fn obeys_partial_cmp_spec() -> bool {
        true
    }

    open spec fn partial_cmp_spec(&self, other: &Cell) -> Option<Ordering> {
        if self.spec_rank() < other.spec_rank() {
            Some(Ordering::Less)
        } else if other.spec_rank() < self.spec_rank() {
            Some(Ordering::Greater)
        } else {
            Some(Ordering::Equal)
        }
    }
}

} // verus!
