//! Keeping track of the best cell seen so far while the cells are scanned for
//! the one of lowest entropy.

use vstd::prelude::*;

verus! {

/// How the entropy of a newly seen cell compares with that of the best cell
/// so far, two entropies closer than the tolerance counting as tied.
#[derive(Debug, Clone, Copy, PartialEq, Eq, Structural)]
pub enum EntropyOrder {
    Lower,
    Higher,
    Tied,
}

/// The best cell seen so far, and how many cells tied with it have been seen,
/// itself included.
#[derive(Debug, Clone, Copy, PartialEq, Eq, Structural)]
pub struct FoundFieldPoint {
    pub point_index: usize,
    pub num_encountered: usize,
}

impl FoundFieldPoint {
    /// The best cell after one more cell was seen.
    ///
    /// A cell of lower entropy takes over and starts a new count; one of
    /// higher entropy changes nothing.  A tied cell is counted, and takes
    /// over where `replace` says so: drawn with a chance of one in the
    /// number of tied cells seen so far, the new one included, that leaves
    /// each tied cell equally likely to be the one that stays.
    pub open spec fn bettered(
        self,
        new_point_index: usize,
        order: EntropyOrder,
        replace: bool,
    ) -> FoundFieldPoint {
        match order {
            EntropyOrder::Lower => FoundFieldPoint { point_index: new_point_index,
                num_encountered: 1 },
            EntropyOrder::Higher => self,
            EntropyOrder::Tied => FoundFieldPoint {
                point_index: if replace {
                    new_point_index
                } else {
                    self.point_index
                },
                num_encountered: if self.num_encountered < usize::MAX {
                    (self.num_encountered + 1) as usize
                } else {
                    self.num_encountered
                },
            },
        }
    }

    /// The first cell seen.
    pub fn new(point_index: usize) -> (found: FoundFieldPoint)
        ensures
            found == (FoundFieldPoint { point_index, num_encountered: 1 }),
    {
        FoundFieldPoint { point_index, num_encountered: 1 }
    }

    /// Takes one more cell into account.
    pub fn possibly_better(
        self,
        new_point_index: usize,
        order: EntropyOrder,
        replace: bool,
    ) -> (found: FoundFieldPoint)
        ensures
            found == self.bettered(new_point_index, order, replace),
    {
        match order {
            EntropyOrder::Lower => FoundFieldPoint::new(new_point_index),
            EntropyOrder::Higher => self,
            EntropyOrder::Tied => {
                let num_encountered = if self.num_encountered < usize::MAX {
                    self.num_encountered + 1
                } else {
                    self.num_encountered
                };
                if replace {
                    FoundFieldPoint { point_index: new_point_index, num_encountered }
                } else {
                    FoundFieldPoint { point_index: self.point_index, num_encountered }
                }
            },
        }
    }
}

} // verus!
