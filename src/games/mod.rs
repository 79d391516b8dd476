//! The games whose heads-up display the pipeline reads.
use crate::roi::RegionOfInterestList;
use vstd::prelude::*;

pub mod apex;

verus! {

/// The games the processor knows.
#[derive(Clone, Copy, Debug, PartialEq, Eq, Structural)]
pub enum SupportedGames {
    Apex,
}

/// A game: the regions of its display that hold readable values.
pub trait Game {
    fn regions(&self) -> RegionOfInterestList;
}

/// The game of the given kind; Apex is the only one.
pub fn new(game: SupportedGames) -> apex::Apex {
    match game {
        SupportedGames::Apex => apex::new(),
    }
}

} // verus!
