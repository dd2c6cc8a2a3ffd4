//! Approximate solver for the symmetric travelling salesman problem: a
//! bee-colony evolutionary search (a queen tour, random drone tours and a
//! segment-wise crossover between them) refined by a 2-opt local search.
//!
//! Distances are integers: cities sit on an integer grid and the distance
//! between two of them is the integer square root of their squared Euclidean
//! distance.

use vstd::prelude::*;

pub mod abeja;
pub mod azar;
pub mod ciclo;
pub mod colonia;
pub mod mapa;

verus! {

/// What can stop a run before the search starts.
#[derive(Debug, Clone, Copy, PartialEq, Eq, Structural)]
pub enum ErrorColmena {
    /// The coordinates are malformed: out of the supported range, or too many.
    InvalidInput,
    /// There are too few cities for a tour to be searched.
    ConfigurationError,
}

} // verus!
