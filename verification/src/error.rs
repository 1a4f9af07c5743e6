use vstd::prelude::*;

verus! {

/// Which of a model's three distributions a validation error refers to.
#[derive(Copy, Clone, Debug, PartialEq, Eq, Structural)]
pub enum Dist {
    Start,
    Transition,
    Emission,
}

/// Every failure the engine can report. All variants are recoverable values;
/// no verified function panics.
#[derive(Copy, Clone, Debug, PartialEq, Eq, Structural)]
pub enum HmmError {
    /// An exact rational result did not fit in 64-bit numerator/denominator form.
    Overflow,
    /// A start probability was asked for a state outside the distribution.
    NoStartEntry { state: usize, entries: usize },
    /// An emission probability was asked outside the distribution table.
    NoEmissionEntry { state: usize, observation: usize, states: usize, emissions: usize },
    /// A transition probability was asked outside the distribution table.
    NoTransitionEntry { from: usize, to: usize, states: usize },
    /// A sparse distribution was queried for a wholly unknown source state.
    UnknownState,
    /// A distribution whose rows must each sum to one does not, beyond tolerance.
    NotRowStochastic { which: Dist },
    /// A model needs more than one hidden state to carry information.
    TooFewStates { got: usize },
    /// A discrete model needs more than one possible emission.
    TooFewEmissions { got: usize },
    /// A distribution table has the wrong shape.
    BadDimensions { rows: usize, cols: usize, need_rows: usize, need_cols: usize },
    /// An algorithm that needs at least one observation got none.
    EmptyObservations,
    /// A training path holds no points.
    EmptyPath,
    /// No state sequence is consistent with the observations: a scaling
    /// denominator came out zero.
    ZeroProbability,
}

} // verus!
