//! What can go wrong in a run.

use vstd::prelude::*;
use crate::syntax::ParseError;

verus! {

/// The options of a run, by name.
#[derive(Clone, Copy, Debug, PartialEq, Eq, Structural)]
pub enum OptionName {
    MaxArity,
    MaxRounds,
    BeamWidth,
    MinUtility,
    ThreadCount,
    InventionCountBudget,
}

/// A configuration that cannot be run.
#[derive(Clone, Copy, Debug, PartialEq, Eq, Structural)]
pub enum ConfigError {
    /// An option name that is not recognised.
    UnknownOption,
    /// A value outside the range of this option.
    OutOfRange(OptionName),
    /// There is no program.
    NoPrograms,
    /// The number of task labels differs from the number of programs.
    TaskCount,
    /// The number of weights differs from the number of programs.
    WeightCount,
    /// The new name at this position of the name mapping is not a symbol.
    BadName(usize),
    /// The supplied invention at this position has a name that is not a
    /// symbol, or a body that is not closed or that has a parameter slot
    /// beyond its arity.
    BadInvention(usize),
}

/// A state that the engine must never be in.
#[derive(Clone, Copy, Debug, PartialEq, Eq, Structural)]
pub enum InvariantViolation {
    /// The program at this position refers to a binder that does not
    /// enclose the reference.
    DanglingVariable(usize),
    /// The program at this position holds a parameter slot.
    StrayParameter(usize),
}

/// Why a run failed.
#[derive(Clone, Copy, Debug, PartialEq, Eq, Structural)]
pub enum Error {
    /// The text of the program at position `program` does not parse.
    Parse { program: usize, error: ParseError },
    /// The body of the supplied invention at position `invention` does not
    /// parse.
    ParseInvention { invention: usize, error: ParseError },
    /// The configuration or the shape of the input is wrong.
    Configuration(ConfigError),
    /// An invariant of the engine is broken.
    Invariant(InvariantViolation),
    /// The program at position `program` has, or would get, more nodes than
    /// the engine accounts for.
    TooLarge { program: usize },
}

} // verus!
