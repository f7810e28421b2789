use vstd::prelude::*;

verus! {

/// The failures of the task-synthesis pipeline.
#[derive(Debug, Clone, PartialEq, Eq)]
pub enum IlnlpError {
    /// Two examples disagree on what a shared scenario entails.
    IncompatibleOne,
    /// The least model of the definite rules under one example's input
    /// already holds the other example's input.
    IncompatibleTwo,
    /// An answer set of the definite rules under one example's input
    /// holds the other example's input.
    IncompatibleThree,
    /// A failure reported by the answer-set solver.
    Clingo(String),
    /// The solver produced no model within the requested limit.
    NoModel,
    /// An identifier that the registry never assigned.
    InvalidLit(usize),
    /// A failure of the text front end.
    ParserError(String),
    /// A failure of the template renderer.
    TeraError(String),
}

} // verus!
