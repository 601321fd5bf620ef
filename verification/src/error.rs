//! Failures of the three stages.  Every failure is fatal to the
//! compilation unit and carries the name of the node it arose in, and
//! the offending identifier where one exists.

use vstd::prelude::*;

verus! {

#[derive(Debug)]
pub enum CompileError {
    /// A `fby` whose two sides are one tuple and one non-tuple, or two
    /// tuples of different arities.
    TupleArityMismatch { node: String },
    /// Two equations of one node define the same name.
    DuplicateDefinition { node: String, name: String },
    /// A name needs its own value within the current cycle: an
    /// instantaneous dependency cycle.
    Cycle { node: String, name: String },
    /// An `fby` whose initial operand is an identifier, not a constant.
    NonConstFbyInit { node: String, name: String },
}

/// Mathematical value of a failure.
#[verifier::ext_equal]
pub enum CompileErrorV {
    TupleArityMismatch { node: Seq<char> },
    DuplicateDefinition { node: Seq<char>, name: Seq<char> },
    Cycle { node: Seq<char>, name: Seq<char> },
    NonConstFbyInit { node: Seq<char>, name: Seq<char> },
}

impl View for CompileError {
    type V = CompileErrorV;

    open spec fn view(&self) -> CompileErrorV {
        match self {
            CompileError::TupleArityMismatch { node } => CompileErrorV::TupleArityMismatch {
                node: node@,
            },
            CompileError::DuplicateDefinition { node, name } => {
                CompileErrorV::DuplicateDefinition { node: node@, name: name@ }
            },
            CompileError::Cycle { node, name } => CompileErrorV::Cycle {
                node: node@,
                name: name@,
            },
            CompileError::NonConstFbyInit { node, name } => CompileErrorV::NonConstFbyInit {
                node: node@,
                name: name@,
            },
        }
    }
}

} // verus!
