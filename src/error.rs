use vstd::prelude::*;

verus! {

/// Why a chunk of input could not be aggregated.
#[derive(Debug, Clone, Copy, PartialEq, Eq, Structural)]
pub enum AggregateError {
    /// A line does not have the form `name;temperature`, or the text does not end a line.
    MalformedRecord,
    /// More distinct stations than a table has slots.
    CapacityExceeded,
}

} // verus!
