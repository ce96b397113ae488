use vstd::prelude::*;

verus! {

/// The ways in which an operation on a graph can fail. A failing operation
/// leaves the graph as it was.
#[derive(Debug, Clone, Copy, PartialEq, Eq, Structural)]
pub enum GraphError {
    /// The slot width of the chosen scheme does not fit in a machine word.
    Configuration,
    /// The source vertex index is not a vertex of the graph.
    SourceOutOfRange,
    /// The destination vertex index is not a vertex of the graph.
    DestOutOfRange,
    /// Neither the source nor the destination index is a vertex of the graph.
    BothOutOfRange,
    /// The vertex index to remove is not a vertex of the graph.
    VertexOutOfRange,
    /// The weight is larger than the scheme's maximum weight.
    WeightOverflow,
    /// No vertex holds the given payload.
    PayloadNotFound,
}

} // verus!
