//! The errors that the operations of this crate report.

use vstd::prelude::*;

verus! {

/// A broken invariant of a doubly connected edge list, with the records
/// involved given by their indices.
#[derive(Copy, Clone, Debug, PartialEq, Eq, Structural)]
pub enum Violation {
    /// The half-edge has no twin.
    MissingTwin { edge: usize },
    /// The twin of the half-edge does not name the half-edge as its own twin.
    TwinMismatch { edge: usize, twin: usize },
    /// The half-edge has no successor.
    MissingNext { edge: usize },
    /// The successor of the half-edge does not name it as its predecessor.
    NextMismatch { edge: usize, next: usize },
    /// The half-edge has no predecessor.
    MissingPrev { edge: usize },
    /// The predecessor of the half-edge does not name it as its successor.
    PrevMismatch { edge: usize, prev: usize },
    /// The half-edge has no origin.
    MissingOrigin { edge: usize },
    /// The half-edge has no incident face.
    MissingFace { edge: usize },
    /// The vertex has no incident half-edge.
    MissingIncidentEdge { vertex: usize },
    /// The incident half-edge of the vertex does not start at the vertex.
    IncidentEdgeMismatch { vertex: usize, edge: usize },
    /// The half-edge lies on the boundary that starts at `start`, which the
    /// face names as one of its boundaries, but is not incident to the face.
    FaceMismatch { face: usize, start: usize, edge: usize },
}

/// The ways in which an operation can fail.
#[derive(Copy, Clone, Debug, PartialEq, Eq, Structural)]
pub enum GeometryError {
    /// A segment handed to the intersection search has no length.
    IllegalSegment,
    /// Fewer than three points were given where a polygon's area was asked for.
    DegeneratePolygon,
    /// Fewer than three points were given to build a subdivision from.
    InsufficientPoints,
    /// The two half-edges cannot be joined by a diagonal that splits a face.
    InvalidSplit,
    /// The face has no outer boundary.
    MissingBoundary,
    /// The subdivision breaks an invariant; the first one found is given.
    StructuralViolation(Violation),
}

} // verus!
