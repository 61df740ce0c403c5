use vstd::prelude::*;

verus! {

/// Why a triangulation refused a vertex.
#[derive(Clone, Copy, Debug, PartialEq, Eq, Structural)]
pub enum InsertionFailure {
    /// A coordinate is closer to zero than the triangulation can tell from it.
    TooSmall,
    /// A coordinate is larger than the triangulation can handle.
    TooLarge,
    /// A coordinate is not a number.
    NotANumber,
}

/// Why a run ended without a raster.
#[derive(Debug, PartialEq, Eq)]
pub enum Error {
    /// Reading or writing a file failed.
    Disconnect(String),
    /// The point cloud could not be decoded.
    Las(String),
    /// The raster could not be encoded.
    Gdal(String),
    /// The triangulation refused a vertex.
    Insertion(InsertionFailure),
    /// No raster driver writes files with this extension.
    NoDriverForExtension(String),
    /// The caller and the library disagree about the state of the run.
    ShouldntHappen(String),
}

} // verus!
