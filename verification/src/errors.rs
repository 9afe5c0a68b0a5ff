//! Errors of the conversion into static single assignment form.
use vstd::prelude::*;

verus! {

/// The index of a source file.
pub type FileID = usize;

/// A range of positions in a source file.
#[derive(Clone, Copy, Debug, PartialEq, Eq, Structural)]
pub struct FileLocation {
    pub start: usize,
    pub end: usize,
}

/// Why a conversion failed.
#[derive(Clone, Copy, Debug, PartialEq, Eq, Structural)]
pub enum SSAError {
    /// The variable `name` is read at `location`, where no version of it is
    /// visible.
    UndefinedVariableError { name: usize, file_id: Option<FileID>, location: FileLocation },
    /// The variable `name` is assigned more often than versions can count.
    TooManyVersionsError { name: usize },
}

/// The result of a step of the conversion.
pub type SSAResult<T> = Result<T, SSAError>;

} // verus!
