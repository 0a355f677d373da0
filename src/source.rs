use vstd::prelude::*;

verus! {

/// What a look at a path found there.
#[derive(Clone, Copy, Debug, PartialEq, Eq, Structural)]
pub enum PathKind {
    Missing,
    Directory,
    Other,
}

/// Why a path cannot be the directory to organize.
#[derive(Debug, PartialEq, Eq)]
pub enum SourceError {
    /// Nothing could be found at the path.
    NotFound(String),
    /// The path names something that is not a directory.
    NotADirectory(String),
}

/// Accepts `path` as the directory to organize where a directory is found
/// there, and says why not otherwise.
pub fn check_source_dir(path: &str, kind: PathKind) -> (r: Result<(), SourceError>)
    ensures
        kind == PathKind::Directory <==> r is Ok,
        kind == PathKind::Missing <==> (r matches Err(SourceError::NotFound(p)) && p@ == path@),
        kind == PathKind::Other <==> (r matches Err(SourceError::NotADirectory(p)) && p@ == path@),
{
    match kind {
        PathKind::Directory => Ok(()),
        PathKind::Missing => Err(SourceError::NotFound(path.to_owned())),
        PathKind::Other => Err(SourceError::NotADirectory(path.to_owned())),
    }
}

} // verus!
