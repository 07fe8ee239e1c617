//! What a server and a viewer in a browser tell each other.

use std::ops::Range;
use std::path::PathBuf;

use vstd::prelude::*;

use crate::process::Algorithm;

verus! {

/// A file or a directory of the storage as the server lists it.
#[derive(Debug)]
pub enum FSRepr {
    File { path: PathBuf },
    Directory { path: PathBuf, children: Vec<FSRepr> },
}

/// `Path::file_name` of std on `path`, as text: the last part of the path,
/// if it has one and that is valid UTF-8. Nothing is claimed of the result.
#[verifier::external_body]
fn file_name_of(path: &PathBuf) -> (name: Option<&str>) {
    match path.file_name() {
        Some(name) => name.to_str(),
        None => None,
    }
}

impl FSRepr {
    /// The path of the entry.
    pub open spec fn path(&self) -> PathBuf {
        match self {
            FSRepr::File { path } => *path,
            FSRepr::Directory { path, .. } => *path,
        }
    }

    /// The name of the entry without the directories above it: the last
    /// part of its path, where std finds one that is text.
    pub fn to_filename(&self) -> (name: Option<&str>) {
        let path = match self {
            FSRepr::File { path } => path,
            FSRepr::Directory { path, .. } => path,
        };
        file_name_of(path)
    }
}

/// What to do with a point.
#[derive(PartialEq, Clone, Copy, Debug)]
pub struct ProcessParams {
    pub algorithm: Algorithm,
    pub convert_to_kev: bool,
}

/// What a viewer asks of the server.
#[derive(Debug)]
pub enum ProcessRequest {
    /// The events of a point with amplitudes in `range`, in millionths.
    FilterEvents {
        filepath: PathBuf,
        range: Range<i64>,
        neighborhood: usize,
        algorithm: Algorithm,
        convert_kev: bool,
    },
    SplitTimeChunks { filepath: PathBuf },
}

/// What the server answers.
pub struct ProcessResponse {}

} // verus!
