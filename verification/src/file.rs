//! A file: its path and what was made of its contents.

use vstd::prelude::*;

verus! {

/// What was read from, or made of, the file at `path`.
#[derive(Clone, Debug)]
pub struct File<T> {
    pub path: String,
    pub contents: T,
}

impl<T> File<T> {
    pub fn new(path: String, contents: T) -> (r: Self)
        ensures
            r.path == path,
            r.contents == contents,
    {
        File { path, contents }
    }
}

} // verus!
