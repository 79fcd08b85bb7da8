//! Loading a stored snapshot into a live store: all or nothing.

use crate::store::{mapping_of, Entry, VectorStore};
use vstd::prelude::*;

verus! {

/// What was found where the snapshot is kept.
#[derive(Clone, Debug, PartialEq, Eq)]
pub enum StoredFile {
    /// Nothing could be read there.
    Missing,
    /// Something was read, but it is not a mapping from identifier to vector.
    Malformed,
    /// The entries that were read.
    Parsed(Vec<Entry>),
}

/// How an attempt to load ended.
#[derive(Clone, Copy, Debug, PartialEq, Eq, Structural)]
pub enum LoadOutcome {
    /// The store now holds exactly what was read.
    Loaded,
    /// What was read could not be understood; the store is as it was.
    LoadError,
    /// There was nothing to read; the store is as it was.
    NoFile,
}

impl LoadOutcome {
    /// The word under which an outcome is reported.
    pub open spec fn spec_status(self) -> Seq<char> {
        match self {
            LoadOutcome::Loaded => "loaded"@,
            LoadOutcome::LoadError => "load_error"@,
            LoadOutcome::NoFile => "no_file"@,
        }
    }

    /// The word under which this outcome is reported.
    pub fn status(self) -> (word: &'static str)
        ensures
            word@ == self.spec_status(),
    {
        match self {
            LoadOutcome::Loaded => "loaded",
            LoadOutcome::LoadError => "load_error",
            LoadOutcome::NoFile => "no_file",
        }
    }
}

/// Loads `file` into `store`. Only entries that were read in full replace the
/// store's contents, and then they replace all of it; in every other case the
/// store keeps what it held.
pub fn load(store: &mut VectorStore, file: StoredFile) -> (outcome: LoadOutcome)
    ensures
        match file {
            StoredFile::Missing => outcome == LoadOutcome::NoFile && final(store)@ == old(store)@,
            StoredFile::Malformed => outcome == LoadOutcome::LoadError && final(store)@ == old(
                store,
            )@,
            StoredFile::Parsed(entries) => outcome == LoadOutcome::Loaded && final(store)@
                == mapping_of(entries@),
        },
{
    match file {
        StoredFile::Missing => LoadOutcome::NoFile,
        StoredFile::Malformed => LoadOutcome::LoadError,
        StoredFile::Parsed(entries) => {
            store.replace(entries);
            LoadOutcome::Loaded
        },
    }
}

} // verus!
