//! Filesystem kinds and the filter a criterion puts on them.

use vstd::prelude::*;

verus! {

/// What a scanned directory entry turned out to be.
///
/// A scanner classifies an entry after resolving symbolic links; whatever is
/// then neither a regular file nor a directory is `Other`.
#[derive(Debug, Clone, Copy, PartialEq, Eq, Structural)]
pub enum EntryKind {
    File,
    Folder,
    Other,
}

/// The kinds of entry a criterion lets through.
#[derive(Debug, Clone, Copy, PartialEq, Eq, Structural)]
pub enum EntryType {
    File,
    Folder,
    Any,
}

impl EntryType {
    /// `File` accepts regular files only, `Folder` directories only, and
    /// `Any` accepts both. Nothing accepts `EntryKind::Other`.
    pub open spec fn accepts(self, kind: EntryKind) -> bool {
        match self {
            EntryType::File => kind == EntryKind::File,
            EntryType::Folder => kind == EntryKind::Folder,
            EntryType::Any => kind == EntryKind::File || kind == EntryKind::Folder,
        }
    }

    /// Decides whether an entry of the given kind passes this filter.
    pub fn matches(&self, kind: EntryKind) -> (accepted: bool)
        ensures
            accepted == self.accepts(kind),
    {
        match self {
            EntryType::File => kind == EntryKind::File,
            EntryType::Folder => kind == EntryKind::Folder,
            EntryType::Any => kind == EntryKind::File || kind == EntryKind::Folder,
        }
    }
}

} // verus!
