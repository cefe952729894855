//! A search criterion: a name pattern paired with a filter on entry kinds.

use vstd::prelude::*;
use crate::kind::EntryType;
use crate::listing::{Entry, EntryModel};
use crate::pattern::{EntryName, NamePattern};

verus! {

/// A named entry of some type: the name pattern an entry must satisfy and
/// the kinds of entry that are wanted. Fixed once constructed.
#[derive(Debug)]
pub struct EntryNamed {
    entry_name: EntryName,
    entry_type: EntryType,
}

/// The mathematical content of an `EntryNamed`.
pub struct Criterion {
    pub name: NamePattern,
    pub kind: EntryType,
}

impl Criterion {
    /// The combined predicate: the name satisfies the pattern and the kind
    /// passes the filter.
    pub open spec fn accepts(self, entry: EntryModel) -> bool {
        self.name.accepts(entry.name) && self.kind.accepts(entry.kind)
    }
}

impl View for EntryNamed {
    type V = Criterion;

    open spec fn view(&self) -> Criterion {
        Criterion { name: self.name()@, kind: self.kind() }
    }
}

impl EntryNamed {
    /// The name pattern this criterion was built with.
    pub closed spec fn name(&self) -> EntryName {
        self.entry_name
    }

    /// The type filter this criterion was built with.
    pub closed spec fn kind(&self) -> EntryType {
        self.entry_type
    }

    /// A criterion from a name pattern and a type filter. Nothing is
    /// validated: every pair is a legal criterion.
    pub fn new(entry_name: EntryName, entry_type: EntryType) -> (criterion: Self)
        ensures
            criterion.name() == entry_name,
            criterion.kind() == entry_type,
    {
        Self { entry_name, entry_type }
    }

    /// A criterion for regular files only.
    pub fn file(name: EntryName) -> (criterion: Self)
        ensures
            criterion.name() == name,
            criterion.kind() == EntryType::File,
    {
        Self::new(name, EntryType::File)
    }

    /// A criterion for directories only.
    pub fn folder(name: EntryName) -> (criterion: Self)
        ensures
            criterion.name() == name,
            criterion.kind() == EntryType::Folder,
    {
        Self::new(name, EntryType::Folder)
    }

    /// A criterion for files and directories alike.
    pub fn any(name: EntryName) -> (criterion: Self)
        ensures
            criterion.name() == name,
            criterion.kind() == EntryType::Any,
    {
        Self::new(name, EntryType::Any)
    }

    /// The name pattern.
    pub fn entry_name(&self) -> (name: &EntryName)
        ensures
            *name == self.name(),
    {
        &self.entry_name
    }

    /// The type filter.
    pub fn entry_type(&self) -> (kind: &EntryType)
        ensures
            *kind == self.kind(),
    {
        &self.entry_type
    }

    /// Decides whether a scanned entry satisfies both the name pattern and
    /// the type filter.
    pub fn matches(&self, entry: &Entry) -> (accepted: bool)
        ensures
            accepted == self@.accepts(entry@),
    {
        self.entry_type.matches(entry.kind) && self.entry_name.matches(entry.name.as_str())
    }
}

impl Clone for EntryNamed {
    /// A deep copy: the result stands for the same criterion.
    fn clone(&self) -> (copy: Self)
        ensures
            copy@ == self@,
    {
        Self { entry_name: self.entry_name.clone(), entry_type: self.entry_type }
    }
}

} // verus!
