//! Scanned directory listings, as plain values.
//!
//! Listing a directory is the caller's business. The search works on what
//! the caller found there: for each root, either its entries in listing
//! order or the reason why it could not be listed.

use vstd::prelude::*;
use crate::kind::EntryKind;

verus! {

/// One entry met while scanning a directory: its base name and its kind.
#[derive(Debug, PartialEq, Eq)]
pub struct Entry {
    pub name: String,
    pub kind: EntryKind,
}

/// The mathematical content of an `Entry`.
pub struct EntryModel {
    pub name: Seq<char>,
    pub kind: EntryKind,
}

impl View for Entry {
    type V = EntryModel;

    open spec fn view(&self) -> EntryModel {
        EntryModel { name: self.name@, kind: self.kind }
    }
}

impl Entry {
    /// An entry with the given base name and kind.
    pub fn new(name: &str, kind: EntryKind) -> (entry: Entry)
        ensures
            entry@ == (EntryModel { name: name@, kind }),
    {
        Entry { name: name.to_owned(), kind }
    }
}

/// Why a root could not be listed.
#[derive(Debug, Clone, Copy, PartialEq, Eq, Structural)]
pub enum ScanFailure {
    /// The root does not exist.
    Missing,
    /// The root may not be read.
    Denied,
    /// The root is not a directory.
    NotADirectory,
    /// Any other failure of the listing step.
    Other,
}

/// The outcome of listing one root.
#[derive(Debug, PartialEq, Eq)]
pub enum Scan {
    /// The root's immediate entries, in the order the listing gave them.
    Listed(Vec<Entry>),
    /// The root could not be listed.
    Failed(ScanFailure),
}

/// The mathematical content of a `Scan`.
pub enum ScanModel {
    Listed(Seq<EntryModel>),
    Failed(ScanFailure),
}

/// The entries of a listing, each taken by its view.
pub open spec fn listing_view(entries: Seq<Entry>) -> Seq<EntryModel> {
    entries.map_values(|entry: Entry| entry@)
}

impl View for Scan {
    type V = ScanModel;

    open spec fn view(&self) -> ScanModel {
        match self {
            Scan::Listed(entries) => ScanModel::Listed(listing_view(entries@)),
            Scan::Failed(cause) => ScanModel::Failed(*cause),
        }
    }
}

/// The scans of all roots, each taken by its view.
pub open spec fn scans_view(scans: Seq<Scan>) -> Seq<ScanModel> {
    scans.map_values(|scan: Scan| scan@)
}

} // verus!
