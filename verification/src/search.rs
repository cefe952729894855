//! The search: applying a criterion to the scans of one or more roots.
//!
//! Roots are taken in the order given and only their immediate entries are
//! looked at. A root that could not be listed stops the search with an
//! error as soon as the search reaches it.

use vstd::prelude::*;
use crate::criterion::{Criterion, EntryNamed};
use crate::guarantees::{
    lemma_find_all_at_failure, lemma_find_one_at_failure, lemma_find_one_at_hit,
    lemma_first_hit_in, lemma_held_scans_are_addressable, lemma_no_hit_in,
};
use crate::listing::{listing_view, scans_view, Entry, EntryModel, Scan, ScanFailure, ScanModel};

verus! {

/// Where a match was found: the number of the root and the position of the
/// entry in that root's listing.
#[derive(Debug, Clone, Copy, PartialEq, Eq, Structural)]
pub struct Found {
    pub root: usize,
    pub index: usize,
}

/// Why a search gave no result.
#[derive(Debug, Clone, Copy, PartialEq, Eq, Structural)]
pub enum SearchError {
    /// Every root was listed and no entry satisfied the criterion.
    NotFound,
    /// The root with this number could not be listed.
    Io { root: usize, cause: ScanFailure },
}

/// Scan order: roots in the order given, and within a root the order of its
/// listing.
pub open spec fn precedes(earlier: Found, later: Found) -> bool {
    earlier.root < later.root || (earlier.root == later.root && earlier.index < later.index)
}

/// How many roots, counted from the first, were listed before the first
/// failure (all of them when none failed).
pub open spec fn listed_prefix(scans: Seq<ScanModel>) -> nat
    decreases scans.len(),
{
    if scans.len() == 0 || scans[0] is Failed {
        0
    } else {
        1 + listed_prefix(scans.drop_first())
    }
}

/// The error that reports the failed scan of the given root.
pub open spec fn failure_at(scans: Seq<ScanModel>, root: int) -> SearchError {
    SearchError::Io { root: root as usize, cause: scans[root]->Failed_0 }
}

impl Criterion {
    /// Whether the given position holds an entry that satisfies the
    /// criterion.
    pub open spec fn is_hit(self, scans: Seq<ScanModel>, at: Found) -> bool {
        &&& at.root < scans.len()
        &&& scans[at.root as int] matches ScanModel::Listed(entries)
        &&& at.index < entries.len()
        &&& self.accepts(entries[at.index as int])
    }

    /// `first` holds an entry that satisfies the criterion, and every other
    /// position that does comes after it in scan order.
    pub open spec fn is_first_hit(self, scans: Seq<ScanModel>, first: Found) -> bool {
        &&& self.is_hit(scans, first)
        &&& forall|at: Found| #[trigger]
            self.is_hit(scans, at) && at != first ==> precedes(first, at)
    }

    /// `found` lists exactly the hits: each of its positions holds an entry
    /// that satisfies the criterion, every such position is listed, and the
    /// positions come in scan order, so none is listed twice.
    pub open spec fn lists_all_hits(self, scans: Seq<ScanModel>, found: Seq<Found>) -> bool {
        &&& forall|k: int| 0 <= k < found.len() ==> self.is_hit(scans, #[trigger] found[k])
        &&& forall|at: Found| #[trigger] self.is_hit(scans, at) ==> found.contains(at)
        &&& forall|j: int, k: int|
            0 <= j < k < found.len() ==> precedes(#[trigger] found[j], #[trigger] found[k])
    }

    /// No position holds an entry that satisfies the criterion.
    pub open spec fn has_no_hit(self, scans: Seq<ScanModel>) -> bool {
        forall|at: Found| !#[trigger] self.is_hit(scans, at)
    }

    /// The positions, within the root numbered `root`, of the entries that
    /// satisfy the criterion, in listing order.
    pub open spec fn hits_in(self, root: usize, entries: Seq<EntryModel>) -> Seq<Found>
        decreases entries.len(),
    {
        if entries.len() == 0 {
            Seq::empty()
        } else {
            let before = self.hits_in(root, entries.drop_last());
            if self.accepts(entries.last()) {
                before.push(Found { root, index: (entries.len() - 1) as usize })
            } else {
                before
            }
        }
    }

    /// The positions of all entries that satisfy the criterion, in scan
    /// order. A root that was not listed contributes none.
    pub open spec fn hits(self, scans: Seq<ScanModel>) -> Seq<Found>
        decreases scans.len(),
    {
        if scans.len() == 0 {
            Seq::empty()
        } else {
            self.hits(scans.drop_last()) + match scans.last() {
                ScanModel::Listed(entries) => self.hits_in((scans.len() - 1) as usize, entries),
                ScanModel::Failed(_) => Seq::empty(),
            }
        }
    }

    /// The number of entries of one listing that satisfy the criterion.
    pub open spec fn count_in(self, entries: Seq<EntryModel>) -> nat
        decreases entries.len(),
    {
        if entries.len() == 0 {
            0
        } else {
            self.count_in(entries.drop_last()) + if self.accepts(entries.last()) {
                1nat
            } else {
                0nat
            }
        }
    }

    /// The number of entries, over all listed roots, that satisfy the
    /// criterion.
    pub open spec fn count(self, scans: Seq<ScanModel>) -> nat
        decreases scans.len(),
    {
        if scans.len() == 0 {
            0
        } else {
            self.count(scans.drop_last()) + match scans.last() {
                ScanModel::Listed(entries) => self.count_in(entries),
                ScanModel::Failed(_) => 0nat,
            }
        }
    }

    /// Whether `result` is a right answer to a search for one match.
    ///
    /// * `Ok(first)`: `first` is the first hit in scan order and every root
    ///   before its own was listed.
    /// * `Err(NotFound)`: every root was listed and there is no hit.
    /// * `Err(Io { root, cause })`: that root is the first that could not
    ///   be listed, it failed with that cause, and no hit comes before it.
    pub open spec fn answers_find_one(
        self,
        scans: Seq<ScanModel>,
        result: Result<Found, SearchError>,
    ) -> bool {
        match result {
            Ok(first) => {
                &&& self.is_first_hit(scans, first)
                &&& forall|earlier: int|
                    0 <= earlier < first.root ==> (#[trigger] scans[earlier]) is Listed
            },
            Err(SearchError::NotFound) => all_listed(scans) && self.has_no_hit(scans),
            Err(SearchError::Io { root, cause }) => {
                &&& is_first_failure(scans, root, cause)
                &&& forall|at: Found| #[trigger] self.is_hit(scans, at) ==> at.root > root
            },
        }
    }

    /// Whether `result` is a right answer to a search for every match.
    ///
    /// * `Ok(found)`: every root was listed and `found` lists exactly the
    ///   hits, in scan order; there are as many as there are entries that
    ///   satisfy the criterion, possibly none.
    /// * `Err(Io { root, cause })`: that root is the first that could not
    ///   be listed, and it failed with that cause.
    /// * `Err(NotFound)` is never a right answer.
    pub open spec fn answers_find_all(
        self,
        scans: Seq<ScanModel>,
        result: Result<Seq<Found>, SearchError>,
    ) -> bool {
        match result {
            Ok(found) => {
                &&& all_listed(scans)
                &&& self.lists_all_hits(scans, found)
                &&& found.len() == self.count(scans)
            },
            Err(SearchError::Io { root, cause }) => is_first_failure(scans, root, cause),
            Err(SearchError::NotFound) => false,
        }
    }

    /// What a search for every match returns: the failure of the first root
    /// that could not be listed, otherwise all hits in scan order, which
    /// may be none.
    pub open spec fn find_all_outcome(self, scans: Seq<ScanModel>) -> Result<
        Seq<Found>,
        SearchError,
    > {
        let reach = listed_prefix(scans);
        if reach < scans.len() {
            Err(failure_at(scans, reach as int))
        } else {
            Ok(self.hits(scans))
        }
    }

    /// What a search for one match returns. The search goes through the
    /// roots in order and stops at the first hit; a root that could not be
    /// listed ends it with that failure unless a hit came before; with all
    /// roots listed and no hit, the result is `NotFound`.
    pub open spec fn find_one_outcome(self, scans: Seq<ScanModel>) -> Result<Found, SearchError> {
        let reach = listed_prefix(scans);
        let seen = self.hits(scans.take(reach as int));
        if seen.len() > 0 {
            Ok(seen[0])
        } else if reach < scans.len() {
            Err(failure_at(scans, reach as int))
        } else {
            Err(SearchError::NotFound)
        }
    }
}

/// The root numbered `root` could not be listed, for the given cause, and
/// every root before it was listed.
pub open spec fn is_first_failure(scans: Seq<ScanModel>, root: usize, cause: ScanFailure) -> bool {
    &&& root < scans.len()
    &&& scans[root as int] == ScanModel::Failed(cause)
    &&& forall|earlier: int| 0 <= earlier < root ==> (#[trigger] scans[earlier]) is Listed
}

/// A search result with its list of positions taken as a sequence.
pub open spec fn outcome_view(result: Result<Vec<Found>, SearchError>) -> Result<
    Seq<Found>,
    SearchError,
> {
    match result {
        Ok(found) => Ok(found@),
        Err(error) => Err(error),
    }
}

/// Whether every root was listed.
pub open spec fn all_listed(scans: Seq<ScanModel>) -> bool {
    forall|root: int| 0 <= root < scans.len() ==> (#[trigger] scans[root]) is Listed
}

/// Every root number and every entry position fits in a machine word, as
/// it does for any scan that is held in memory.
pub open spec fn addressable(scans: Seq<ScanModel>) -> bool {
    &&& scans.len() <= usize::MAX
    &&& forall|root: int|
        0 <= root < scans.len() ==> (#[trigger] scans[root] matches ScanModel::Listed(entries)
            ==> entries.len() <= usize::MAX)
}

impl EntryNamed {
    /// The position of the first entry of one listing that satisfies the
    /// criterion, if there is one.
    fn first_in(&self, root: usize, entries: &Vec<Entry>) -> (first: Option<usize>)
        ensures
            match first {
                Some(index) => {
                    let hits = self@.hits_in(root, listing_view(entries@));
                    hits.len() > 0 && hits[0] == (Found { root, index })
                },
                None => self@.hits_in(root, listing_view(entries@)).len() == 0,
            },
    {
        let ghost listing = listing_view(entries@);
        let mut index: usize = 0;
        while index < entries.len()
            invariant
                0 <= index <= entries.len(),
                listing == listing_view(entries@),
                forall|i: int| 0 <= i < index ==> !self@.accepts(listing[i]),
            decreases entries.len() - index,
        {
            if self.matches(&entries[index]) {
                proof {
                    lemma_first_hit_in(self@, root, listing, index as int);
                }
                return Some(index);
            }
            index += 1;
        }
        proof {
            lemma_no_hit_in(self@, root, listing);
        }
        None
    }

    /// Appends to `found` the positions of all entries of one listing that
    /// satisfy the criterion, in listing order.
    fn collect_in(&self, root: usize, entries: &Vec<Entry>, found: &mut Vec<Found>)
        ensures
            final(found)@ == old(found)@ + self@.hits_in(root, listing_view(entries@)),
    {
        let ghost listing = listing_view(entries@);
        let mut index: usize = 0;
        while index < entries.len()
            invariant
                0 <= index <= entries.len(),
                listing == listing_view(entries@),
                found@ == old(found)@ + self@.hits_in(root, listing.take(index as int)),
            decreases entries.len() - index,
        {
            proof {
                assert(listing.take(index + 1).drop_last() =~= listing.take(index as int));
            }
            if self.matches(&entries[index]) {
                found.push(Found { root, index });
            }
            index += 1;
        }
        assert(listing.take(entries.len() as int) =~= listing);
    }

    /// Finds one match: the first entry, in scan order, that satisfies the
    /// criterion.
    ///
    /// The roots are gone through in the order given. The first hit ends
    /// the search, so a failed root after it is never reached. A failed
    /// root that is reached ends the search with `SearchError::Io`, which
    /// names that root and the cause. With every root listed and no hit
    /// the result is `SearchError::NotFound`.
    pub fn find_one(&self, scans: &Vec<Scan>) -> (result: Result<Found, SearchError>)
        ensures
            result == self@.find_one_outcome(scans_view(scans@)),
            self@.answers_find_one(scans_view(scans@), result),
    {
        let ghost all = scans_view(scans@);
        proof {
            lemma_held_scans_are_addressable(scans);
        }
        let mut root: usize = 0;
        while root < scans.len()
            invariant
                0 <= root <= scans.len(),
                all == scans_view(scans@),
                addressable(all),
                forall|r: int| 0 <= r < root ==> all[r] is Listed,
                self@.hits(all.take(root as int)).len() == 0,
            decreases scans.len() - root,
        {
            match &scans[root] {
                Scan::Failed(cause) => {
                    proof {
                        lemma_find_one_at_failure(self@, all, root as int);
                    }
                    return Err(SearchError::Io { root, cause: *cause });
                },
                Scan::Listed(entries) => {
                    if let Some(index) = self.first_in(root, entries) {
                        proof {
                            lemma_find_one_at_hit(self@, all, Found { root, index });
                        }
                        return Ok(Found { root, index });
                    }
                    assert(all.take(root + 1).drop_last() =~= all.take(root as int));
                },
            }
            root += 1;
        }
        proof {
            lemma_find_one_at_failure(self@, all, scans.len() as int);
        }
        Err(SearchError::NotFound)
    }

    /// Finds every match: all entries that satisfy the criterion, in scan
    /// order.
    ///
    /// Finding nothing is no error: the result is then an empty list. The
    /// only error is `SearchError::Io`, for the first root that could not
    /// be listed.
    pub fn find_all(&self, scans: &Vec<Scan>) -> (result: Result<Vec<Found>, SearchError>)
        ensures
            outcome_view(result) == self@.find_all_outcome(scans_view(scans@)),
            self@.answers_find_all(scans_view(scans@), outcome_view(result)),
    {
        let ghost all = scans_view(scans@);
        proof {
            lemma_held_scans_are_addressable(scans);
        }
        let mut found: Vec<Found> = Vec::new();
        let mut root: usize = 0;
        while root < scans.len()
            invariant
                0 <= root <= scans.len(),
                all == scans_view(scans@),
                addressable(all),
                forall|r: int| 0 <= r < root ==> all[r] is Listed,
                found@ == self@.hits(all.take(root as int)),
            decreases scans.len() - root,
        {
            match &scans[root] {
                Scan::Failed(cause) => {
                    proof {
                        lemma_find_all_at_failure(self@, all, root as int);
                    }
                    return Err(SearchError::Io { root, cause: *cause });
                },
                Scan::Listed(entries) => {
                    self.collect_in(root, entries, &mut found);
                    assert(all.take(root + 1).drop_last() =~= all.take(root as int));
                },
            }
            root += 1;
        }
        proof {
            lemma_find_all_at_failure(self@, all, scans.len() as int);
            assert(all.take(scans.len() as int) =~= all);
        }
        Ok(found)
    }
}

} // verus!
