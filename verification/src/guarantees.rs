//! What the search promises, stated over its mathematical model and proved.

use vstd::prelude::*;
use crate::criterion::Criterion;
use crate::listing::{scans_view, EntryModel, Scan, ScanFailure, ScanModel};
use crate::search::{
    addressable, all_listed, failure_at, listed_prefix, precedes, Found, SearchError,
};

verus! {

// ---------------------------------------------------------------------------
// The roots that were listed before the first failure
// ---------------------------------------------------------------------------

/// The number of leading listed roots is the position of the first failed
/// root, or the number of roots when none failed.
pub proof fn lemma_listed_prefix(scans: Seq<ScanModel>, reach: int)
    requires
        0 <= reach <= scans.len(),
        forall|root: int| 0 <= root < reach ==> scans[root] is Listed,
        reach < scans.len() ==> scans[reach] is Failed,
    ensures
        listed_prefix(scans) == reach,
    decreases reach,
{
    if reach > 0 {
        let rest = scans.drop_first();
        assert forall|root: int| 0 <= root < reach - 1 implies rest[root] is Listed by {
            assert(rest[root] == scans[root + 1]);
        }
        lemma_listed_prefix(rest, reach - 1);
    }
}

/// The leading roots counted by `listed_prefix` were all listed, and the
/// root after them, if there is one, was not.
pub proof fn lemma_listed_prefix_bounds(scans: Seq<ScanModel>)
    ensures
        listed_prefix(scans) <= scans.len(),
        forall|root: int| 0 <= root < listed_prefix(scans) ==> scans[root] is Listed,
        listed_prefix(scans) < scans.len() ==> scans[listed_prefix(scans) as int] is Failed,
    decreases scans.len(),
{
    if scans.len() > 0 && scans[0] is Listed {
        let rest = scans.drop_first();
        lemma_listed_prefix_bounds(rest);
        assert forall|root: int| 0 <= root < listed_prefix(scans) implies scans[root] is Listed by {
            if root > 0 {
                assert(rest[root - 1] == scans[root]);
            }
        }
    }
}

/// Every root was listed exactly when the listed roots at the front are all
/// the roots.
pub proof fn lemma_all_listed(scans: Seq<ScanModel>)
    ensures
        all_listed(scans) <==> listed_prefix(scans) == scans.len(),
{
    lemma_listed_prefix_bounds(scans);
    if all_listed(scans) {
        lemma_listed_prefix(scans, scans.len() as int);
    }
}

// ---------------------------------------------------------------------------
// Positions that fit in a machine word
// ---------------------------------------------------------------------------

/// Scans that are held in memory are addressable.
pub proof fn lemma_held_scans_are_addressable(scans: &Vec<Scan>)
    ensures
        addressable(scans_view(scans@)),
{
    let all = scans_view(scans@);
    assert(scans@.len() == scans.len());
    assert forall|root: int| 0 <= root < all.len() implies (
    #[trigger] all[root] matches ScanModel::Listed(entries) ==> entries.len() <= usize::MAX) by {
        if let Scan::Listed(held) = scans@[root] {
            assert(held@.len() == held.len());
        }
    }
}

/// The first roots of addressable scans are addressable too.
pub proof fn lemma_addressable_take(scans: Seq<ScanModel>, roots: int)
    requires
        addressable(scans),
        0 <= roots <= scans.len(),
    ensures
        addressable(scans.take(roots)),
{
    let front = scans.take(roots);
    assert forall|root: int| 0 <= root < front.len() implies (
    #[trigger] front[root] matches ScanModel::Listed(entries) ==> entries.len() <= usize::MAX) by {
        assert(front[root] == scans[root]);
    }
}

// ---------------------------------------------------------------------------
// The hits within one root
// ---------------------------------------------------------------------------

/// Within one root, the hits are exactly the positions of the entries that
/// satisfy the criterion, each once, in listing order; so there are as many
/// hits as such entries.
pub proof fn lemma_hits_in(criterion: Criterion, root: usize, entries: Seq<EntryModel>)
    requires
        entries.len() <= usize::MAX,
    ensures
        criterion.hits_in(root, entries).len() == criterion.count_in(entries),
        criterion.hits_in(root, entries).len() <= entries.len(),
        forall|k: int|
            0 <= k < criterion.hits_in(root, entries).len() ==> {
                let hit = #[trigger] criterion.hits_in(root, entries)[k];
                hit.root == root && hit.index < entries.len() && criterion.accepts(
                    entries[hit.index as int],
                )
            },
        forall|i: int|
            0 <= i < entries.len() && criterion.accepts(#[trigger] entries[i])
                ==> criterion.hits_in(root, entries).contains(Found { root, index: i as usize }),
        forall|j: int, k: int|
            0 <= j < k < criterion.hits_in(root, entries).len() ==> (
            #[trigger] criterion.hits_in(root, entries)[j]).index < (
            #[trigger] criterion.hits_in(root, entries)[k]).index,
    decreases entries.len(),
{
    let hits = criterion.hits_in(root, entries);
    if entries.len() > 0 {
        let front = entries.drop_last();
        let before = criterion.hits_in(root, front);
        lemma_hits_in(criterion, root, front);
        assert forall|i: int|
            0 <= i < entries.len() && criterion.accepts(#[trigger] entries[i]) implies hits.contains(
            Found { root, index: i as usize },
        ) by {
            let wanted = Found { root, index: i as usize };
            if i < front.len() {
                assert(front[i] == entries[i]);
                let k = choose|k: int| 0 <= k < before.len() && before[k] == wanted;
                assert(hits[k] == wanted);
            } else {
                assert(hits[hits.len() - 1] == wanted);
            }
        }
    }
}

/// Where an entry satisfies the criterion and none before it does, its
/// position heads the hits of its root.
pub proof fn lemma_first_hit_in(
    criterion: Criterion,
    root: usize,
    entries: Seq<EntryModel>,
    index: int,
)
    requires
        entries.len() <= usize::MAX,
        0 <= index < entries.len(),
        criterion.accepts(entries[index]),
        forall|i: int| 0 <= i < index ==> !criterion.accepts(entries[i]),
    ensures
        criterion.hits_in(root, entries).len() > 0,
        criterion.hits_in(root, entries)[0] == (Found { root, index: index as usize }),
{
    let hits = criterion.hits_in(root, entries);
    let here = Found { root, index: index as usize };
    lemma_hits_in(criterion, root, entries);
    assert(hits.contains(here));
    let k = choose|k: int| 0 <= k < hits.len() && hits[k] == here;
    assert(criterion.accepts(entries[hits[0].index as int]));
    if k > 0 {
        assert(hits[0].index < hits[k].index);
    }
}

/// Where no entry satisfies the criterion, a root has no hits.
pub proof fn lemma_no_hit_in(criterion: Criterion, root: usize, entries: Seq<EntryModel>)
    requires
        entries.len() <= usize::MAX,
        forall|i: int| 0 <= i < entries.len() ==> !criterion.accepts(entries[i]),
    ensures
        criterion.hits_in(root, entries).len() == 0,
{
    let hits = criterion.hits_in(root, entries);
    lemma_hits_in(criterion, root, entries);
    if hits.len() > 0 {
        assert(criterion.accepts(entries[hits[0].index as int]));
    }
}

// ---------------------------------------------------------------------------
// The hits over all roots
// ---------------------------------------------------------------------------

/// Scanning further roots only adds hits after those already seen.
pub proof fn lemma_hits_grow(criterion: Criterion, scans: Seq<ScanModel>, fewer: int, more: int)
    requires
        0 <= fewer <= more <= scans.len(),
    ensures
        criterion.hits(scans.take(fewer)).is_prefix_of(criterion.hits(scans.take(more))),
    decreases more - fewer,
{
    if fewer < more {
        lemma_hits_grow(criterion, scans, fewer, more - 1);
        assert(scans.take(more).drop_last() =~= scans.take(more - 1));
    }
}

/// A position within the first roots holds a hit there exactly when it
/// holds one among all roots.
pub proof fn lemma_is_hit_take(criterion: Criterion, scans: Seq<ScanModel>, roots: int, at: Found)
    requires
        0 <= roots <= scans.len(),
        at.root < roots,
    ensures
        criterion.is_hit(scans.take(roots), at) <==> criterion.is_hit(scans, at),
{
    assert(scans.take(roots)[at.root as int] == scans[at.root as int]);
}

/// Every position among the hits holds an entry that satisfies the
/// criterion.
pub proof fn lemma_hits_are_sound(criterion: Criterion, scans: Seq<ScanModel>)
    requires
        addressable(scans),
    ensures
        forall|k: int|
            0 <= k < criterion.hits(scans).len() ==> criterion.is_hit(
                scans,
                #[trigger] criterion.hits(scans)[k],
            ),
    decreases scans.len(),
{
    let hits = criterion.hits(scans);
    if scans.len() > 0 {
        let last = (scans.len() - 1) as usize;
        let front = scans.drop_last();
        let before = criterion.hits(front);
        lemma_addressable_take(scans, last as int);
        lemma_hits_are_sound(criterion, front);
        if let ScanModel::Listed(entries) = scans.last() {
            lemma_hits_in(criterion, last, entries);
        }
        assert forall|k: int| 0 <= k < hits.len() implies criterion.is_hit(
            scans,
            #[trigger] hits[k],
        ) by {
            if k < before.len() {
                lemma_is_hit_take(criterion, scans, last as int, before[k]);
            } else {
                assert(hits[k] == criterion.hits_in(last, scans.last()->Listed_0)[k - before.len()]);
            }
        }
    }
}

/// Every position that holds an entry satisfying the criterion is among
/// the hits.
pub proof fn lemma_hits_are_complete(criterion: Criterion, scans: Seq<ScanModel>, at: Found)
    requires
        addressable(scans),
        criterion.is_hit(scans, at),
    ensures
        criterion.hits(scans).contains(at),
    decreases scans.len(),
{
    let hits = criterion.hits(scans);
    let front = scans.drop_last();
    let before = criterion.hits(front);
    if at.root == scans.len() - 1 {
        let own = criterion.hits_in(at.root, scans.last()->Listed_0);
        lemma_hits_in(criterion, at.root, scans.last()->Listed_0);
        let k = choose|k: int| 0 <= k < own.len() && own[k] == at;
        assert(hits[before.len() + k] == at);
    } else {
        lemma_is_hit_take(criterion, scans, scans.len() - 1, at);
        lemma_addressable_take(scans, scans.len() - 1);
        lemma_hits_are_complete(criterion, front, at);
        let k = choose|k: int| 0 <= k < before.len() && before[k] == at;
        assert(hits[k] == at);
    }
}

/// The hits come in scan order, so no position occurs twice.
pub proof fn lemma_hits_in_scan_order(criterion: Criterion, scans: Seq<ScanModel>)
    requires
        addressable(scans),
    ensures
        forall|j: int, k: int|
            0 <= j < k < criterion.hits(scans).len() ==> precedes(
                #[trigger] criterion.hits(scans)[j],
                #[trigger] criterion.hits(scans)[k],
            ),
    decreases scans.len(),
{
    let hits = criterion.hits(scans);
    if scans.len() > 0 {
        let last = (scans.len() - 1) as usize;
        let front = scans.drop_last();
        let before = criterion.hits(front);
        lemma_addressable_take(scans, last as int);
        lemma_hits_in_scan_order(criterion, front);
        lemma_hits_are_sound(criterion, front);
        if let ScanModel::Listed(entries) = scans.last() {
            lemma_hits_in(criterion, last, entries);
        }
        assert forall|j: int, k: int| 0 <= j < k < hits.len() implies precedes(
            #[trigger] hits[j],
            #[trigger] hits[k],
        ) by {
            if k >= before.len() {
                let own = criterion.hits_in(last, scans.last()->Listed_0);
                assert(hits[k] == own[k - before.len()]);
                if j < before.len() {
                    assert(criterion.is_hit(front, before[j]));
                } else {
                    assert(hits[j] == own[j - before.len()]);
                }
            }
        }
    }
}

/// There are as many hits as there are entries, over all listed roots, that
/// satisfy the criterion.
pub proof fn lemma_hits_count(criterion: Criterion, scans: Seq<ScanModel>)
    requires
        addressable(scans),
    ensures
        criterion.hits(scans).len() == criterion.count(scans),
    decreases scans.len(),
{
    if scans.len() > 0 {
        lemma_addressable_take(scans, scans.len() - 1);
        lemma_hits_count(criterion, scans.drop_last());
        if let ScanModel::Listed(entries) = scans.last() {
            lemma_hits_in(criterion, (scans.len() - 1) as usize, entries);
        }
    }
}

/// The hits are exactly the positions that hold an entry satisfying the
/// criterion, each once, in scan order.
pub proof fn lemma_hits_list_all_hits(criterion: Criterion, scans: Seq<ScanModel>)
    requires
        addressable(scans),
    ensures
        criterion.lists_all_hits(scans, criterion.hits(scans)),
{
    lemma_hits_are_sound(criterion, scans);
    lemma_hits_in_scan_order(criterion, scans);
    assert forall|at: Found| #[trigger] criterion.is_hit(scans, at) implies criterion.hits(
        scans,
    ).contains(at) by {
        lemma_hits_are_complete(criterion, scans, at);
    }
}

// ---------------------------------------------------------------------------
// The two searches
// ---------------------------------------------------------------------------

/// The outcome of finding every match is a right answer: it fails only
/// where a root could not be listed, and then with the failure of the first
/// such root; otherwise it lists exactly the hits, which are as many as the
/// entries that satisfy both the name pattern and the type filter, and
/// that number may be zero.
pub proof fn lemma_find_all_meaning(criterion: Criterion, scans: Seq<ScanModel>)
    requires
        addressable(scans),
    ensures
        criterion.answers_find_all(scans, criterion.find_all_outcome(scans)),
        (criterion.find_all_outcome(scans) is Ok) <==> all_listed(scans),
{
    lemma_all_listed(scans);
    lemma_listed_prefix_bounds(scans);
    lemma_hits_count(criterion, scans);
    lemma_hits_list_all_hits(criterion, scans);
}

/// The outcome of finding one match is a right answer: the first hit in
/// scan order where one comes before any failed root, the failure of the
/// first root that could not be listed where no hit comes before it, and
/// `NotFound` where every root was listed and none holds a hit.
pub proof fn lemma_find_one_meaning(criterion: Criterion, scans: Seq<ScanModel>)
    requires
        addressable(scans),
    ensures
        criterion.answers_find_one(scans, criterion.find_one_outcome(scans)),
{
    let reach = listed_prefix(scans) as int;
    let reached = scans.take(reach);
    let seen = criterion.hits(reached);
    lemma_listed_prefix_bounds(scans);
    lemma_all_listed(scans);
    lemma_addressable_take(scans, reach);
    lemma_hits_list_all_hits(criterion, reached);
    // Every hit in a root before `reach` has been seen.
    assert forall|at: Found| #[trigger]
        criterion.is_hit(scans, at) && at.root < reach implies seen.contains(at) by {
        lemma_is_hit_take(criterion, scans, reach, at);
    }
    if seen.len() > 0 {
        let first = seen[0];
        lemma_is_hit_take(criterion, scans, reach, first);
        assert forall|at: Found| #[trigger]
            criterion.is_hit(scans, at) && at != first implies precedes(first, at) by {
            if at.root < reach {
                let k = choose|k: int| 0 <= k < seen.len() && seen[k] == at;
                assert(precedes(seen[0], seen[k]));
            }
        }
    }
}

/// Where the roots before `reach` were all listed and the root at `reach`,
/// if there is one, was not, finding every match gives the failure of that
/// root, or the hits where there is no such root.
pub proof fn lemma_find_all_at_failure(criterion: Criterion, scans: Seq<ScanModel>, reach: int)
    requires
        addressable(scans),
        0 <= reach <= scans.len(),
        forall|root: int| 0 <= root < reach ==> scans[root] is Listed,
        reach < scans.len() ==> scans[reach] is Failed,
    ensures
        criterion.find_all_outcome(scans) == if reach < scans.len() {
            Err::<Seq<Found>, SearchError>(failure_at(scans, reach))
        } else {
            Ok::<Seq<Found>, SearchError>(criterion.hits(scans))
        },
        criterion.answers_find_all(scans, criterion.find_all_outcome(scans)),
{
    lemma_listed_prefix(scans, reach);
    lemma_find_all_meaning(criterion, scans);
}

/// Where the roots before `reach` were all listed and hold no hit, and the
/// root at `reach`, if there is one, was not listed, finding one match
/// gives the failure of that root, or `NotFound` where there is no such
/// root.
pub proof fn lemma_find_one_at_failure(criterion: Criterion, scans: Seq<ScanModel>, reach: int)
    requires
        addressable(scans),
        0 <= reach <= scans.len(),
        forall|root: int| 0 <= root < reach ==> scans[root] is Listed,
        reach < scans.len() ==> scans[reach] is Failed,
        criterion.hits(scans.take(reach)).len() == 0,
    ensures
        criterion.find_one_outcome(scans) == if reach < scans.len() {
            Err::<Found, SearchError>(failure_at(scans, reach))
        } else {
            Err::<Found, SearchError>(SearchError::NotFound)
        },
        criterion.answers_find_one(scans, criterion.find_one_outcome(scans)),
{
    lemma_listed_prefix(scans, reach);
    lemma_find_one_meaning(criterion, scans);
}

/// Where the roots before that of `first` were all listed and hold no hit,
/// and `first` heads the hits of its own root, finding one match gives
/// `first`.
pub proof fn lemma_find_one_at_hit(criterion: Criterion, scans: Seq<ScanModel>, first: Found)
    requires
        addressable(scans),
        first.root < scans.len(),
        forall|root: int| 0 <= root < first.root ==> scans[root] is Listed,
        criterion.hits(scans.take(first.root as int)).len() == 0,
        scans[first.root as int] matches ScanModel::Listed(entries) && criterion.hits_in(
            first.root,
            entries,
        ).len() > 0 && criterion.hits_in(first.root, entries)[0] == first,
    ensures
        criterion.find_one_outcome(scans) == Ok::<Found, SearchError>(first),
        criterion.answers_find_one(scans, criterion.find_one_outcome(scans)),
{
    let reach = listed_prefix(scans) as int;
    lemma_listed_prefix_bounds(scans);
    assert(reach > first.root) by {
        if reach <= first.root {
            assert(scans[reach] is Failed);
        }
    }
    let own = scans.take(first.root + 1);
    assert(own.drop_last() =~= scans.take(first.root as int));
    assert(own.last() == scans[first.root as int]);
    assert(criterion.hits(own)[0] == first);
    lemma_hits_grow(criterion, scans, first.root + 1, reach);
    lemma_find_one_meaning(criterion, scans);
}

/// Two lists that each hold exactly the hits, in scan order, agree on
/// their first `upto` positions.
proof fn lemma_listings_agree(
    criterion: Criterion,
    scans: Seq<ScanModel>,
    left: Seq<Found>,
    right: Seq<Found>,
    upto: int,
)
    requires
        criterion.lists_all_hits(scans, left),
        criterion.lists_all_hits(scans, right),
        0 <= upto <= left.len(),
    ensures
        upto <= right.len(),
        forall|i: int| 0 <= i < upto ==> left[i] == right[i],
    decreases upto,
{
    if upto > 0 {
        let here = upto - 1;
        lemma_listings_agree(criterion, scans, left, right, here);
        // The hit at `here` on the left stands on the right, and not before
        // `here`, where the two lists agree.
        assert(criterion.is_hit(scans, left[here]));
        let l = choose|l: int| 0 <= l < right.len() && right[l] == left[here];
        if l < here {
            assert(precedes(left[l], left[here]));
        }
        // So the right has a hit at `here`, which stands on the left, and
        // again not before `here`.
        assert(criterion.is_hit(scans, right[here]));
        let m = choose|m: int| 0 <= m < left.len() && left[m] == right[here];
        if m < here {
            assert(precedes(right[m], right[here]));
        }
        // Were either of them later, the two hits would each precede the
        // other.
        if l > here {
            assert(precedes(right[here], right[l]));
            if m > here {
                assert(precedes(left[here], left[m]));
            }
        }
    }
}

/// Only one list holds exactly the hits in scan order.
pub proof fn lemma_listing_of_hits_is_unique(
    criterion: Criterion,
    scans: Seq<ScanModel>,
    left: Seq<Found>,
    right: Seq<Found>,
)
    requires
        criterion.lists_all_hits(scans, left),
        criterion.lists_all_hits(scans, right),
    ensures
        left == right,
{
    lemma_listings_agree(criterion, scans, left, right, left.len() as int);
    lemma_listings_agree(criterion, scans, right, left, right.len() as int);
    assert(left =~= right);
}

/// A search for one match has only one right answer.
pub proof fn lemma_find_one_answer_is_unique(
    criterion: Criterion,
    scans: Seq<ScanModel>,
    one: Result<Found, SearchError>,
    other: Result<Found, SearchError>,
)
    requires
        criterion.answers_find_one(scans, one),
        criterion.answers_find_one(scans, other),
    ensures
        one == other,
{
    match (one, other) {
        (Ok(first), Ok(second)) => {
            if first != second {
                assert(precedes(first, second) && precedes(second, first));
            }
        },
        (Ok(first), Err(_)) => {
            assert(criterion.is_hit(scans, first));
        },
        (Err(_), Ok(second)) => {
            assert(criterion.is_hit(scans, second));
        },
        (Err(_), Err(_)) => {},
    }
}

/// A search for every match has only one right answer.
pub proof fn lemma_find_all_answer_is_unique(
    criterion: Criterion,
    scans: Seq<ScanModel>,
    one: Result<Seq<Found>, SearchError>,
    other: Result<Seq<Found>, SearchError>,
)
    requires
        criterion.answers_find_all(scans, one),
        criterion.answers_find_all(scans, other),
    ensures
        one == other,
{
    if let (Ok(left), Ok(right)) = (one, other) {
        lemma_listing_of_hits_is_unique(criterion, scans, left, right);
    }
}

/// With every root listed, finding one match gives `NotFound` exactly when
/// no entry satisfies the criterion, and otherwise the first hit in scan
/// order, which is also the first position that finding every match
/// returns.
pub proof fn lemma_find_one_takes_first(criterion: Criterion, scans: Seq<ScanModel>)
    requires
        addressable(scans),
        all_listed(scans),
    ensures
        criterion.count(scans) == 0 ==> criterion.find_one_outcome(scans) == Err::<
            Found,
            SearchError,
        >(SearchError::NotFound),
        criterion.count(scans) > 0 ==> criterion.find_one_outcome(scans) == Ok::<
            Found,
            SearchError,
        >(criterion.hits(scans)[0]),
        criterion.find_all_outcome(scans) == Ok::<Seq<Found>, SearchError>(criterion.hits(scans)),
{
    lemma_all_listed(scans);
    lemma_hits_count(criterion, scans);
    assert(scans.take(scans.len() as int) =~= scans);
}

/// A root that could not be listed never passes for "nothing found".
/// Finding every match then fails with the I/O error of the first failed
/// root. Finding one match fails with that same error unless a hit comes
/// before that root; it never answers `NotFound`.
pub proof fn lemma_failed_root_surfaces(criterion: Criterion, scans: Seq<ScanModel>, failed: int)
    requires
        addressable(scans),
        0 <= failed < scans.len(),
        scans[failed] is Failed,
    ensures
        listed_prefix(scans) <= failed,
        criterion.find_all_outcome(scans) == Err::<Seq<Found>, SearchError>(
            failure_at(scans, listed_prefix(scans) as int),
        ),
        criterion.find_one_outcome(scans) != Err::<Found, SearchError>(SearchError::NotFound),
        (forall|at: Found| #[trigger] criterion.is_hit(scans, at) ==> at.root > failed)
            ==> criterion.find_one_outcome(scans) == Err::<Found, SearchError>(
            failure_at(scans, listed_prefix(scans) as int),
        ),
{
    let reach = listed_prefix(scans) as int;
    let reached = scans.take(reach);
    let seen = criterion.hits(reached);
    lemma_listed_prefix_bounds(scans);
    assert(reach <= failed) by {
        if reach > failed {
            assert(scans[failed] is Listed);
        }
    }
    if seen.len() > 0 {
        lemma_addressable_take(scans, reach);
        lemma_hits_are_sound(criterion, reached);
        lemma_is_hit_take(criterion, scans, reach, seen[0]);
    }
}

/// The one-root case: a root that could not be listed makes both searches
/// fail with the I/O error for that root.
pub proof fn lemma_single_failed_root(criterion: Criterion, cause: ScanFailure)
    ensures
        criterion.find_one_outcome(seq![ScanModel::Failed(cause)]) == Err::<Found, SearchError>(
            SearchError::Io { root: 0, cause },
        ),
        criterion.find_all_outcome(seq![ScanModel::Failed(cause)]) == Err::<
            Seq<Found>,
            SearchError,
        >(SearchError::Io { root: 0, cause }),
{
    let scans = seq![ScanModel::Failed(cause)];
    lemma_listed_prefix(scans, 0);
    assert(scans.take(0).len() == 0);
}

} // verus!
