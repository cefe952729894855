//! Looking up files and folders by name.
//!
//! A criterion pairs a name pattern (an exact name, a list of names, a list
//! of nested patterns, a regular expression or a wildcard pattern) with a
//! filter on the kind of entry. The search applies a criterion to the
//! scanned listings of one or more root directories and reports where the
//! matching entries are: the first one, or all of them in scan order.
//!
//! The library never touches the filesystem. Its caller lists each root,
//! classifies what it finds, and hands the listings over as plain values; a
//! root that could not be listed is handed over as a failure and comes back
//! as an I/O error of the search. Three choices follow from that:
//!
//! * The search looks at the entries it is given for each root, in the
//!   order given. It never descends into a folder; a caller that wants the
//!   entries of a subfolder searched lists that folder as a root of its own.
//! * Whether a symbolic link counts as its target is decided by whoever
//!   classifies the entries. An entry that is neither a regular file nor a
//!   directory is of kind `Other`, which no filter accepts.
//! * Both matching engines are always built in, so every name pattern can
//!   be constructed and used.
//!
//! Every function is verified against the contract it carries. The two
//! functions in `engines` that call the matching engines are the exception:
//! their contracts are taken on trust.

pub mod criterion;
pub mod engines;
pub mod guarantees;
pub mod kind;
pub mod listing;
pub mod pattern;
pub mod search;
pub mod text;

pub use criterion::EntryNamed;
pub use kind::{EntryKind, EntryType};
pub use listing::{Entry, Scan, ScanFailure};
pub use pattern::EntryName;
pub use search::{Found, SearchError};
