//! Parallel enumeration of a remote versioned directory tree.
//!
//! The crate models the result of listing one directory, accumulates the
//! per-directory listings that a concurrent traversal produces, and offers a
//! lazy iterator that flattens the accumulated listings into a uniform
//! sequence of (origin path, entry) pairs.  The traversal itself is expressed
//! as an explicit state machine (`TreeWalk`) whose transitions are driven by
//! listing results delivered in any completion order, so a caller may run the
//! per-directory listings concurrently and feed the outcomes back as they
//! arrive.

mod accumulator;
mod entries;
mod walker;

pub use accumulator::{
    flat, lemma_entry_order_preserved, lemma_iterator_restartable, ListEntryIterator,
    ListEntryIteratorItem, PathedModel, SvnListParallel, SvnListWithPath, SvnPath, tagged,
};
pub use entries::{EntryCommit, EntryCommitModel, EntryModel, ListEntry, PathType, SvnList};
pub use walker::{
    completed_item, completed_walk, count_done, count_unfinished, decide_descents,
    descended_names, is_ancestor, is_unfinished, joined, join_path,
    lemma_completed_walk_root, lemma_filter_false_no_descent, lemma_no_waiting_means_done,
    lemma_one_listing_per_directory, lemma_post_order, AlwaysDescend, DescendFilter,
    FilterError, FilterErrorModel, ListParallel, ListingError, ListingErrorModel, NodeState,
    TraversalError, TraversalErrorModel, TreeWalk,
};
