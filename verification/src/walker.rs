use vstd::prelude::*;
use vstd::string::StringExecFns;

use crate::accumulator::{PathedModel, SvnListParallel, SvnListWithPath};
use crate::entries::{EntryModel, ListEntry, PathType, SvnList};

verus! {

/// The listing collaborator failed to list a given path.
#[derive(Debug)]
pub struct ListingError {
    pub path: String,
    pub cause: String,
}

/// Mathematical value of a [`ListingError`].
pub ghost struct ListingErrorModel {
    pub path: Seq<char>,
    pub cause: Seq<char>,
}

impl View for ListingError {
    type V = ListingErrorModel;

    open spec fn view(&self) -> ListingErrorModel {
        ListingErrorModel { path: self.path@, cause: self.cause@ }
    }
}

/// A descend-filter invocation failed for a given candidate path.
#[derive(Debug)]
pub struct FilterError {
    pub path: String,
    pub cause: String,
}

/// Mathematical value of a [`FilterError`].
pub ghost struct FilterErrorModel {
    pub path: Seq<char>,
    pub cause: Seq<char>,
}

impl View for FilterError {
    type V = FilterErrorModel;

    open spec fn view(&self) -> FilterErrorModel {
        FilterErrorModel { path: self.path@, cause: self.cause@ }
    }
}

/// The error surfaced to the original caller.  Under the best-effort policy
/// implemented here only a listing failure on the root path itself surfaces;
/// deeper failures are absorbed and the failed subtree is simply absent.
#[derive(Debug)]
pub enum TraversalError {
    Listing(ListingError),
    Filter(FilterError),
}

/// Mathematical value of a [`TraversalError`].
pub ghost enum TraversalErrorModel {
    Listing(ListingErrorModel),
    Filter(FilterErrorModel),
}

impl View for TraversalError {
    type V = TraversalErrorModel;

    open spec fn view(&self) -> TraversalErrorModel {
        match self {
            TraversalError::Listing(e) => TraversalErrorModel::Listing(e@),
            TraversalError::Filter(e) => TraversalErrorModel::Filter(e@),
        }
    }
}

/// A policy object deciding whether a discovered subdirectory is traversed.
/// It receives the fully joined candidate path and the raw entry; a failure
/// is scoped to that one candidate, which is then simply not descended.
pub trait DescendFilter {
    /// The decision this policy stands for on a given candidate.
    spec fn accepts(&self, path: Seq<char>, entry: EntryModel) -> bool;

    /// Whether this policy is total: it never fails, so every candidate
    /// decision comes out exactly as [`DescendFilter::accepts`] says.
    spec fn infallible(&self) -> bool;

    fn descend(&self, path: &String, entry: &ListEntry) -> (r: Result<bool, FilterError>)
        ensures
            (r matches Ok(b) ==> b == self.accepts(path@, entry@)),
            self.infallible() ==> r is Ok,
    ;
}

/// The default policy: always descend.
pub struct AlwaysDescend;

impl DescendFilter for AlwaysDescend {
    open spec fn accepts(&self, path: Seq<char>, entry: EntryModel) -> bool {
        true
    }

    open spec fn infallible(&self) -> bool {
        true
    }

    fn descend(&self, path: &String, entry: &ListEntry) -> (r: Result<bool, FilterError>)
        ensures
            r is Ok && r.unwrap() == true,
    {
        Ok(true)
    }
}

/// A parent path and a child name joined with a single separator.
pub open spec fn joined(parent: Seq<char>, name: Seq<char>) -> Seq<char> {
    parent + seq!['/'] + name
}

/// Compute the candidate path of one child of `parent`.
pub fn join_path(parent: &String, name: &String) -> (r: String)
    ensures
        r@ == joined(parent@, name@),
{
    let mut s = parent.clone();
    s.append("/");
    s.append(name.as_str());
    proof {
        reveal_strlit("/");
        assert(s@ =~= joined(parent@, name@));
    }
    s
}

/// The names of the entries of one listing that qualify for descent: the
/// directory entries, in listing order, whose decision flag is set.
pub open spec fn descended_names(entries: Seq<EntryModel>, decisions: Seq<bool>) -> Seq<Seq<char>>
    decreases entries.len(),
{
    if entries.len() == 0 {
        Seq::empty()
    } else {
        let prefix = descended_names(entries.drop_last(), decisions.drop_last());
        if entries.last().kind == PathType::Dir && decisions[entries.len() - 1] {
            prefix.push(entries.last().name)
        } else {
            prefix
        }
    }
}

/// Filter-false isolation, first half: when the filter declines every entry,
/// nothing at all qualifies for descent.
pub proof fn lemma_filter_false_no_descent(entries: Seq<EntryModel>, decisions: Seq<bool>)
    requires
        decisions.len() == entries.len(),
        forall|j: int| 0 <= j < decisions.len() ==> !decisions[j],
    ensures
        descended_names(entries, decisions).len() == 0,
    decreases entries.len(),
{
    if entries.len() > 0 {
        lemma_filter_false_no_descent(entries.drop_last(), decisions.drop_last());
    }
}

/// Evaluate a descend filter on every entry of one listing.  Only directory
/// entries are candidates; a filter failure counts as declining, which under
/// the best-effort policy silently skips that one candidate.
pub fn decide_descents<F: DescendFilter>(
    filter: &F,
    parent_path: &String,
    listing: &SvnList,
) -> (r: Vec<bool>)
    ensures
        r@.len() == listing@.len(),
        forall|j: int|
            0 <= j < r@.len() ==> (r@[j] ==> listing@[j].kind == PathType::Dir
                && filter.accepts(joined(parent_path@, listing@[j].name), listing@[j])),
        filter.infallible() ==> forall|j: int|
            0 <= j < r@.len() ==> (r@[j] <==> (listing@[j].kind == PathType::Dir
                && filter.accepts(joined(parent_path@, listing@[j].name), listing@[j]))),
{
    let mut r: Vec<bool> = Vec::new();
    let mut j: usize = 0;
    while j < listing.entries.len()
        invariant
            j <= listing.entries.len(),
            r@.len() == j as int,
            forall|t: int|
                0 <= t < j ==> (r@[t] ==> listing@[t].kind == PathType::Dir
                    && filter.accepts(joined(parent_path@, listing@[t].name), listing@[t])),
            filter.infallible() ==> forall|t: int|
                0 <= t < j ==> (r@[t] <==> (listing@[t].kind == PathType::Dir
                    && filter.accepts(joined(parent_path@, listing@[t].name), listing@[t]))),
        decreases listing.entries.len() - j,
    {
        let e = &listing.entries[j];
        proof {
            assert(listing@[j as int] == e@);
        }
        if e.kind == PathType::Dir {
            let child = join_path(parent_path, &e.name);
            let d = match filter.descend(&child, e) {
                Ok(b) => b,
                Err(_) => false,
            };
            r.push(d);
        } else {
            r.push(false);
        }
        j = j + 1;
    }
    r
}

/// The lifecycle of one directory during a traversal.
#[derive(Clone, Copy, Debug, PartialEq, Eq, Structural)]
pub enum NodeState {
    /// The directory was discovered; its listing has not arrived yet.
    Waiting,
    /// Its listing arrived; some descended child subtree is still unresolved.
    Listed,
    /// Its listing and every descended child subtree are resolved, and its
    /// own path-tagged listing has been appended to the accumulator.
    Done,
    /// Listing it failed; the subtree below it was abandoned.
    Failed,
}

/// A node still takes part in the traversal.
pub open spec fn is_unfinished(s: NodeState) -> bool {
    s == NodeState::Waiting || s == NodeState::Listed
}

/// How many of the nodes in `[lo, hi)` are still unfinished.
pub open spec fn count_unfinished(s: Seq<NodeState>, lo: int, hi: int) -> int
    decreases hi - lo,
{
    if lo >= hi {
        0
    } else {
        count_unfinished(s, lo, hi - 1) + if is_unfinished(s[hi - 1]) {
            1int
        } else {
            0int
        }
    }
}

proof fn lemma_count_bounds(s: Seq<NodeState>, lo: int, hi: int)
    requires
        lo <= hi,
    ensures
        0 <= count_unfinished(s, lo, hi) <= hi - lo,
    decreases hi - lo,
{
    if lo < hi {
        lemma_count_bounds(s, lo, hi - 1);
    }
}

proof fn lemma_count_split(s: Seq<NodeState>, lo: int, mid: int, hi: int)
    requires
        lo <= mid <= hi,
    ensures
        count_unfinished(s, lo, hi) == count_unfinished(s, lo, mid) + count_unfinished(
            s,
            mid,
            hi,
        ),
    decreases hi - mid,
{
    if mid < hi {
        lemma_count_split(s, lo, mid, hi - 1);
    }
}

proof fn lemma_count_frame(s1: Seq<NodeState>, s2: Seq<NodeState>, lo: int, hi: int)
    requires
        forall|k: int| lo <= k < hi ==> is_unfinished(s1[k]) == is_unfinished(s2[k]),
    ensures
        count_unfinished(s1, lo, hi) == count_unfinished(s2, lo, hi),
    decreases hi - lo,
{
    if lo < hi {
        lemma_count_frame(s1, s2, lo, hi - 1);
    }
}

proof fn lemma_count_update(s: Seq<NodeState>, i: int, v: NodeState, lo: int, hi: int)
    requires
        lo <= i < hi,
        0 <= lo,
        hi <= s.len(),
    ensures
        count_unfinished(s.update(i, v), lo, hi) == count_unfinished(s, lo, hi) - (
        if is_unfinished(s[i]) {
            1int
        } else {
            0int
        }) + (if is_unfinished(v) {
            1int
        } else {
            0int
        }),
{
    let s2 = s.update(i, v);
    assert(count_unfinished(s, i, i) == 0);
    assert(count_unfinished(s2, i, i) == 0);
    assert(count_unfinished(s, i, i + 1) == count_unfinished(s, i, i) + if is_unfinished(s[i]) {
        1int
    } else {
        0int
    });
    assert(count_unfinished(s2, i, i + 1) == count_unfinished(s2, i, i) + if is_unfinished(
        s2[i],
    ) {
        1int
    } else {
        0int
    });
    lemma_count_split(s, lo, i, hi);
    lemma_count_split(s, i, i + 1, hi);
    lemma_count_split(s2, lo, i, hi);
    lemma_count_split(s2, i, i + 1, hi);
    lemma_count_frame(s, s2, lo, i);
    lemma_count_frame(s, s2, i + 1, hi);
    assert(count_unfinished(s, i, i + 1) == if is_unfinished(s[i]) {
        1int
    } else {
        0int
    });
    assert(count_unfinished(s2, i, i + 1) == if is_unfinished(v) {
        1int
    } else {
        0int
    });
}

proof fn lemma_count_all_unfinished(s: Seq<NodeState>, lo: int, hi: int)
    requires
        lo <= hi,
        forall|k: int| lo <= k < hi ==> is_unfinished(s[k]),
    ensures
        count_unfinished(s, lo, hi) == hi - lo,
    decreases hi - lo,
{
    if lo < hi {
        lemma_count_all_unfinished(s, lo, hi - 1);
    }
}

proof fn lemma_count_no_unfinished(s: Seq<NodeState>, lo: int, hi: int)
    requires
        lo <= hi,
        forall|k: int| lo <= k < hi ==> !is_unfinished(s[k]),
    ensures
        count_unfinished(s, lo, hi) == 0,
    decreases hi - lo,
{
    if lo < hi {
        lemma_count_no_unfinished(s, lo, hi - 1);
    }
}

proof fn lemma_count_none_unfinished(s: Seq<NodeState>, lo: int, hi: int, k: int)
    requires
        lo <= k < hi,
        count_unfinished(s, lo, hi) == 0,
    ensures
        !is_unfinished(s[k]),
{
    lemma_count_split(s, lo, k, hi);
    lemma_count_split(s, k, k + 1, hi);
    lemma_count_bounds(s, lo, k);
    lemma_count_bounds(s, k + 1, hi);
    assert(count_unfinished(s, k, k) == 0);
}

/// How many of the nodes in `[lo, hi)` are resolved with their listing
/// appended to the accumulator.
pub open spec fn count_done(s: Seq<NodeState>, lo: int, hi: int) -> int
    decreases hi - lo,
{
    if lo >= hi {
        0
    } else {
        count_done(s, lo, hi - 1) + if s[hi - 1] == NodeState::Done {
            1int
        } else {
            0int
        }
    }
}

proof fn lemma_count_done_split(s: Seq<NodeState>, lo: int, mid: int, hi: int)
    requires
        lo <= mid <= hi,
    ensures
        count_done(s, lo, hi) == count_done(s, lo, mid) + count_done(s, mid, hi),
    decreases hi - mid,
{
    if mid < hi {
        lemma_count_done_split(s, lo, mid, hi - 1);
    }
}

proof fn lemma_count_done_frame(s1: Seq<NodeState>, s2: Seq<NodeState>, lo: int, hi: int)
    requires
        forall|k: int| lo <= k < hi ==> (s1[k] == NodeState::Done) == (s2[k] == NodeState::Done),
    ensures
        count_done(s1, lo, hi) == count_done(s2, lo, hi),
    decreases hi - lo,
{
    if lo < hi {
        lemma_count_done_frame(s1, s2, lo, hi - 1);
    }
}

proof fn lemma_count_done_update(s: Seq<NodeState>, i: int, v: NodeState, lo: int, hi: int)
    requires
        lo <= i < hi,
        0 <= lo,
        hi <= s.len(),
    ensures
        count_done(s.update(i, v), lo, hi) == count_done(s, lo, hi) - (
        if s[i] == NodeState::Done {
            1int
        } else {
            0int
        }) + (if v == NodeState::Done {
            1int
        } else {
            0int
        }),
{
    let s2 = s.update(i, v);
    assert(count_done(s, i, i) == 0);
    assert(count_done(s2, i, i) == 0);
    assert(count_done(s, i, i + 1) == count_done(s, i, i) + if s[i] == NodeState::Done {
        1int
    } else {
        0int
    });
    assert(count_done(s2, i, i + 1) == count_done(s2, i, i) + if s2[i] == NodeState::Done {
        1int
    } else {
        0int
    });
    lemma_count_done_split(s, lo, i, hi);
    lemma_count_done_split(s, i, i + 1, hi);
    lemma_count_done_split(s2, lo, i, hi);
    lemma_count_done_split(s2, i, i + 1, hi);
    lemma_count_done_frame(s, s2, lo, i);
    lemma_count_done_frame(s, s2, i + 1, hi);
}

proof fn lemma_count_done_all(s: Seq<NodeState>, lo: int, hi: int)
    requires
        lo <= hi,
        forall|k: int| lo <= k < hi ==> s[k] == NodeState::Done,
    ensures
        count_done(s, lo, hi) == hi - lo,
    decreases hi - lo,
{
    if lo < hi {
        lemma_count_done_all(s, lo, hi - 1);
    }
}

proof fn lemma_count_done_none(s: Seq<NodeState>, lo: int, hi: int)
    requires
        lo <= hi,
        forall|k: int| lo <= k < hi ==> s[k] != NodeState::Done,
    ensures
        count_done(s, lo, hi) == 0,
    decreases hi - lo,
{
    if lo < hi {
        lemma_count_done_none(s, lo, hi - 1);
    }
}

/// The recursive fan-out/join traversal engine, expressed as an explicit
/// state machine over the set of directories discovered so far.
///
/// A driver creates the walk with the root path, then repeatedly picks some
/// node that is `Waiting`, performs the one non-recursive listing call for
/// its path — many such calls may run concurrently — and delivers the
/// outcome with [`TreeWalk::deliver_listing`] or [`TreeWalk::deliver_error`].
/// Delivering a listing discovers the qualifying child directories and, once
/// every descendant of a directory is resolved, appends that directory's own
/// path-tagged listing to the accumulator; the traversal is therefore
/// post-order however the in-flight listings are interleaved.  When no node
/// is unfinished, [`TreeWalk::into_result`] hands back the frozen
/// accumulator, or the root's own listing error under the best-effort
/// failure policy.
pub struct TreeWalk {
    /// The path each node was discovered under.
    pub paths: Vec<String>,
    /// Each node's own listing, once delivered.
    pub listings: Vec<Option<SvnList>>,
    /// Each node's parent; `None` exactly for the root.
    pub parents: Vec<Option<usize>>,
    /// Start of each node's contiguous block of descended children.
    pub child_starts: Vec<usize>,
    /// Size of that block.
    pub child_counts: Vec<usize>,
    /// How many of the node's children are still unfinished.
    pub pendings: Vec<usize>,
    /// Each node's lifecycle state.
    pub states: Vec<NodeState>,
    /// The shared accumulator of completed path-tagged listings.
    pub acc: SvnListParallel,
    /// Where in the accumulator each resolved node's listing went.
    pub acc_indices: Vec<usize>,
    /// How many nodes are still unfinished.
    pub unfinished: usize,
    /// The root listing failure, if listing the root itself failed.
    pub root_error: Option<ListingError>,
}

impl TreeWalk {
    /// Number of discovered nodes.
    pub open spec fn n(self) -> int {
        self.states@.len() as int
    }

    /// Node `c` lies in node `p`'s block of descended children.
    pub open spec fn in_children(self, p: int, c: int) -> bool {
        self.child_starts@[p] <= c < self.child_starts@[p] + self.child_counts@[p]
    }

    /// Per-node well-formedness.
    pub open spec fn node_wf(self, i: int) -> bool {
        let st = self.states@[i];
        let cs = self.child_starts@[i] as int;
        let cc = self.child_counts@[i] as int;
        &&& (self.parents@[i] is None <==> i == 0)
        &&& (match self.parents@[i] {
            Some(p) => 0 <= p < i && self.in_children(p as int, i),
            None => true,
        })
        &&& cs + cc <= self.n()
        &&& (cc > 0 ==> i < cs)
        &&& (st == NodeState::Waiting ==> self.listings@[i] is None && cc == 0)
        &&& (st == NodeState::Failed ==> cc == 0)
        &&& ((st == NodeState::Listed || st == NodeState::Done) ==> self.listings@[i] is Some)
        &&& (st == NodeState::Listed ==> self.pendings@[i] == count_unfinished(
            self.states@,
            cs,
            cs + cc,
        ))
        &&& (st == NodeState::Done ==> count_unfinished(self.states@, cs, cs + cc) == 0)
        &&& (st == NodeState::Done ==> self.acc_indices@[i] < self.acc@.len()
            && self.acc@[self.acc_indices@[i] as int] == completed_item(self, i))
        &&& (st == NodeState::Done ==> match self.parents@[i] {
            Some(p) => self.states@[p as int] == NodeState::Done
                ==> self.acc_indices@[i] < self.acc_indices@[p as int],
            None => true,
        })
    }

    /// Whole-walk well-formedness except for the idle-listed rule below:
    /// every constructor establishes it and every transition preserves it.
    pub open spec fn wf_core(self) -> bool {
        &&& self.paths@.len() == self.n()
        &&& self.listings@.len() == self.n()
        &&& self.parents@.len() == self.n()
        &&& self.child_starts@.len() == self.n()
        &&& self.child_counts@.len() == self.n()
        &&& self.pendings@.len() == self.n()
        &&& self.acc_indices@.len() == self.n()
        &&& self.n() >= 1
        &&& (forall|i: int| 0 <= i < self.n() ==> self.node_wf(i))
        &&& (forall|p: int, c: int|
            0 <= p < self.n() && #[trigger] self.in_children(p, c) ==> 0 <= c < self.n()
                && self.parents@[c] == Some(p as usize))
        &&& self.unfinished == count_unfinished(self.states@, 0, self.n())
        &&& self.acc@.len() == count_done(self.states@, 0, self.n())
        &&& (forall|i: int, j: int|
            0 <= i < self.n() && 0 <= j < self.n() && i != j && self.states@[i]
                == NodeState::Done && self.states@[j] == NodeState::Done
                ==> #[trigger] self.acc_indices@[i] != #[trigger] self.acc_indices@[j])
        &&& (self.states@[0] == NodeState::Failed <==> self.root_error is Some)
    }

    /// No listed node sits idle: a directory whose descended children are
    /// all resolved completes at once, so outside the one instant in which
    /// node `exempt` is about to complete, a listed node always has a
    /// pending child.
    pub open spec fn no_idle_listed_except(self, exempt: int) -> bool {
        forall|i: int|
            0 <= i < self.n() && i != exempt && self.states@[i] == NodeState::Listed
                ==> self.pendings@[i] > 0
    }

    /// Whole-walk well-formedness: every constructor establishes it and
    /// every transition preserves it.
    pub open spec fn wf(self) -> bool {
        &&& self.wf_core()
        &&& self.no_idle_listed_except(-1)
    }

    /// The traversal has resolved every discovered directory.
    pub open spec fn spec_done(self) -> bool {
        self.unfinished == 0
    }

    /// Begin a traversal rooted at a non-empty path: one waiting root node,
    /// an empty accumulator, no error.
    pub fn new(root_path: String) -> (w: TreeWalk)
        requires
            root_path@.len() > 0,
        ensures
            w.wf(),
            w.n() == 1,
            w.states@[0] == NodeState::Waiting,
            w.paths@[0]@ == root_path@,
            w.parents@[0] is None,
            w.listings@[0] is None,
            w.acc@ == Seq::<PathedModel>::empty(),
            w.root_error is None,
            w.unfinished == 1,
    {
        let mut paths: Vec<String> = Vec::new();
        paths.push(root_path);
        let mut listings: Vec<Option<SvnList>> = Vec::new();
        listings.push(None);
        let mut parents: Vec<Option<usize>> = Vec::new();
        parents.push(None);
        let mut child_starts: Vec<usize> = Vec::new();
        child_starts.push(0);
        let mut child_counts: Vec<usize> = Vec::new();
        child_counts.push(0);
        let mut pendings: Vec<usize> = Vec::new();
        pendings.push(0);
        let mut states: Vec<NodeState> = Vec::new();
        states.push(NodeState::Waiting);
        let mut acc_indices: Vec<usize> = Vec::new();
        acc_indices.push(0);
        let w = TreeWalk {
            paths,
            listings,
            parents,
            child_starts,
            child_counts,
            pendings,
            states,
            acc_indices,
            acc: SvnListParallel::new(),
            unfinished: 1,
            root_error: None,
        };
        proof {
            assert(count_unfinished(w.states@, 0, 0) == 0);
            assert(count_unfinished(w.states@, 0, 1) == 1);
            assert(count_done(w.states@, 0, 0) == 0);
            assert(count_done(w.states@, 0, 1) == 0);
            assert(w.node_wf(0));
            assert forall|p: int, c: int|
                0 <= p < w.n() && #[trigger] w.in_children(p, c) implies 0 <= c < w.n()
                && w.parents@[c] == Some(p as usize) by {
                assert(w.child_counts@[p] == 0);
            }
        }
        w
    }

    /// Number of discovered nodes so far.
    pub fn node_count(&self) -> (r: usize)
        ensures
            r == self.n(),
    {
        self.states.len()
    }

    /// The lifecycle state of one node.
    pub fn node_state(&self, id: usize) -> (r: NodeState)
        requires
            id < self.n(),
        ensures
            r == self.states@[id as int],
    {
        self.states[id]
    }

    /// The path a node was discovered under; for a waiting node, this is the
    /// path the driver must list.
    pub fn path_of(&self, id: usize) -> (r: &String)
        requires
            self.wf(),
            id < self.n(),
        ensures
            r@ == self.paths@[id as int]@,
    {
        &self.paths[id]
    }

    /// Whether every discovered directory is resolved.
    pub fn is_done(&self) -> (r: bool)
        ensures
            r == self.spec_done(),
    {
        self.unfinished == 0
    }

    /// Some node whose listing the driver still has to deliver, if any.
    pub fn find_waiting(&self) -> (r: Option<usize>)
        ensures
            match r {
                Some(i) => i < self.n() && self.states@[i as int] == NodeState::Waiting,
                None => forall|i: int|
                    0 <= i < self.n() ==> self.states@[i] != NodeState::Waiting,
            },
    {
        let mut i: usize = 0;
        while i < self.states.len()
            invariant
                i <= self.n(),
                forall|t: int| 0 <= t < i ==> self.states@[t] != NodeState::Waiting,
            decreases self.n() - i,
        {
            if self.states[i] == NodeState::Waiting {
                return Some(i);
            }
            i = i + 1;
        }
        None
    }
}


/// The path-tagged listing that node `i` contributes to the accumulator.
pub open spec fn completed_item(w: TreeWalk, i: int) -> PathedModel {
    PathedModel { path: w.paths@[i]@, entries: w.listings@[i].unwrap()@ }
}

/// One node's well-formedness survives a transition at another node outside
/// its child block, an append to the accumulator, and growth of the node
/// table: the range it counts over cannot contain the transitioned node,
/// and its own slot in the accumulator is left as it was.
proof fn lemma_node_wf_preserved(pre: TreeWalk, cur: TreeWalk, i: int, q: int)
    requires
        pre.wf_core(),
        0 <= i < pre.n(),
        0 <= q < pre.n(),
        q != i,
        pre.n() <= cur.n(),
        cur.paths@[q] == pre.paths@[q],
        cur.listings@[q] == pre.listings@[q],
        cur.parents@[q] == pre.parents@[q],
        cur.pendings@[q] == pre.pendings@[q],
        forall|t: int| 0 <= t < pre.n() && t != i ==> cur.states@[t] == pre.states@[t],
        forall|t: int|
            0 <= t < pre.n() && t != i ==> cur.acc_indices@[t] == pre.acc_indices@[t],
        forall|t: int|
            0 <= t < pre.n() && t != i ==> cur.child_starts@[t] == pre.child_starts@[t]
                && cur.child_counts@[t] == pre.child_counts@[t],
        pre.child_counts@[i] == 0 || (cur.child_starts@[i] == pre.child_starts@[i]
            && cur.child_counts@[i] == pre.child_counts@[i]),
        !pre.in_children(q, i),
        pre.states@[i] != NodeState::Done,
        pre.acc@.len() <= cur.acc@.len(),
        cur.acc@.subrange(0, pre.acc@.len() as int) == pre.acc@,
        cur.states@[i] == NodeState::Done ==> cur.acc_indices@[i] >= pre.acc@.len(),
    ensures
        cur.node_wf(q),
{
    assert(pre.node_wf(q));
    let qs = pre.child_starts@[q] as int;
    let qc = pre.child_counts@[q] as int;
    if pre.states@[q] == NodeState::Listed || pre.states@[q] == NodeState::Done {
        assert forall|k: int| qs <= k < qs + qc implies is_unfinished(pre.states@[k])
            == is_unfinished(cur.states@[k]) by {
            assert(pre.in_children(q, k));
            assert(pre.parents@[k] == Some(q as usize));
        }
        lemma_count_frame(pre.states@, cur.states@, qs, qs + qc);
    }
    if pre.states@[q] == NodeState::Done {
        let idx = pre.acc_indices@[q] as int;
        assert(cur.acc@.subrange(0, pre.acc@.len() as int)[idx] == pre.acc@[idx]);
        assert(cur.acc@[idx] == pre.acc@[idx]);
        assert(completed_item(cur, q) == completed_item(pre, q));
    }
    (match pre.parents@[q] {
        Some(p) => {
            assert(pre.in_children(p as int, q));
            assert(cur.in_children(p as int, q));
        },
        None => {},
    })
}

impl TreeWalk {
    /// Node `id` has its listing and no unfinished child left: append its
    /// path-tagged listing to the accumulator, mark it resolved, and let the
    /// resolution cascade up to every ancestor this one was the last
    /// unfinished child of.  Appending strictly after every descendant is
    /// what makes the traversal post-order.
    fn complete(&mut self, id: usize)
        requires
            old(self).wf_core(),
            old(self).no_idle_listed_except(id as int),
            id < old(self).n(),
            old(self).states@[id as int] == NodeState::Listed,
            old(self).pendings@[id as int] == 0,
        ensures
            final(self).wf(),
            final(self).n() == old(self).n(),
            final(self).paths@ == old(self).paths@,
            final(self).parents@ == old(self).parents@,
            final(self).child_starts@ == old(self).child_starts@,
            final(self).child_counts@ == old(self).child_counts@,
            final(self).listings@ == old(self).listings@,
            final(self).root_error == old(self).root_error,
            forall|k: int|
                0 <= k < old(self).n() && final(self).states@[k] != old(self).states@[k]
                    ==> old(self).states@[k] == NodeState::Listed && final(self).states@[k]
                    == NodeState::Done,
            final(self).states@[id as int] == NodeState::Done,
            final(self).acc@.len() > old(self).acc@.len(),
            final(self).acc@.subrange(0, old(self).acc@.len() as int) == old(self).acc@,
            final(self).acc@[old(self).acc@.len() as int] == completed_item(*old(self), id as int),
            final(self).unfinished as int == old(self).unfinished - (final(self).acc@.len()
                - old(self).acc@.len()),
            old(self).parents@[id as int] is None ==> final(self).acc@ == old(self).acc@.push(
                completed_item(*old(self), id as int),
            ) && final(self).states@ == old(self).states@.update(id as int, NodeState::Done)
                && final(self).pendings@ == old(self).pendings@,
            (match old(self).parents@[id as int] {
                Some(p) => {
                    &&& (old(self).pendings@[p as int] > 1 ==> final(self).acc@ == old(self).acc@.push(completed_item(*old(self), id as int)) && final(self).states@
                        == old(self).states@.update(id as int, NodeState::Done) && final(self).pendings@ == old(self).pendings@.update(
                        p as int,
                        (old(self).pendings@[p as int] - 1) as usize,
                    ))
                    &&& (old(self).pendings@[p as int] == 1 ==> final(self).states@[p as int]
                        == NodeState::Done && final(self).acc@.len() > old(self).acc@.len() + 1
                        && final(self).acc@[old(self).acc@.len() as int + 1] == completed_item(
                        *old(self),
                        p as int,
                    ))
                },
                None => true,
            }),
        decreases id,
    {
        let ghost pre = *self;
        let ghost i = id as int;
        let ghost n = pre.n();
        let node_total = self.states.len();
        proof {
            assert(n == node_total as int);
            assert(pre.node_wf(i));
        }
        let path = self.paths[id].clone();
        let listing = match &self.listings[id] {
            Some(l) => l.clone(),
            None => {
                proof {
                    assert(false);
                }
                SvnList { entries: Vec::new() }
            },
        };
        let new_index = self.acc.len();
        self.acc_indices.set(id, new_index);
        self.acc.push(SvnListWithPath::new(path, listing));
        proof {
            assert(self.acc@ =~= pre.acc@.push(completed_item(pre, i)));
        }
        self.states.set(id, NodeState::Done);
        proof {
            // the whole-walk unfinished count drops by exactly one, and the
            // resolved count rises by exactly one, matching the append
            lemma_count_update(pre.states@, i, NodeState::Done, 0, n);
            lemma_count_done_update(pre.states@, i, NodeState::Done, 0, n);
            lemma_count_bounds(self.states@, 0, n);
        }
        let next_unfinished = self.unfinished - 1;
        self.unfinished = next_unfinished;
        let parent_opt = self.parents[id];
        proof {
            // node id keeps an all-finished child range: its own index is
            // outside the range, so the count there is untouched
            let cs = pre.child_starts@[i] as int;
            let cc = pre.child_counts@[i] as int;
            assert forall|k: int| cs <= k < cs + cc implies is_unfinished(pre.states@[k])
                == is_unfinished(self.states@[k]) by {
                assert(pre.in_children(i, k));
            }
            lemma_count_frame(pre.states@, self.states@, cs, cs + cc);
            // fresh accumulator slot: distinct from every earlier one
            assert forall|a: int, b: int|
                0 <= a < n && 0 <= b < n && a != b && self.states@[a] == NodeState::Done
                    && self.states@[b] == NodeState::Done implies #[trigger] self.acc_indices@[a]
                != #[trigger] self.acc_indices@[b] by {
                assert(pre.node_wf(a));
                assert(pre.node_wf(b));
                if a != i && b != i {
                    assert(pre.acc_indices@[a] != pre.acc_indices@[b]);
                }
            }
        }
        match parent_opt {
            None => {
                proof {
                    assert(i == 0);
                    assert forall|q: int| 0 <= q < n implies self.node_wf(q) by {
                        if q != i {
                            assert(pre.node_wf(i));
                            if pre.in_children(q, i) {
                                assert(pre.parents@[i] == Some(q as usize));
                            }
                            assert(self.acc@.subrange(0, pre.acc@.len() as int)
                                =~= pre.acc@);
                            lemma_node_wf_preserved(pre, *self, i, q);
                        }
                    }
                    assert forall|p: int, c: int|
                        0 <= p < self.n() && #[trigger] self.in_children(p, c) implies 0 <= c
                        < self.n() && self.parents@[c] == Some(p as usize) by {
                        assert(pre.in_children(p, c));
                    }
                    assert(self.wf_core());
                    assert forall|q: int|
                        0 <= q < n && q != -1 && self.states@[q] == NodeState::Listed implies self.pendings@[q]
                        > 0 by {
                        assert(pre.states@[q] == NodeState::Listed && q != i);
                    }
                    assert(self.no_idle_listed_except(-1));
                }
            },
            Some(parent) => {
                let ghost p = parent as int;
                proof {
                    assert(pre.in_children(p, i));
                    assert(pre.node_wf(p));
                    let ps = pre.child_starts@[p] as int;
                    let pc = pre.child_counts@[p] as int;
                    // the parent of an unfinished node must itself be listed
                    lemma_count_split(pre.states@, ps, i, ps + pc);
                    lemma_count_split(pre.states@, i, i + 1, ps + pc);
                    lemma_count_bounds(pre.states@, ps, i);
                    lemma_count_bounds(pre.states@, i + 1, ps + pc);
                    assert(count_unfinished(pre.states@, i, i) == 0);
                    assert(count_unfinished(pre.states@, ps, ps + pc) >= 1);
                    if pre.states@[p] == NodeState::Waiting || pre.states@[p]
                        == NodeState::Failed {
                        assert(pc == 0);
                        assert(false);
                    }
                    if pre.states@[p] == NodeState::Done {
                        assert(false);
                    }
                    assert(pre.states@[p] == NodeState::Listed);
                    assert(pre.pendings@[p] >= 1);
                    lemma_count_update(pre.states@, i, NodeState::Done, ps, ps + pc);
                }
                let prior = self.pendings[parent];
                let next_pending = prior - 1;
                self.pendings.set(parent, next_pending);
                proof {
                    assert forall|q: int| 0 <= q < n implies self.node_wf(q) by {
                        if q != i && q != p {
                            assert(pre.node_wf(i));
                            if pre.in_children(q, i) {
                                assert(pre.parents@[i] == Some(q as usize));
                                assert(q as usize == parent);
                                assert(q == parent as int);
                                assert(false);
                            }
                            assert(self.acc@.subrange(0, pre.acc@.len() as int)
                                =~= pre.acc@);
                            lemma_node_wf_preserved(pre, *self, i, q);
                        } else {
                            assert(pre.node_wf(q));
                        }
                    }
                    assert forall|pp: int, c: int|
                        0 <= pp < self.n() && #[trigger] self.in_children(pp, c) implies 0 <= c
                        < self.n() && self.parents@[c] == Some(pp as usize) by {
                        assert(pre.in_children(pp, c));
                    }
                    assert(self.wf_core());
                }
                if next_pending == 0 {
                    proof {
                        assert forall|q: int|
                            0 <= q < n && q != p && self.states@[q]
                                == NodeState::Listed implies self.pendings@[q] > 0 by {
                            assert(pre.states@[q] == NodeState::Listed && q != i);
                        }
                        assert(self.no_idle_listed_except(p));
                    }
                    let ghost mid = *self;
                    self.complete(parent);
                    proof {
                        assert(final(self).acc@.subrange(0, pre.acc@.len() as int)
                            =~= mid.acc@.subrange(0, mid.acc@.len() as int).subrange(
                            0,
                            pre.acc@.len() as int,
                        ));
                        assert(final(self).acc@.subrange(0, pre.acc@.len() as int)
                            == pre.acc@);
                        assert(final(self).acc@[pre.acc@.len() as int] == mid.acc@[pre.acc@.len()
                            as int]);
                        assert(completed_item(mid, p) == completed_item(pre, p));
                        assert(mid.acc@.len() == pre.acc@.len() + 1);
                        assert(final(self).acc@[pre.acc@.len() as int + 1] == completed_item(
                            pre,
                            p,
                        ));
                    }
                } else {
                    proof {
                        assert forall|q: int|
                            0 <= q < n && q != -1 && self.states@[q]
                                == NodeState::Listed implies self.pendings@[q] > 0 by {
                            if q != p {
                                assert(pre.states@[q] == NodeState::Listed && q != i);
                            }
                        }
                        assert(self.no_idle_listed_except(-1));
                    }
                }
            },
        }
    }

    /// The listing call for node `id`'s path failed.  Under the best-effort
    /// policy the failed subtree is abandoned without poisoning anything
    /// else: siblings and ancestors proceed, and only a failure of the root
    /// itself is recorded to surface from [`TreeWalk::into_result`].
    pub fn deliver_error(&mut self, id: usize, error: ListingError)
        requires
            old(self).wf(),
            id < old(self).n(),
            old(self).states@[id as int] == NodeState::Waiting,
        ensures
            final(self).wf(),
            final(self).n() == old(self).n(),
            final(self).paths@ == old(self).paths@,
            final(self).parents@ == old(self).parents@,
            final(self).child_starts@ == old(self).child_starts@,
            final(self).child_counts@ == old(self).child_counts@,
            final(self).listings@ == old(self).listings@,
            final(self).states@[id as int] == NodeState::Failed,
            forall|k: int|
                0 <= k < old(self).n() && k != id && final(self).states@[k] != old(self).states@[k] ==> old(self).states@[k] == NodeState::Listed && final(self).states@[k] == NodeState::Done,
            final(self).acc@.subrange(0, old(self).acc@.len() as int) == old(self).acc@,
            final(self).unfinished as int == old(self).unfinished - 1 - (final(self).acc@.len()
                - old(self).acc@.len()),
            id == 0 ==> final(self).acc@ == old(self).acc@ && final(self).root_error is Some
                && final(self).root_error.unwrap()@ == error@,
            id != 0 ==> final(self).root_error == old(self).root_error,
            (match old(self).parents@[id as int] {
                Some(p) => {
                    &&& (old(self).pendings@[p as int] > 1 ==> final(self).acc@ == old(self).acc@
                        && final(self).states@ == old(self).states@.update(
                        id as int,
                        NodeState::Failed,
                    ) && final(self).pendings@ == old(self).pendings@.update(
                        p as int,
                        (old(self).pendings@[p as int] - 1) as usize,
                    ))
                    &&& (old(self).pendings@[p as int] == 1 ==> final(self).states@[p as int]
                        == NodeState::Done && final(self).acc@.len() > old(self).acc@.len()
                        && final(self).acc@[old(self).acc@.len() as int] == completed_item(
                        *old(self),
                        p as int,
                    ))
                },
                None => true,
            }),
    {
        let ghost pre = *self;
        let ghost i = id as int;
        let ghost n = pre.n();
        let node_total = self.states.len();
        proof {
            assert(n == node_total as int);
            assert(pre.node_wf(i));
        }
        self.states.set(id, NodeState::Failed);
        proof {
            lemma_count_update(pre.states@, i, NodeState::Failed, 0, n);
            lemma_count_done_update(pre.states@, i, NodeState::Failed, 0, n);
            lemma_count_bounds(self.states@, 0, n);
        }
        let next_unfinished = self.unfinished - 1;
        self.unfinished = next_unfinished;
        let parent_opt = self.parents[id];
        match parent_opt {
            None => {
                proof {
                    assert(i == 0);
                }
                self.root_error = Some(error);
                proof {
                    assert forall|q: int| 0 <= q < n implies self.node_wf(q) by {
                        if q != i {
                            assert(pre.node_wf(i));
                            if pre.in_children(q, i) {
                                assert(pre.parents@[i] == Some(q as usize));
                            }
                            assert(self.acc@.subrange(0, pre.acc@.len() as int)
                                =~= pre.acc@);
                            lemma_node_wf_preserved(pre, *self, i, q);
                        } else {
                            assert(pre.node_wf(q));
                        }
                    }
                    assert forall|pp: int, c: int|
                        0 <= pp < self.n() && #[trigger] self.in_children(pp, c) implies 0 <= c
                        < self.n() && self.parents@[c] == Some(pp as usize) by {
                        assert(pre.in_children(pp, c));
                    }
                    assert forall|a: int, b: int|
                        0 <= a < n && 0 <= b < n && a != b && self.states@[a] == NodeState::Done
                            && self.states@[b] == NodeState::Done implies #[trigger] self.acc_indices@[a]
                        != #[trigger] self.acc_indices@[b] by {
                        assert(pre.acc_indices@[a] != pre.acc_indices@[b]);
                    }
                    assert(self.wf_core());
                    assert forall|q: int|
                        0 <= q < n && q != -1 && self.states@[q]
                            == NodeState::Listed implies self.pendings@[q] > 0 by {
                        assert(pre.states@[q] == NodeState::Listed && q != i);
                    }
                    assert(self.no_idle_listed_except(-1));
                }
            },
            Some(parent) => {
                let ghost p = parent as int;
                proof {
                    assert(pre.in_children(p, i));
                    assert(pre.node_wf(p));
                    let ps = pre.child_starts@[p] as int;
                    let pc = pre.child_counts@[p] as int;
                    lemma_count_split(pre.states@, ps, i, ps + pc);
                    lemma_count_split(pre.states@, i, i + 1, ps + pc);
                    lemma_count_bounds(pre.states@, ps, i);
                    lemma_count_bounds(pre.states@, i + 1, ps + pc);
                    assert(count_unfinished(pre.states@, i, i) == 0);
                    assert(count_unfinished(pre.states@, ps, ps + pc) >= 1);
                    if pre.states@[p] == NodeState::Waiting || pre.states@[p]
                        == NodeState::Failed {
                        assert(pc == 0);
                        assert(false);
                    }
                    if pre.states@[p] == NodeState::Done {
                        assert(false);
                    }
                    assert(pre.states@[p] == NodeState::Listed);
                    assert(pre.pendings@[p] >= 1);
                    lemma_count_update(pre.states@, i, NodeState::Failed, ps, ps + pc);
                }
                let prior = self.pendings[parent];
                let next_pending = prior - 1;
                self.pendings.set(parent, next_pending);
                proof {
                    assert forall|q: int| 0 <= q < n implies self.node_wf(q) by {
                        if q != i && q != p {
                            assert(pre.node_wf(i));
                            if pre.in_children(q, i) {
                                assert(pre.parents@[i] == Some(q as usize));
                                assert(q as usize == parent);
                                assert(q == parent as int);
                                assert(false);
                            }
                            assert(self.acc@.subrange(0, pre.acc@.len() as int)
                                =~= pre.acc@);
                            lemma_node_wf_preserved(pre, *self, i, q);
                        } else {
                            assert(pre.node_wf(q));
                        }
                    }
                    assert forall|pp: int, c: int|
                        0 <= pp < self.n() && #[trigger] self.in_children(pp, c) implies 0 <= c
                        < self.n() && self.parents@[c] == Some(pp as usize) by {
                        assert(pre.in_children(pp, c));
                    }
                    assert forall|a: int, b: int|
                        0 <= a < n && 0 <= b < n && a != b && self.states@[a] == NodeState::Done
                            && self.states@[b] == NodeState::Done implies #[trigger] self.acc_indices@[a]
                        != #[trigger] self.acc_indices@[b] by {
                        assert(pre.acc_indices@[a] != pre.acc_indices@[b]);
                    }
                    assert(self.wf_core());
                }
                if next_pending == 0 {
                    proof {
                        assert forall|q: int|
                            0 <= q < n && q != p && self.states@[q]
                                == NodeState::Listed implies self.pendings@[q] > 0 by {
                            assert(pre.states@[q] == NodeState::Listed && q != i);
                        }
                        assert(self.no_idle_listed_except(p));
                    }
                    let ghost mid = *self;
                    self.complete(parent);
                    proof {
                        assert(final(self).acc@.subrange(0, pre.acc@.len() as int)
                            =~= mid.acc@.subrange(0, mid.acc@.len() as int).subrange(
                            0,
                            pre.acc@.len() as int,
                        ));
                        assert(final(self).acc@.subrange(0, pre.acc@.len() as int)
                            == pre.acc@);
                        assert(completed_item(mid, p) == completed_item(pre, p));
                        assert(mid.acc@.len() == pre.acc@.len());
                        assert(final(self).acc@[pre.acc@.len() as int] == completed_item(pre, p));
                    }
                } else {
                    proof {
                        assert forall|q: int|
                            0 <= q < n && q != -1 && self.states@[q]
                                == NodeState::Listed implies self.pendings@[q] > 0 by {
                            if q != p {
                                assert(pre.states@[q] == NodeState::Listed && q != i);
                            }
                        }
                        assert(self.no_idle_listed_except(-1));
                    }
                }
            },
        }
    }

    /// Hand the traversal's outcome to the caller once every directory is
    /// resolved: the frozen accumulator, or — under the best-effort policy —
    /// the root's own listing error, the only failure that surfaces.
    pub fn into_result(self) -> (r: Result<SvnListParallel, TraversalError>)
        requires
            self.wf(),
            self.spec_done(),
        ensures
            match r {
                Ok(acc) => self.root_error is None && acc@ == self.acc@,
                Err(e) => self.root_error is Some && e@ == TraversalErrorModel::Listing(
                    self.root_error.unwrap()@,
                ),
            },
    {
        match self.root_error {
            None => Ok(self.acc),
            Some(e) => Err(TraversalError::Listing(e)),
        }
    }
}


/// Compute the fully joined candidate path of every entry that qualifies
/// for descent, in listing order.
fn build_child_paths(parent: &String, listing: &SvnList, decisions: &Vec<bool>) -> (r: Vec<
    String,
>)
    requires
        decisions@.len() == listing@.len(),
    ensures
        r@.len() == descended_names(listing@, decisions@).len(),
        forall|t: int|
            0 <= t < r@.len() ==> r@[t]@ == joined(
                parent@,
                descended_names(listing@, decisions@)[t],
            ),
{
    let mut r: Vec<String> = Vec::new();
    let mut j: usize = 0;
    while j < listing.entries.len()
        invariant
            j <= listing.entries.len(),
            decisions@.len() == listing@.len(),
            listing@.len() == listing.entries@.len(),
            r@.len() == descended_names(
                listing@.take(j as int),
                decisions@.take(j as int),
            ).len(),
            forall|t: int|
                0 <= t < r@.len() ==> r@[t]@ == joined(
                    parent@,
                    descended_names(listing@.take(j as int), decisions@.take(j as int))[t],
                ),
        decreases listing.entries.len() - j,
    {
        let ghost jj = j as int;
        let ghost prefix_names = descended_names(listing@.take(jj), decisions@.take(jj));
        let e = &listing.entries[j];
        proof {
            assert(listing@[jj] == e@);
            assert(listing@.take(jj + 1).drop_last() =~= listing@.take(jj));
            assert(decisions@.take(jj + 1).drop_last() =~= decisions@.take(jj));
            assert(listing@.take(jj + 1).last() == listing@[jj]);
            assert(decisions@.take(jj + 1)[jj] == decisions@[jj]);
        }
        if e.kind == PathType::Dir && decisions[j] {
            let cp = join_path(parent, &e.name);
            r.push(cp);
            proof {
                assert(descended_names(listing@.take(jj + 1), decisions@.take(jj + 1))
                    == prefix_names.push(e@.name));
            }
        } else {
            proof {
                assert(descended_names(listing@.take(jj + 1), decisions@.take(jj + 1))
                    == prefix_names);
            }
        }
        j = j + 1;
    }
    proof {
        assert(listing@.take(listing@.len() as int) =~= listing@);
        assert(decisions@.take(listing@.len() as int) =~= decisions@);
    }
    r
}

impl TreeWalk {
    /// The listing call for node `id`'s path succeeded.  Record the listing,
    /// discover the child directories that qualify for descent under the
    /// delivered per-entry decisions, and either hand those children to the
    /// driver as new waiting nodes, or — when nothing qualifies — resolve
    /// the node at once, appending its path-tagged listing and cascading
    /// upward.
    ///
    /// Filter-false isolation: when no entry qualifies (so in particular
    /// when the filter declined everything, see
    /// [`lemma_filter_false_no_descent`]) and `id` is the root of a fresh
    /// walk, the final clause below pins the outcome to exactly one appended
    /// listing — the root's own — and no recursive descent at all.
    pub fn deliver_listing(&mut self, id: usize, listing: SvnList, decisions: &Vec<bool>)
        requires
            old(self).wf(),
            id < old(self).n(),
            old(self).states@[id as int] == NodeState::Waiting,
            decisions@.len() == listing@.len(),
        ensures
            final(self).wf(),
            final(self).n() == old(self).n() + descended_names(listing@, decisions@).len(),
            final(self).root_error == old(self).root_error,
            final(self).listings@[id as int] is Some && final(self).listings@[id as int].unwrap()@
                == listing@,
            final(self).paths@.subrange(0, old(self).n()) == old(self).paths@,
            final(self).parents@.subrange(0, old(self).n()) == old(self).parents@,
            final(self).child_starts@[id as int] == old(self).n(),
            final(self).child_counts@[id as int] == descended_names(listing@, decisions@).len(),
            forall|t: int|
                0 <= t < descended_names(listing@, decisions@).len() ==> {
                    &&& (#[trigger] final(self).states@[old(self).n() + t]) == NodeState::Waiting
                    &&& final(self).parents@[old(self).n() + t] == Some(id)
                    &&& final(self).listings@[old(self).n() + t] is None
                    &&& final(self).paths@[old(self).n() + t]@ == joined(
                        old(self).paths@[id as int]@,
                        descended_names(listing@, decisions@)[t],
                    )
                },
            descended_names(listing@, decisions@).len() > 0 ==> final(self).acc@ == old(self).acc@
                && final(self).states@[id as int] == NodeState::Listed && final(self).pendings@[id as int] == descended_names(listing@, decisions@).len() && final(self).unfinished == old(self).unfinished + descended_names(listing@, decisions@).len() && (
            forall|q: int|
                0 <= q < old(self).n() && q != id ==> final(self).states@[q] == old(self).states@[q]),
            descended_names(listing@, decisions@).len() == 0 ==> final(self).states@[id as int]
                == NodeState::Done && final(self).acc@.len() > old(self).acc@.len() && final(self).acc@.subrange(0, old(self).acc@.len() as int) == old(self).acc@ && final(self).acc@[old(self).acc@.len() as int] == (PathedModel {
                path: old(self).paths@[id as int]@,
                entries: listing@,
            }) && final(self).unfinished as int == old(self).unfinished - (final(self).acc@.len()
                - old(self).acc@.len()) && (forall|q: int|
                0 <= q < old(self).n() && q != id && final(self).states@[q] != old(self).states@[q] ==> old(self).states@[q] == NodeState::Listed && final(self).states@[q] == NodeState::Done),
            descended_names(listing@, decisions@).len() == 0 && id == 0 ==> final(self).acc@
                == old(self).acc@.push(
                PathedModel { path: old(self).paths@[0]@, entries: listing@ },
            ) && final(self).unfinished as int == old(self).unfinished - 1,
            descended_names(listing@, decisions@).len() == 0 ==> (match old(self).parents@[id as int] {
                Some(p) => {
                    &&& (old(self).pendings@[p as int] > 1 ==> final(self).acc@ == old(self).acc@.push(
                        PathedModel { path: old(self).paths@[id as int]@, entries: listing@ },
                    ))
                    &&& (old(self).pendings@[p as int] == 1 ==> final(self).states@[p as int]
                        == NodeState::Done && final(self).acc@.len() > old(self).acc@.len() + 1
                        && final(self).acc@[old(self).acc@.len() as int + 1] == completed_item(
                        *old(self),
                        p as int,
                    ))
                },
                None => true,
            }),
    {
        let ghost pre = *self;
        let ghost i = id as int;
        let ghost n0 = pre.n();
        let ghost names = descended_names(listing@, decisions@);
        proof {
            assert(pre.node_wf(i));
        }
        let n = self.paths.len();
        let child_paths = build_child_paths(&self.paths[id], &listing, decisions);
        let k = child_paths.len();
        let mut c: usize = 0;
        while c < k
            invariant
                c <= k,
                k == names.len(),
                k == child_paths@.len(),
                names == descended_names(listing@, decisions@),
                n == n0,
                id < n0,
                self.paths@.len() == n0 + c,
                self.listings@.len() == n0 + c,
                self.parents@.len() == n0 + c,
                self.child_starts@.len() == n0 + c,
                self.child_counts@.len() == n0 + c,
                self.pendings@.len() == n0 + c,
                self.states@.len() == n0 + c,
                self.acc_indices@.len() == n0 + c,
                self.paths@.subrange(0, n0) == pre.paths@,
                self.listings@.subrange(0, n0) == pre.listings@,
                self.parents@.subrange(0, n0) == pre.parents@,
                self.child_starts@.subrange(0, n0) == pre.child_starts@,
                self.child_counts@.subrange(0, n0) == pre.child_counts@,
                self.pendings@.subrange(0, n0) == pre.pendings@,
                self.states@.subrange(0, n0) == pre.states@,
                self.acc_indices@.subrange(0, n0) == pre.acc_indices@,
                self.acc == pre.acc,
                self.unfinished == pre.unfinished,
                self.root_error == pre.root_error,
                forall|t: int|
                    n0 <= t < n0 + c ==> self.states@[t] == NodeState::Waiting
                        && self.parents@[t] == Some(id) && self.listings@[t] is None
                        && self.child_starts@[t] == 0 && self.child_counts@[t] == 0
                        && self.pendings@[t] == 0,
                forall|t: int|
                    0 <= t < c ==> self.paths@[n0 + t]@ == joined(pre.paths@[i]@, names[t]),
                forall|t: int|
                    0 <= t < k ==> child_paths@[t]@ == joined(pre.paths@[i]@, names[t]),
            decreases k - c,
        {
            let cp = child_paths[c].clone();
            self.paths.push(cp);
            self.listings.push(None);
            self.parents.push(Some(id));
            self.child_starts.push(0);
            self.child_counts.push(0);
            self.pendings.push(0);
            self.states.push(NodeState::Waiting);
            self.acc_indices.push(0);
            c = c + 1;
            proof {
                assert(self.paths@.subrange(0, n0) =~= pre.paths@);
                assert(self.listings@.subrange(0, n0) =~= pre.listings@);
                assert(self.parents@.subrange(0, n0) =~= pre.parents@);
                assert(self.child_starts@.subrange(0, n0) =~= pre.child_starts@);
                assert(self.child_counts@.subrange(0, n0) =~= pre.child_counts@);
                assert(self.pendings@.subrange(0, n0) =~= pre.pendings@);
                assert(self.states@.subrange(0, n0) =~= pre.states@);
                assert(self.acc_indices@.subrange(0, n0) =~= pre.acc_indices@);
            }
        }
        self.listings.set(id, Some(listing));
        self.child_starts.set(id, n);
        self.child_counts.set(id, k);
        self.pendings.set(id, k);
        self.states.set(id, NodeState::Listed);
        proof {
            assert forall|t: int| 0 <= t < n0 && t != i implies self.states@[t]
                == pre.states@[t] by {
                assert(self.states@.subrange(0, n0)[t] == pre.states@[t]);
            }
            assert forall|t: int| 0 <= t < n0 implies is_unfinished(self.states@[t])
                == is_unfinished(pre.states@[t]) by {
                if t != i {
                    assert(self.states@.subrange(0, n0)[t] == pre.states@[t]);
                }
            }
            lemma_count_frame(pre.states@, self.states@, 0, n0);
            assert forall|t: int| 0 <= t < n0 implies (self.states@[t] == NodeState::Done) == (
            pre.states@[t] == NodeState::Done) by {
                if t != i {
                    assert(self.states@.subrange(0, n0)[t] == pre.states@[t]);
                }
            }
            lemma_count_done_frame(pre.states@, self.states@, 0, n0);
            assert forall|t: int| n0 <= t < n0 + k as int implies is_unfinished(
                self.states@[t],
            ) by {
                assert(self.states@[t] == NodeState::Waiting);
            }
            lemma_count_all_unfinished(self.states@, n0, n0 + k as int);
            lemma_count_done_none(self.states@, n0, n0 + k as int);
            lemma_count_split(self.states@, 0, n0, n0 + k as int);
            lemma_count_done_split(self.states@, 0, n0, n0 + k as int);
            lemma_count_bounds(pre.states@, 0, n0);
            assert(count_unfinished(self.states@, 0, n0 + k as int) == pre.unfinished
                + k as int);
        }
        let total_nodes = self.paths.len();
        proof {
            assert(total_nodes == n0 + k as int);
            assert(self.unfinished + k <= total_nodes);
        }
        self.unfinished = self.unfinished + k;
        proof {
            assert forall|q: int| 0 <= q < self.n() implies self.node_wf(q) by {
                if q == i {
                    assert(count_unfinished(self.states@, n0, n0 + k as int) == k as int);
                } else if q < n0 {
                    assert(pre.node_wf(q));
                    let qs = pre.child_starts@[q] as int;
                    let qc = pre.child_counts@[q] as int;
                    assert(self.child_starts@[q] == pre.child_starts@[q]);
                    assert(self.child_counts@[q] == pre.child_counts@[q]);
                    assert(self.pendings@[q] == pre.pendings@[q]);
                    assert(self.listings@[q] == pre.listings@[q]);
                    assert(self.parents@[q] == pre.parents@[q]);
                    assert(self.paths@[q] == pre.paths@[q]);
                    assert(self.acc_indices@[q] == pre.acc_indices@[q]);
                    if pre.states@[q] == NodeState::Done {
                        assert(completed_item(*self, q) == completed_item(pre, q));
                    }
                    if pre.states@[q] == NodeState::Listed || pre.states@[q]
                        == NodeState::Done {
                        lemma_count_frame(pre.states@, self.states@, qs, qs + qc);
                    }
                    (match pre.parents@[q] {
                        Some(qp) => {
                            assert(pre.in_children(qp as int, q));
                            assert(self.in_children(qp as int, q));
                        },
                        None => {},
                    })
                } else {
                    assert(self.states@[q] == NodeState::Waiting);
                    assert(self.in_children(i, q));
                }
            }
            assert forall|p: int, cn: int|
                0 <= p < self.n() && #[trigger] self.in_children(p, cn) implies 0 <= cn
                < self.n() && self.parents@[cn] == Some(p as usize) by {
                if p == i {
                    assert(n0 <= cn < n0 + k as int);
                } else if p < n0 {
                    assert(pre.node_wf(p));
                    assert(pre.in_children(p, cn));
                } else {
                    assert(self.child_counts@[p] == 0);
                }
            }
            assert forall|a: int, b: int|
                0 <= a < self.n() && 0 <= b < self.n() && a != b && self.states@[a]
                    == NodeState::Done && self.states@[b]
                    == NodeState::Done implies #[trigger] self.acc_indices@[a]
                != #[trigger] self.acc_indices@[b] by {
                assert(a < n0 && a != i && b < n0 && b != i);
                assert(self.acc_indices@.subrange(0, n0)[a] == pre.acc_indices@[a]);
                assert(self.acc_indices@.subrange(0, n0)[b] == pre.acc_indices@[b]);
                assert(pre.acc_indices@[a] != pre.acc_indices@[b]);
            }
            assert(self.wf_core());
            if k == 0 {
                assert forall|q: int|
                    0 <= q < self.n() && q != i && self.states@[q]
                        == NodeState::Listed implies self.pendings@[q] > 0 by {
                    assert(q < n0);
                    assert(pre.states@[q] == NodeState::Listed);
                }
                assert(self.no_idle_listed_except(i));
            } else {
                assert forall|q: int|
                    0 <= q < self.n() && q != -1 && self.states@[q]
                        == NodeState::Listed implies self.pendings@[q] > 0 by {
                    if q != i {
                        assert(q < n0);
                        assert(pre.states@[q] == NodeState::Listed);
                    }
                }
                assert(self.no_idle_listed_except(-1));
            }
        }
        if k == 0 {
            let ghost mid = *self;
            self.complete(id);
            proof {
                assert(completed_item(mid, i) == (PathedModel {
                    path: pre.paths@[i]@,
                    entries: listing@,
                }));
                assert(final(self).paths@.subrange(0, n0) =~= pre.paths@);
                assert(final(self).parents@.subrange(0, n0) =~= pre.parents@);
                if id == 0 {
                    assert(mid.parents@[0] is None);
                }
                (match pre.parents@[i] {
                    Some(p) => {
                        assert(mid.parents@[i] == pre.parents@[i]);
                        assert(mid.pendings@[p as int] == pre.pendings@[p as int]);
                        assert(completed_item(mid, p as int) == completed_item(pre, p as int));
                        assert(mid.acc@ == pre.acc@);
                    },
                    None => {},
                })
            }
        } else {
            proof {
                assert(final(self).paths@.subrange(0, n0) == pre.paths@);
            }
        }
    }
}



/// Full-descent count, as far as it concerns the core: every directory
/// contributes exactly one path-tagged listing once it is resolved, so a
/// finished traversal in which no directory failed — in particular one with
/// an always-true filter over a tree whose every listing succeeded — leaves
/// the accumulator with exactly one listing per discovered directory.
pub proof fn lemma_one_listing_per_directory(w: TreeWalk)
    requires
        w.wf(),
        w.spec_done(),
        forall|i: int| 0 <= i < w.n() ==> w.states@[i] != NodeState::Failed,
    ensures
        w.acc@.len() == w.n(),
{
    assert forall|i: int| 0 <= i < w.n() implies w.states@[i] == NodeState::Done by {
        lemma_count_none_unfinished(w.states@, 0, w.n(), i);
    }
    lemma_count_done_all(w.states@, 0, w.n());
}


/// Node `a` is a proper ancestor of node `d`: following parent links from
/// `d` reaches `a`.
pub open spec fn is_ancestor(w: TreeWalk, a: int, d: int) -> bool
    decreases d,
{
    if 0 <= d < w.n() {
        match w.parents@[d] {
            Some(p) => if 0 <= p < d {
                p == a || is_ancestor(w, a, p as int)
            } else {
                false
            },
            None => false,
        }
    } else {
        false
    }
}

proof fn lemma_ancestor_resolved(w: TreeWalk, a: int, d: int)
    requires
        w.wf(),
        0 <= a < w.n(),
        0 <= d < w.n(),
        w.states@[a] == NodeState::Done,
        is_ancestor(w, a, d),
    ensures
        w.states@[d] == NodeState::Done || w.states@[d] == NodeState::Failed,
        (match w.parents@[d] {
            Some(p) => w.states@[p as int] == NodeState::Done,
            None => false,
        }),
    decreases d,
{
    assert(w.node_wf(d));
    let p = w.parents@[d].unwrap() as int;
    assert(w.in_children(p, d));
    assert(w.node_wf(p));
    if p != a {
        lemma_ancestor_resolved(w, a, p);
        // p has a child, so it cannot be a failed leaf: it is resolved
        assert(w.child_counts@[p] > 0);
        assert(w.states@[p] == NodeState::Done);
    }
    let ps = w.child_starts@[p] as int;
    let pc = w.child_counts@[p] as int;
    assert(count_unfinished(w.states@, ps, ps + pc) == 0);
    lemma_count_none_unfinished(w.states@, ps, ps + pc, d);
}

/// Post-order: in a well-formed walk an ancestor's own listing always
/// stands in the accumulator strictly after each of its resolved
/// descendants' listings, however the concurrent subtree traversals were
/// interleaved.
pub proof fn lemma_post_order(w: TreeWalk, a: int, d: int)
    requires
        w.wf(),
        0 <= a < w.n(),
        0 <= d < w.n(),
        is_ancestor(w, a, d),
        w.states@[a] == NodeState::Done,
        w.states@[d] == NodeState::Done,
    ensures
        w.acc_indices@[d] < w.acc_indices@[a],
        w.acc_indices@[a] < w.acc@.len(),
    decreases d,
{
    assert(w.node_wf(d));
    assert(w.node_wf(a));
    lemma_ancestor_resolved(w, a, d);
    let p = w.parents@[d].unwrap() as int;
    if p != a {
        lemma_post_order(w, a, p);
    }
}


proof fn lemma_resolved_from(w: TreeWalk, k: int)
    requires
        w.wf(),
        forall|i: int| 0 <= i < w.n() ==> w.states@[i] != NodeState::Waiting,
        0 <= k <= w.n(),
    ensures
        forall|i: int| k <= i < w.n() ==> !is_unfinished(w.states@[i]),
    decreases w.n() - k,
{
    if k < w.n() {
        lemma_resolved_from(w, k + 1);
        assert(w.node_wf(k));
        if w.states@[k] == NodeState::Listed {
            let cs = w.child_starts@[k] as int;
            let cc = w.child_counts@[k] as int;
            // every child of a listed node lies above it and is resolved,
            // so its pending count is zero — which the walk never leaves
            assert forall|t: int| cs <= t < cs + cc implies !is_unfinished(w.states@[t]) by {
                assert(w.in_children(k, t));
            }
            lemma_count_no_unfinished(w.states@, cs, cs + cc);
            assert(w.pendings@[k] == 0);
            assert(false);
        }
    }
}

/// Progress: once no directory is waiting for its listing any more, the
/// whole traversal is done — a listed directory always has an unfinished,
/// ultimately waiting, descendant, so the last delivery resolves everything
/// up to the root.
pub proof fn lemma_no_waiting_means_done(w: TreeWalk)
    requires
        w.wf(),
        forall|i: int| 0 <= i < w.n() ==> w.states@[i] != NodeState::Waiting,
    ensures
        w.spec_done(),
{
    lemma_resolved_from(w, 0);
    lemma_count_no_unfinished(w.states@, 0, w.n());
}

/// A finished traversal whose root listing did not fail holds the root's
/// own path-tagged listing in the accumulator.
pub proof fn lemma_completed_walk_root(w: TreeWalk)
    requires
        w.wf(),
        w.spec_done(),
        w.root_error is None,
    ensures
        w.states@[0] == NodeState::Done,
        w.acc@.len() > 0,
        w.acc_indices@[0] < w.acc@.len(),
        w.acc@[w.acc_indices@[0] as int] == completed_item(w, 0),
{
    assert(w.node_wf(0));
    lemma_count_none_unfinished(w.states@, 0, w.n(), 0);
}


/// The outcome a lawful traversal can hand back for `root`: some finished,
/// well-formed walk rooted there.  Every law proved of walks — post-order,
/// one listing per resolved directory, the exact filter-false and error
/// cases of the transitions — applies to that walk, and so to the result.
pub open spec fn completed_walk(w: TreeWalk, root: Seq<char>) -> bool {
    &&& w.wf()
    &&& w.spec_done()
    &&& w.paths@[0]@ == root
}

/// The public traversal capability: enumerate the whole directory tree under
/// `path`, fanning out one concurrently scheduled listing per qualifying
/// subdirectory, and hand back the accumulator of per-directory listings —
/// or, under the best-effort policy, the root's own listing error.
/// Implementers drive a [`TreeWalk`] around their listing collaborator.
pub trait ListParallel {
    fn list_parallel(&self, path: &str) -> (r: Result<SvnListParallel, TraversalError>)
        ensures
            (match r {
                Ok(acc) => exists|w: TreeWalk|
                    #[trigger] completed_walk(w, path@) && w.root_error is None && w.acc@
                        == acc@,
                Err(e) => e@ is Listing && exists|w: TreeWalk|
                    #[trigger] completed_walk(w, path@) && w.root_error is Some && e@
                        == TraversalErrorModel::Listing(w.root_error.unwrap()@),
            }),
    ;
}

} // verus!
