use vstd::prelude::*;
use vstd::string::StringExecFns;

use crate::entries::{EntryModel, ListEntry, SvnList};

verus! {

/// A borrowed path string, as handed out by the flattening iterator.
#[derive(Debug)]
pub struct SvnPath<'a>(pub &'a str);

impl<'a> View for SvnPath<'a> {
    type V = Seq<char>;

    open spec fn view(&self) -> Seq<char> {
        self.0@
    }
}

impl<'a> PartialEq for SvnPath<'a> {
    fn eq(&self, other: &Self) -> (r: bool) {
        String::from_str(self.0) == String::from_str(other.0)
    }
}

impl<'a> vstd::std_specs::cmp::PartialEqSpecImpl for SvnPath<'a> {
    open spec fn obeys_eq_spec() -> bool {
        true
    }

    open spec fn eq_spec(&self, other: &Self) -> bool {
        self@ == other@
    }
}

/// Mathematical value of one accumulated listing: the path it was fetched
/// for, paired with its entries in their original order.
pub ghost struct PathedModel {
    pub path: Seq<char>,
    pub entries: Seq<EntryModel>,
}

/// A directory listing paired with the path it was fetched for, so that a
/// flattened view can recover which path an entry belongs to.
#[derive(Debug)]
pub struct SvnListWithPath {
    path: String,
    list: SvnList,
}

impl View for SvnListWithPath {
    type V = PathedModel;

    closed spec fn view(&self) -> PathedModel {
        PathedModel { path: self.path@, entries: self.list@ }
    }
}

impl SvnListWithPath {
    pub fn new(path: String, list: SvnList) -> (r: Self)
        ensures
            r@ == (PathedModel { path: path@, entries: list@ }),
    {
        SvnListWithPath { path, list }
    }

    pub fn path(&self) -> (r: &String)
        ensures
            r@ == self@.path,
    {
        &self.path
    }

    pub fn list(&self) -> (r: &SvnList)
        ensures
            r@ == self@.entries,
    {
        &self.list
    }
}

/// The unordered, append-only accumulator of per-directory listings built up
/// during one traversal.  Items are kept in insertion order, which reflects
/// the completion order of concurrent subtree traversals; once appended an
/// item is never removed or mutated.
#[derive(Debug)]
pub struct SvnListParallel(Vec<SvnListWithPath>);

impl View for SvnListParallel {
    type V = Seq<PathedModel>;

    closed spec fn view(&self) -> Seq<PathedModel> {
        self.0@.map_values(|x: SvnListWithPath| x@)
    }
}

/// The entries of one accumulated listing, each tagged with that listing's
/// origin path, in the listing's original order.
pub open spec fn tagged(p: PathedModel) -> Seq<(Seq<char>, EntryModel)> {
    p.entries.map_values(|e: EntryModel| (p.path, e))
}

/// The flattening of a whole accumulator: the tagged entries of every
/// listing, listing after listing, in accumulator insertion order.
pub open spec fn flat(d: Seq<PathedModel>) -> Seq<(Seq<char>, EntryModel)>
    decreases d.len(),
{
    if d.len() == 0 {
        Seq::empty()
    } else {
        tagged(d[0]) + flat(d.drop_first())
    }
}

proof fn lemma_flat_skip(d: Seq<PathedModel>, k: int)
    requires
        0 <= k < d.len(),
    ensures
        flat(d.skip(k)) == tagged(d[k]) + flat(d.skip(k + 1)),
{
    assert(d.skip(k).len() > 0);
    assert(d.skip(k)[0] == d[k]);
    assert(d.skip(k).drop_first() =~= d.skip(k + 1));
}

proof fn lemma_flat_concat(a: Seq<PathedModel>, b: Seq<PathedModel>)
    ensures
        flat(a + b) == flat(a) + flat(b),
    decreases a.len(),
{
    if a.len() == 0 {
        assert(a + b =~= b);
        assert(flat(a) + flat(b) =~= flat(b));
    } else {
        assert((a + b)[0] == a[0]);
        assert((a + b).drop_first() =~= a.drop_first() + b);
        lemma_flat_concat(a.drop_first(), b);
        assert(flat(a + b) =~= flat(a) + flat(b));
    }
}

/// Entry-order preservation: inside the flattened sequence, the segment
/// contributed by the listing at position `k` is exactly that listing's
/// entries, tagged with its path, in their original order — however many
/// other listings surround it.
pub proof fn lemma_entry_order_preserved(d: Seq<PathedModel>, k: int)
    requires
        0 <= k < d.len(),
    ensures
        flat(d).subrange(
            flat(d.take(k)).len() as int,
            flat(d.take(k)).len() + tagged(d[k]).len() as int,
        ) == tagged(d[k]),
{
    let single = seq![d[k]];
    assert(d =~= d.take(k) + (single + d.skip(k + 1)));
    lemma_flat_concat(d.take(k), single + d.skip(k + 1));
    lemma_flat_concat(single, d.skip(k + 1));
    assert(single.drop_first() =~= Seq::<PathedModel>::empty());
    assert(flat(single.drop_first()) == Seq::<(Seq<char>, EntryModel)>::empty());
    assert(flat(single) == tagged(single[0]) + flat(single.drop_first()));
    assert(flat(single) =~= tagged(d[k]));
    assert(flat(d).subrange(
        flat(d.take(k)).len() as int,
        flat(d.take(k)).len() + tagged(d[k]).len() as int,
    ) =~= tagged(d[k]));
}

/// One (origin path, entry) pair produced by the flattening iterator.
#[derive(Debug)]
pub struct ListEntryIteratorItem<'a>(pub SvnPath<'a>, pub &'a ListEntry);

impl<'a> View for ListEntryIteratorItem<'a> {
    type V = (Seq<char>, EntryModel);

    open spec fn view(&self) -> (Seq<char>, EntryModel) {
        (self.0@, self.1@)
    }
}

impl<'a> PartialEq for ListEntryIteratorItem<'a> {
    fn eq(&self, other: &Self) -> (r: bool) {
        self.0 == other.0 && *self.1 == *other.1
    }
}

impl<'a> vstd::std_specs::cmp::PartialEqSpecImpl for ListEntryIteratorItem<'a> {
    open spec fn obeys_eq_spec() -> bool {
        true
    }

    open spec fn eq_spec(&self, other: &Self) -> bool {
        self@ == other@
    }
}

/// A lazy, restartable cursor over a frozen accumulator: an outer cursor
/// over the accumulated listings in insertion order, an inner cursor over
/// the entries of the current listing in their original order.
pub struct ListEntryIterator<'a> {
    data: &'a SvnListParallel,
    outer_index: usize,
    inner_index: usize,
}

impl<'a> ListEntryIterator<'a> {
    /// The underlying accumulator, unchanged by iteration.
    pub closed spec fn spec_data(self) -> Seq<PathedModel> {
        self.data@
    }

    /// The cursor pair sits at the very start.
    pub closed spec fn is_fresh(self) -> bool {
        self.outer_index == 0 && self.inner_index == 0
    }

    /// The cursor pair addresses a valid position.
    pub closed spec fn wf(self) -> bool {
        let d = self.data@;
        &&& self.outer_index <= d.len()
        &&& (self.outer_index < d.len() ==> self.inner_index
            <= d[self.outer_index as int].entries.len())
        &&& (self.outer_index == d.len() ==> self.inner_index == 0)
    }

    /// The tagged entries the iterator has yet to produce, in order.
    pub closed spec fn remaining(self) -> Seq<(Seq<char>, EntryModel)> {
        let d = self.data@;
        if self.outer_index < d.len() {
            tagged(d[self.outer_index as int]).skip(self.inner_index as int) + flat(
                d.skip(self.outer_index + 1),
            )
        } else {
            Seq::empty()
        }
    }

    /// Produce the next (origin path, entry) pair, skipping over exhausted
    /// and empty listings; `None` exactly when every listing is exhausted.
    pub fn next(&mut self) -> (r: Option<ListEntryIteratorItem<'a>>)
        requires
            old(self).wf(),
        ensures
            final(self).wf(),
            final(self).spec_data() == old(self).spec_data(),
            old(self).remaining().len() > 0 ==> {
                &&& r is Some
                &&& r.unwrap()@ == old(self).remaining()[0]
                &&& final(self).remaining() == old(self).remaining().drop_first()
            },
            old(self).remaining().len() == 0 ==> r is None && final(self).remaining().len() == 0,
    {
        loop
            invariant
                self.wf(),
                self.data == old(self).data,
                self.remaining() == old(self).remaining(),
            decreases self.data@.len() - self.outer_index,
        {
            let d = self.data;
            if self.outer_index < d.0.len() {
                let outer_item = &d.0[self.outer_index];
                proof {
                    assert(d@[self.outer_index as int] == outer_item@);
                }
                if self.inner_index < outer_item.list.entries.len() {
                    let entry = &outer_item.list.entries[self.inner_index];
                    let ghost o = self.outer_index as int;
                    let ghost i = self.inner_index as int;
                    self.inner_index = self.inner_index + 1;
                    let item = ListEntryIteratorItem(SvnPath(outer_item.path.as_str()), entry);
                    proof {
                        let dd = d@;
                        assert(tagged(dd[o])[i] == (dd[o].path, dd[o].entries[i]));
                        assert(item@ == old(self).remaining()[0]);
                        assert(self.remaining() =~= old(self).remaining().drop_first());
                    }
                    return Some(item);
                } else {
                    let ghost o = self.outer_index as int;
                    self.outer_index = self.outer_index + 1;
                    self.inner_index = 0;
                    proof {
                        let dd = d@;
                        assert(tagged(dd[o]).skip(dd[o].entries.len() as int)
                            =~= Seq::<(Seq<char>, EntryModel)>::empty());
                        if o + 1 < dd.len() {
                            lemma_flat_skip(dd, o + 1);
                            assert(self.remaining() =~= old(self).remaining());
                        } else {
                            assert(dd.skip(o + 1).len() == 0);
                            assert(self.remaining() =~= old(self).remaining());
                        }
                    }
                }
            } else {
                return None;
            }
        }
    }
}

impl SvnListParallel {
    /// An empty accumulator, ready to collect one traversal's listings.
    pub fn new() -> (r: Self)
        ensures
            r@ == Seq::<PathedModel>::empty(),
    {
        let r = SvnListParallel(Vec::new());
        proof {
            assert(r@ =~= Seq::<PathedModel>::empty());
        }
        r
    }

    /// Append one path-tagged listing.  The accumulator only ever grows, and
    /// earlier items are left exactly as they were.
    pub fn push(&mut self, item: SvnListWithPath)
        ensures
            final(self)@ == old(self)@.push(item@),
    {
        let ghost before = self@;
        self.0.push(item);
        proof {
            assert(self@ =~= before.push(item@));
        }
    }

    /// How many path-tagged listings have been accumulated.
    pub fn len(&self) -> (r: usize)
        ensures
            r == self@.len(),
    {
        self.0.len()
    }

    /// Start a fresh iterator over the accumulated listings.  Building the
    /// iterator borrows the accumulator immutably: it never consumes or
    /// changes it, and arbitrarily many iterators may coexist.
    pub fn iter(&self) -> (r: ListEntryIterator<'_>)
        ensures
            r.wf(),
            r.is_fresh(),
            r.spec_data() == self@,
            r.remaining() == flat(self@),
    {
        let r = ListEntryIterator { data: self, outer_index: 0, inner_index: 0 };
        proof {
            let d = self@;
            if d.len() > 0 {
                lemma_flat_skip(d, 0);
                assert(d.skip(0) =~= d);
                assert(tagged(d[0]).skip(0) =~= tagged(d[0]));
                assert(r.remaining() =~= flat(d));
            } else {
                assert(r.remaining() =~= flat(d));
            }
        }
        r
    }
}

/// Iterator restartability: two independently constructed, still-fresh
/// iterators over accumulators holding the same listings are bound to
/// observe exactly the same sequence of (origin path, entry) pairs.
pub proof fn lemma_iterator_restartable(i1: ListEntryIterator, i2: ListEntryIterator)
    requires
        i1.spec_data() == i2.spec_data(),
        i1.is_fresh(),
        i2.is_fresh(),
        i1.wf(),
        i2.wf(),
    ensures
        i1.remaining() == i2.remaining(),
        i1.remaining() == flat(i1.spec_data()),
{
    let d = i1.spec_data();
    if d.len() > 0 {
        lemma_flat_skip(d, 0);
        assert(d.skip(0) =~= d);
        assert(tagged(d[0]).skip(0) =~= tagged(d[0]));
        assert(i1.remaining() =~= flat(d));
        assert(i2.remaining() =~= flat(d));
    } else {
        assert(i1.remaining() =~= flat(d));
        assert(i2.remaining() =~= flat(d));
    }
}

} // verus!
