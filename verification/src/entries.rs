use vstd::prelude::*;

verus! {

/// Whether one listed child is itself a directory or a plain file.
#[derive(Clone, Copy, Debug, PartialEq, Eq, Structural)]
pub enum PathType {
    Dir,
    File,
}

/// Commit metadata attached to one directory entry.
#[derive(Debug)]
pub struct EntryCommit {
    pub revision: u64,
    pub author: String,
    pub date: String,
}

/// Mathematical value of an [`EntryCommit`].
pub ghost struct EntryCommitModel {
    pub revision: u64,
    pub author: Seq<char>,
    pub date: Seq<char>,
}

impl View for EntryCommit {
    type V = EntryCommitModel;

    open spec fn view(&self) -> EntryCommitModel {
        EntryCommitModel { revision: self.revision, author: self.author@, date: self.date@ }
    }
}

/// One child of a listed directory: its kind, name, optional size and
/// commit metadata.  Immutable once constructed.
#[derive(Debug)]
pub struct ListEntry {
    pub kind: PathType,
    pub name: String,
    pub size: Option<u64>,
    pub commit: EntryCommit,
}

/// Mathematical value of a [`ListEntry`].
pub ghost struct EntryModel {
    pub kind: PathType,
    pub name: Seq<char>,
    pub size: Option<u64>,
    pub commit: EntryCommitModel,
}

impl View for ListEntry {
    type V = EntryModel;

    open spec fn view(&self) -> EntryModel {
        EntryModel { kind: self.kind, name: self.name@, size: self.size, commit: self.commit@ }
    }
}

/// The ordered listing of one directory, in exactly the order the listing
/// collaborator produced the entries; the order is never re-sorted.
#[derive(Debug)]
pub struct SvnList {
    pub entries: Vec<ListEntry>,
}

impl View for SvnList {
    type V = Seq<EntryModel>;

    open spec fn view(&self) -> Seq<EntryModel> {
        self.entries@.map_values(|e: ListEntry| e@)
    }
}

impl Clone for EntryCommit {
    fn clone(&self) -> (res: Self)
        ensures
            res@ == self@,
    {
        EntryCommit {
            revision: self.revision,
            author: self.author.clone(),
            date: self.date.clone(),
        }
    }
}

impl Clone for ListEntry {
    fn clone(&self) -> (res: Self)
        ensures
            res@ == self@,
    {
        ListEntry {
            kind: self.kind,
            name: self.name.clone(),
            size: self.size,
            commit: self.commit.clone(),
        }
    }
}

impl Clone for SvnList {
    fn clone(&self) -> (res: Self)
        ensures
            res@ == self@,
    {
        let mut entries: Vec<ListEntry> = Vec::new();
        let mut i: usize = 0;
        while i < self.entries.len()
            invariant
                i <= self.entries.len(),
                entries@.len() == i as int,
                forall|j: int| 0 <= j < i ==> entries@[j]@ == self.entries@[j]@,
            decreases self.entries.len() - i,
        {
            entries.push(self.entries[i].clone());
            i = i + 1;
        }
        let res = SvnList { entries };
        proof {
            assert(res@ =~= self@);
        }
        res
    }
}

impl PartialEq for EntryCommit {
    fn eq(&self, other: &Self) -> (r: bool) {
        self.revision == other.revision && self.author == other.author
            && self.date == other.date
    }
}

impl vstd::std_specs::cmp::PartialEqSpecImpl for EntryCommit {
    open spec fn obeys_eq_spec() -> bool {
        true
    }

    open spec fn eq_spec(&self, other: &Self) -> bool {
        self@ == other@
    }
}

impl PartialEq for ListEntry {
    fn eq(&self, other: &Self) -> (r: bool) {
        self.kind == other.kind && self.name == other.name && self.size == other.size
            && self.commit == other.commit
    }
}

impl vstd::std_specs::cmp::PartialEqSpecImpl for ListEntry {
    open spec fn obeys_eq_spec() -> bool {
        true
    }

    open spec fn eq_spec(&self, other: &Self) -> bool {
        self@ == other@
    }
}

} // verus!
