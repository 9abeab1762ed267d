use svn_list_parallel::{
    decide_descents, join_path, AlwaysDescend, DescendFilter, EntryCommit, EntryModel,
    FilterError, ListEntry, ListingError, NodeState, PathType, SvnList, TraversalError,
    TreeWalk,
};
use vstd::seq::Seq;

fn dir(name: &str) -> ListEntry {
    ListEntry {
        kind: PathType::Dir,
        name: name.to_owned(),
        size: None,
        commit: EntryCommit {
            revision: 1,
            author: "a".to_owned(),
            date: "d".to_owned(),
        },
    }
}

fn file(name: &str) -> ListEntry {
    ListEntry {
        kind: PathType::File,
        name: name.to_owned(),
        size: Some(42),
        commit: EntryCommit {
            revision: 2,
            author: "a".to_owned(),
            date: "d".to_owned(),
        },
    }
}

fn listing_error(path: &str) -> ListingError {
    ListingError { path: path.to_owned(), cause: "connection dropped".to_owned() }
}

struct DeclineAll;

impl DescendFilter for DeclineAll {
    fn accepts(&self, _path: Seq<char>, _entry: EntryModel) -> bool {
        false
    }

    fn infallible(&self) -> bool {
        true
    }

    fn descend(&self, _path: &String, _entry: &ListEntry) -> Result<bool, FilterError> {
        Ok(false)
    }
}

struct FailOnFirst;

impl DescendFilter for FailOnFirst {
    fn accepts(&self, _path: Seq<char>, _entry: EntryModel) -> bool {
        true
    }

    fn infallible(&self) -> bool {
        false
    }

    fn descend(&self, path: &String, _entry: &ListEntry) -> Result<bool, FilterError> {
        if path.ends_with("/first") {
            Err(FilterError { path: path.clone(), cause: "policy lookup failed".to_owned() })
        } else {
            Ok(true)
        }
    }
}

#[test]
fn join_path_uses_single_separator() {
    let p = join_path(&"/hey/how".to_owned(), &"you".to_owned());
    assert_eq!(p, "/hey/how/you");
}

#[test]
fn filter_false_keeps_only_the_root_listing() {
    let mut walk = TreeWalk::new("/top".to_owned());
    let listing = SvnList { entries: vec![dir("one"), dir("two"), file("plain")] };
    let root_path = walk.path_of(0).clone();
    let decisions = decide_descents(&DeclineAll, &root_path, &listing);
    assert_eq!(decisions, vec![false, false, false]);
    walk.deliver_listing(0, listing, &decisions);
    assert!(walk.is_done());
    // no recursive descent happened at all
    assert_eq!(walk.node_count(), 1);
    let acc = walk.into_result().unwrap();
    assert_eq!(acc.len(), 1);
    let mut iter = acc.iter();
    assert_eq!(iter.next().unwrap().1.name, "one");
    assert_eq!(iter.next().unwrap().1.name, "two");
    assert_eq!(iter.next().unwrap().1.name, "plain");
    assert_eq!(iter.next(), None);
}

#[test]
fn full_descent_counts_every_directory() {
    // Uniform synthetic tree: every directory has exactly b subdirectories
    // down to depth d, and no files.  The accumulator must hold exactly
    // (b^(d+1) - 1) / (b - 1) listings, one per directory.
    let b: usize = 2;
    let d: usize = 2;
    let mut walk = TreeWalk::new("root".to_owned());
    loop {
        let id = match walk.find_waiting() {
            Some(id) => id,
            None => break,
        };
        let path = walk.path_of(id).clone();
        let depth = path.matches('/').count();
        let listing = if depth < d {
            let mut entries = Vec::new();
            for t in 0..b {
                entries.push(dir(&format!("sub{}", t)));
            }
            SvnList { entries }
        } else {
            SvnList { entries: vec![] }
        };
        let decisions = decide_descents(&AlwaysDescend, &path, &listing);
        walk.deliver_listing(id, listing, &decisions);
    }
    assert!(walk.is_done());
    let expected = (b.pow((d + 1) as u32) - 1) / (b - 1);
    assert_eq!(walk.node_count(), expected);
    let acc = walk.into_result().unwrap();
    assert_eq!(acc.len(), expected);
}

fn root_scenario_listing() -> SvnList {
    SvnList { entries: vec![dir("first"), file("second"), dir("third")] }
}

#[test]
fn concrete_scenario_post_order_and_intact_root_segment() {
    let svn_path = "/hey/how/are/you";
    let mut walk = TreeWalk::new(svn_path.to_owned());
    let decisions = decide_descents(&AlwaysDescend, &svn_path.to_owned(), &root_scenario_listing());
    assert_eq!(decisions, vec![true, false, true]);
    walk.deliver_listing(0, root_scenario_listing(), &decisions);
    assert!(!walk.is_done());
    assert_eq!(walk.node_count(), 3);
    assert_eq!(walk.path_of(1).as_str(), "/hey/how/are/you/first");
    assert_eq!(walk.path_of(2).as_str(), "/hey/how/are/you/third");
    // both children are leaves: they list no further directories
    walk.deliver_listing(1, SvnList { entries: vec![file("leaf-a")] }, &vec![false]);
    walk.deliver_listing(2, SvnList { entries: vec![file("leaf-b")] }, &vec![false]);
    assert!(walk.is_done());
    assert_eq!(walk.node_state(0), NodeState::Done);
    let acc = walk.into_result().unwrap();
    assert_eq!(acc.len(), 3);

    let mut seen: Vec<(String, String)> = Vec::new();
    let mut iter = acc.iter();
    while let Some(item) = iter.next() {
        seen.push((item.0 .0.to_owned(), item.1.name.clone()));
    }
    // both child segments come before the root's segment (post-order), and
    // the root's segment reproduces first, second, third in order
    assert_eq!(
        seen,
        vec![
            ("/hey/how/are/you/first".to_owned(), "leaf-a".to_owned()),
            ("/hey/how/are/you/third".to_owned(), "leaf-b".to_owned()),
            ("/hey/how/are/you".to_owned(), "first".to_owned()),
            ("/hey/how/are/you".to_owned(), "second".to_owned()),
            ("/hey/how/are/you".to_owned(), "third".to_owned()),
        ]
    );
}

#[test]
fn completion_order_decides_insertion_order_but_root_stays_last() {
    // same scenario, children resolved in the opposite order
    let svn_path = "/hey/how/are/you";
    let mut walk = TreeWalk::new(svn_path.to_owned());
    let decisions = vec![true, false, true];
    walk.deliver_listing(0, root_scenario_listing(), &decisions);
    walk.deliver_listing(2, SvnList { entries: vec![file("leaf-b")] }, &vec![false]);
    walk.deliver_listing(1, SvnList { entries: vec![file("leaf-a")] }, &vec![false]);
    assert!(walk.is_done());
    let acc = walk.into_result().unwrap();
    let mut seen: Vec<(String, String)> = Vec::new();
    let mut iter = acc.iter();
    while let Some(item) = iter.next() {
        seen.push((item.0 .0.to_owned(), item.1.name.clone()));
    }
    assert_eq!(
        seen,
        vec![
            ("/hey/how/are/you/third".to_owned(), "leaf-b".to_owned()),
            ("/hey/how/are/you/first".to_owned(), "leaf-a".to_owned()),
            ("/hey/how/are/you".to_owned(), "first".to_owned()),
            ("/hey/how/are/you".to_owned(), "second".to_owned()),
            ("/hey/how/are/you".to_owned(), "third".to_owned()),
        ]
    );
}

#[test]
fn child_listing_error_is_absorbed_best_effort() {
    // listing "first" fails: the root call still succeeds, and the
    // accumulator holds the root's own listing and the "third" subtree,
    // but nothing for "first"
    let svn_path = "/hey/how/are/you";
    let mut walk = TreeWalk::new(svn_path.to_owned());
    let decisions = vec![true, false, true];
    walk.deliver_listing(0, root_scenario_listing(), &decisions);
    walk.deliver_error(1, listing_error("/hey/how/are/you/first"));
    walk.deliver_listing(2, SvnList { entries: vec![file("leaf-b")] }, &vec![false]);
    assert!(walk.is_done());
    assert_eq!(walk.node_state(1), NodeState::Failed);
    let acc = walk.into_result().unwrap();
    assert_eq!(acc.len(), 2);
    let mut seen: Vec<(String, String)> = Vec::new();
    let mut iter = acc.iter();
    while let Some(item) = iter.next() {
        seen.push((item.0 .0.to_owned(), item.1.name.clone()));
    }
    assert_eq!(
        seen,
        vec![
            ("/hey/how/are/you/third".to_owned(), "leaf-b".to_owned()),
            ("/hey/how/are/you".to_owned(), "first".to_owned()),
            ("/hey/how/are/you".to_owned(), "second".to_owned()),
            ("/hey/how/are/you".to_owned(), "third".to_owned()),
        ]
    );
}

#[test]
fn root_listing_error_surfaces_as_traversal_error() {
    let mut walk = TreeWalk::new("/gone".to_owned());
    walk.deliver_error(0, listing_error("/gone"));
    assert!(walk.is_done());
    match walk.into_result() {
        Err(TraversalError::Listing(e)) => {
            assert_eq!(e.path, "/gone");
            assert_eq!(e.cause, "connection dropped");
        }
        _ => panic!("a failed root listing must surface as a listing error"),
    }
}

#[test]
fn failing_filter_skips_only_its_own_candidate() {
    // the filter fails for the "first" candidate only: that one child is not
    // descended, while its sibling still is
    let svn_path = "/hey/how/are/you";
    let listing = root_scenario_listing();
    let decisions = decide_descents(&FailOnFirst, &svn_path.to_owned(), &listing);
    assert_eq!(decisions, vec![false, false, true]);
    let mut walk = TreeWalk::new(svn_path.to_owned());
    walk.deliver_listing(0, listing, &decisions);
    assert_eq!(walk.node_count(), 2);
    assert_eq!(walk.path_of(1).as_str(), "/hey/how/are/you/third");
    walk.deliver_listing(1, SvnList { entries: vec![] }, &vec![]);
    assert!(walk.is_done());
    let acc = walk.into_result().unwrap();
    assert_eq!(acc.len(), 2);
}

#[test]
fn deep_chain_cascades_to_the_root() {
    // a single path of directories: root/a/b; resolving the deepest leaf
    // must cascade completion all the way up
    let mut walk = TreeWalk::new("root".to_owned());
    walk.deliver_listing(0, SvnList { entries: vec![dir("a")] }, &vec![true]);
    assert_eq!(walk.path_of(1).as_str(), "root/a");
    walk.deliver_listing(1, SvnList { entries: vec![dir("b")] }, &vec![true]);
    assert_eq!(walk.path_of(2).as_str(), "root/a/b");
    assert!(!walk.is_done());
    walk.deliver_listing(2, SvnList { entries: vec![] }, &vec![]);
    assert!(walk.is_done());
    assert_eq!(walk.node_state(0), NodeState::Done);
    assert_eq!(walk.node_state(1), NodeState::Done);
    assert_eq!(walk.node_state(2), NodeState::Done);
    let acc = walk.into_result().unwrap();
    assert_eq!(acc.len(), 3);
}
