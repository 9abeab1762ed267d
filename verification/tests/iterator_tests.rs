use svn_list_parallel::{
    EntryCommit, ListEntry, PathType, SvnList, SvnListParallel, SvnListWithPath,
};

fn entry(kind: PathType, name: &str, revision: u64) -> ListEntry {
    ListEntry {
        kind,
        name: name.to_owned(),
        size: None,
        commit: EntryCommit {
            revision,
            author: "Lemon".to_owned(),
            date: "20/10/2001".to_owned(),
        },
    }
}

#[test]
fn test_iter() {
    let svn_path = "/hey/how/are/you";
    let e1 = ListEntry {
        kind: PathType::Dir,
        name: "first".to_owned(),
        size: None,
        commit: EntryCommit {
            revision: 100,
            author: "Lemon".to_owned(),
            date: "20/10/2001".to_owned(),
        },
    };
    let e2 = ListEntry {
        kind: PathType::File,
        name: "second".to_owned(),
        size: None,
        commit: EntryCommit {
            revision: 101,
            author: "Lemon".to_owned(),
            date: "20/10/2001".to_owned(),
        },
    };
    let e3 = ListEntry {
        kind: PathType::Dir,
        name: "third".to_owned(),
        size: None,
        commit: EntryCommit {
            revision: 102,
            author: "Lemon".to_owned(),
            date: "20/10/2001".to_owned(),
        },
    };
    let v1 = SvnListWithPath::new(
        svn_path.to_owned(),
        SvnList { entries: vec![e1.clone(), e2.clone()] },
    );
    let v2 = SvnListWithPath::new(svn_path.to_owned(), SvnList { entries: vec![e3.clone()] });
    let mut list = SvnListParallel::new();
    list.push(v1);
    list.push(v2);
    let mut iter = list.iter();
    assert_eq!(iter.next().unwrap().1, &e1);
    assert_eq!(iter.next().unwrap().1, &e2);
    assert_eq!(iter.next().unwrap().1, &e3);
    assert_eq!(iter.next(), None);
}

#[test]
fn entry_order_is_preserved_between_other_listings() {
    // A listing [e1, e2, e3] surrounded by other listings must surface its
    // entries in exactly that order within its own segment.
    let before = SvnListWithPath::new(
        "/zero".to_owned(),
        SvnList { entries: vec![entry(PathType::File, "noise-a", 1)] },
    );
    let middle = SvnListWithPath::new(
        "/mid".to_owned(),
        SvnList {
            entries: vec![
                entry(PathType::File, "one", 10),
                entry(PathType::Dir, "two", 11),
                entry(PathType::File, "three", 12),
            ],
        },
    );
    let after = SvnListWithPath::new(
        "/last".to_owned(),
        SvnList { entries: vec![entry(PathType::File, "noise-b", 2)] },
    );
    let mut list = SvnListParallel::new();
    list.push(before);
    list.push(middle);
    list.push(after);

    let mut names_in_mid_segment: Vec<String> = Vec::new();
    let mut iter = list.iter();
    while let Some(item) = iter.next() {
        if item.0 .0 == "/mid" {
            names_in_mid_segment.push(item.1.name.clone());
        }
    }
    assert_eq!(names_in_mid_segment, vec!["one", "two", "three"]);
}

#[test]
fn iterators_are_restartable_and_do_not_consume() {
    let mut list = SvnListParallel::new();
    list.push(SvnListWithPath::new(
        "/a".to_owned(),
        SvnList { entries: vec![entry(PathType::File, "x", 1), entry(PathType::File, "y", 2)] },
    ));
    list.push(SvnListWithPath::new("/empty".to_owned(), SvnList { entries: vec![] }));
    list.push(SvnListWithPath::new(
        "/b".to_owned(),
        SvnList { entries: vec![entry(PathType::Dir, "z", 3)] },
    ));

    let mut first_pass: Vec<(String, String)> = Vec::new();
    let mut it1 = list.iter();
    while let Some(item) = it1.next() {
        first_pass.push((item.0 .0.to_owned(), item.1.name.clone()));
    }

    let mut second_pass: Vec<(String, String)> = Vec::new();
    let mut it2 = list.iter();
    while let Some(item) = it2.next() {
        second_pass.push((item.0 .0.to_owned(), item.1.name.clone()));
    }

    assert_eq!(first_pass, second_pass);
    assert_eq!(
        first_pass,
        vec![
            ("/a".to_owned(), "x".to_owned()),
            ("/a".to_owned(), "y".to_owned()),
            ("/b".to_owned(), "z".to_owned()),
        ]
    );
    // the accumulator is still intact after two full passes
    assert_eq!(list.len(), 3);
}

#[test]
fn empty_accumulator_is_immediately_exhausted() {
    let list = SvnListParallel::new();
    let mut iter = list.iter();
    assert_eq!(iter.next(), None);
    assert_eq!(iter.next(), None);
}

#[test]
fn empty_listings_are_skipped() {
    let mut list = SvnListParallel::new();
    list.push(SvnListWithPath::new("/e1".to_owned(), SvnList { entries: vec![] }));
    list.push(SvnListWithPath::new(
        "/full".to_owned(),
        SvnList { entries: vec![entry(PathType::File, "only", 7)] },
    ));
    list.push(SvnListWithPath::new("/e2".to_owned(), SvnList { entries: vec![] }));
    let mut iter = list.iter();
    let item = iter.next().unwrap();
    assert_eq!(item.0 .0, "/full");
    assert_eq!(item.1.name, "only");
    assert_eq!(iter.next(), None);
}

#[test]
fn pathed_listing_exposes_its_parts() {
    let l = SvnListWithPath::new(
        "/p".to_owned(),
        SvnList { entries: vec![entry(PathType::File, "n", 3)] },
    );
    assert_eq!(l.path().as_str(), "/p");
    assert_eq!(l.list().entries.len(), 1);
    assert_eq!(l.list().entries[0].name, "n");
}
