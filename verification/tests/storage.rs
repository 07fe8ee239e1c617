use numass_processing::natural::natural_order_of;
use numass_processing::storage::{FSRepr, LoadState};
use numass_processing::types::FrameEvent;
use std::collections::hash_map::DefaultHasher;
use std::hash::{Hash, Hasher};
use std::path::PathBuf;
use std::time::{Duration, SystemTime};

fn names(list: &[&str]) -> Vec<String> {
    list.iter().map(|n| n.to_string()).collect()
}

fn file(path: &str, seconds: u64) -> FSRepr {
    FSRepr::File {
        path: PathBuf::from(path),
        modified: SystemTime::UNIX_EPOCH + Duration::from_secs(seconds),
    }
}

fn dir(path: &str, load_state: LoadState, children: Vec<FSRepr>) -> FSRepr {
    FSRepr::Directory {
        path: PathBuf::from(path),
        children,
        modified: SystemTime::UNIX_EPOCH,
        load_state,
    }
}

fn paths(entries: &[FSRepr]) -> Vec<String> {
    entries.iter().map(|e| e.to_filename().to_str().unwrap().to_string()).collect()
}

fn hash_of(e: &FrameEvent) -> u64 {
    let mut h = DefaultHasher::new();
    e.hash(&mut h);
    h.finish()
}

#[test]
fn numbers_in_names_count_by_their_value() {
    assert_eq!(natural_order_of(&names(&["rfc2086.txt", "rfc822.txt", "rfc1.txt"])), vec![2, 1, 0]);
    assert_eq!(natural_order_of(&names(&["n10", "n2", "n1", "n20"])), vec![2, 1, 0, 3]);
    assert_eq!(natural_order_of(&names(&[])), Vec::<usize>::new());
    assert_eq!(natural_order_of(&names(&["b", "a"])), vec![1, 0]);
    // an order by characters would put "a10" before "a9"
    assert_eq!(natural_order_of(&names(&["a9", "a10"])), vec![0, 1]);
}

#[test]
fn names_of_which_neither_comes_first_keep_their_order() {
    // blanks do not count
    assert_eq!(natural_order_of(&names(&["a 1", "a1", "a  1", "a0"])), vec![3, 0, 1, 2]);
    assert_eq!(natural_order_of(&names(&["a1", "a 1"])), vec![0, 1]);
}

#[test]
fn children_are_sorted_by_their_paths() {
    let sorted = FSRepr::sort_children(vec![
        file("/d/n10.df", 1),
        dir("/d/set_2", LoadState::Loaded, vec![file("/d/set_2/x", 5)]),
        file("/d/n2.df", 2),
        dir("/d/set_1", LoadState::NotLoaded, vec![]),
    ]);
    assert_eq!(paths(&sorted), vec!["/d/n2.df", "/d/n10.df", "/d/set_1", "/d/set_2"]);
    match &sorted[3] {
        FSRepr::Directory { children, load_state, .. } => {
            assert_eq!(children.len(), 1);
            assert_eq!(*load_state, LoadState::Loaded);
        }
        FSRepr::File { .. } => panic!("a directory was expected"),
    }
    assert!(FSRepr::sort_children(vec![]).is_empty());
}

#[test]
fn a_first_listing_keeps_what_is_known() {
    let known = vec![
        dir("/d/set_1", LoadState::Loaded, vec![file("/d/set_1/n1.df", 7)]),
        file("/d/gone.df", 1),
        file("/d/n1.df", 1),
    ];
    let listed = vec![
        file("/d/n2.df", 9),
        dir("/d/set_1", LoadState::NotLoaded, vec![]),
        file("/d/n1.df", 9),
    ];
    let merged = FSRepr::merge_listing(known, listed);
    assert_eq!(paths(&merged), vec!["/d/n1.df", "/d/n2.df", "/d/set_1"]);
    match &merged[0] {
        FSRepr::File { modified, .. } => {
            assert_eq!(*modified, SystemTime::UNIX_EPOCH + Duration::from_secs(1))
        }
        FSRepr::Directory { .. } => panic!("a file was expected"),
    }
    match &merged[1] {
        FSRepr::File { modified, .. } => {
            assert_eq!(*modified, SystemTime::UNIX_EPOCH + Duration::from_secs(9))
        }
        FSRepr::Directory { .. } => panic!("a file was expected"),
    }
    match &merged[2] {
        FSRepr::Directory { children, load_state, .. } => {
            assert_eq!(children.len(), 1);
            assert_eq!(*load_state, LoadState::Loaded);
        }
        FSRepr::File { .. } => panic!("a directory was expected"),
    }
}

#[test]
fn a_later_listing_keeps_which_directories_are_loaded() {
    let known = vec![
        dir("/d/set_1", LoadState::Loaded, vec![file("/d/set_1/n1.df", 7)]),
        dir("/d/set_2", LoadState::NeedLoad, vec![]),
        file("/d/set_3", 1),
        file("/d/n1.df", 1),
    ];
    let listed = vec![
        dir("/d/set_3", LoadState::NotLoaded, vec![]),
        dir("/d/set_2", LoadState::NotLoaded, vec![]),
        file("/d/n1.df", 9),
        dir("/d/set_1", LoadState::NotLoaded, vec![]),
        dir("/d/set_10", LoadState::NotLoaded, vec![]),
    ];
    let fresh = FSRepr::refresh_listing(&known, listed);
    assert_eq!(paths(&fresh), vec!["/d/n1.df", "/d/set_1", "/d/set_2", "/d/set_3", "/d/set_10"]);
    let states: Vec<Option<LoadState>> = fresh
        .iter()
        .map(|e| match e {
            FSRepr::Directory { load_state, .. } => Some(*load_state),
            FSRepr::File { .. } => None,
        })
        .collect();
    assert_eq!(
        states,
        vec![
            None,
            Some(LoadState::Loaded),
            Some(LoadState::NotLoaded),
            Some(LoadState::NotLoaded),
            Some(LoadState::NotLoaded),
        ]
    );
    // the entries are those of the listing: the children known before are gone
    match &fresh[1] {
        FSRepr::Directory { children, .. } => assert!(children.is_empty()),
        FSRepr::File { .. } => panic!("a directory was expected"),
    }
    match &fresh[0] {
        FSRepr::File { modified, .. } => {
            assert_eq!(*modified, SystemTime::UNIX_EPOCH + Duration::from_secs(9))
        }
        FSRepr::Directory { .. } => panic!("a file was expected"),
    }
}

#[test]
fn the_hash_of_a_record_is_that_of_its_kind() {
    let a = FrameEvent::Event { channel: 1, amplitude: 2, size: 3 };
    let b = FrameEvent::Event { channel: 4, amplitude: -5, size: 0 };
    assert_eq!(hash_of(&a), hash_of(&b));
    assert_eq!(hash_of(&FrameEvent::Reset { size: 1 }), hash_of(&FrameEvent::Reset { size: 9 }));
    assert_ne!(hash_of(&a), hash_of(&FrameEvent::Reset { size: 3 }));
    assert_ne!(hash_of(&a), hash_of(&FrameEvent::Overflow { channel: 1, size: 3 }));
    assert_ne!(hash_of(&FrameEvent::Frame { size: 3 }), hash_of(&FrameEvent::Reset { size: 3 }));
}

#[test]
fn entries_follow_the_order_of_their_names() {
    let sorted = FSRepr::order_by_names(
        vec![file("/x/c", 1), file("/x/a", 2), file("/x/b", 3)],
        &names(&["n10", "n9", "n1"]),
    );
    assert_eq!(paths(&sorted), vec!["/x/b", "/x/a", "/x/c"]);
}

#[test]
fn known_entries_take_the_place_of_listed_ones() {
    let known = vec![file("/d/k0", 1), file("/d/k1", 2), file("/d/k2", 3)];
    let listed = vec![file("/d/l0", 4), file("/d/l1", 5), file("/d/l2", 6)];
    let out = FSRepr::keep_known(known, listed, &vec![Some(2), None, Some(0)]);
    assert_eq!(paths(&out), vec!["/d/k2", "/d/l1", "/d/k0"]);
    let out = FSRepr::keep_known(vec![], vec![file("/d/l0", 4)], &vec![None]);
    assert_eq!(paths(&out), vec!["/d/l0"]);
}

#[test]
fn listed_directories_are_marked_as_loaded() {
    let listed = vec![
        dir("/d/a", LoadState::NotLoaded, vec![]),
        dir("/d/b", LoadState::NeedLoad, vec![]),
        file("/d/c", 1),
        file("/d/d", 2),
    ];
    let out = FSRepr::mark_loaded(listed, &vec![true, false, true, false]);
    assert!(out[0].is_loaded());
    assert!(!out[1].is_loaded());
    assert!(!out[2].is_loaded());
    assert!(matches!(out[2], FSRepr::File { .. }));
    assert!(matches!(out[1], FSRepr::Directory { load_state: LoadState::NeedLoad, .. }));
    assert_eq!(paths(&out), vec!["/d/a", "/d/b", "/d/c", "/d/d"]);
}
