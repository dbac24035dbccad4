use minexp::entry::{Entry, EntryType};
use minexp::sort::{sort_entries, sort_entry_tree, sort_name, sort_type, SortBy};
use minexp::walk::{walk, walk_children};

fn leaf(name: &str, ty: EntryType) -> Entry {
    Entry {
        name: name.to_string(),
        path: format!("/t/{}", name),
        ty,
        size: 0,
        date: 0,
        childs: Vec::new(),
    }
}

fn dir(name: &str, childs: Vec<Entry>) -> Entry {
    Entry {
        name: name.to_string(),
        path: format!("/t/{}", name),
        ty: EntryType::Dir,
        size: 0,
        date: 0,
        childs,
    }
}

fn names(v: &[Entry]) -> Vec<String> {
    v.iter().map(|e| e.name.clone()).collect()
}

#[test]
fn depth_zero_lists_children_without_contents() {
    let scan = vec![
        leaf("a.txt", EntryType::File),
        dir("sub", vec![leaf("inner.txt", EntryType::File)]),
        leaf(".hidden", EntryType::File),
    ];
    let out = walk_children(scan, false, 0);
    assert_eq!(names(&out), vec!["a.txt".to_string(), "sub".to_string()]);
    for e in &out {
        assert_eq!(e.childs.len(), 0);
    }
}

#[test]
fn hidden_entries_present_iff_included() {
    let scan = || {
        vec![
            leaf(".config", EntryType::File),
            dir("d", vec![leaf(".inner", EntryType::File), leaf("seen", EntryType::File)]),
        ]
    };
    let without = walk_children(scan(), false, 1);
    assert_eq!(names(&without), vec!["d".to_string()]);
    assert_eq!(names(&without[0].childs), vec!["seen".to_string()]);

    let with = walk_children(scan(), true, 1);
    assert_eq!(names(&with), vec![".config".to_string(), "d".to_string()]);
    assert_eq!(
        names(&with[1].childs),
        vec![".inner".to_string(), "seen".to_string()]
    );
}

#[test]
fn walk_root_hidden() {
    let root = leaf(".secret", EntryType::File);
    assert!(walk(root, false, 0).is_none());
    let root = leaf(".secret", EntryType::File);
    assert!(walk(root, true, 0).is_some());
}

#[test]
fn walk_nameless_entry_dropped() {
    let scan = vec![leaf("", EntryType::File), leaf("kept", EntryType::File)];
    let out = walk_children(scan, true, 0);
    assert_eq!(names(&out), vec!["kept".to_string()]);
}

#[test]
fn sort_by_name_is_case_insensitive_with_kind_tiebreak() {
    let v = vec![
        leaf("b.txt", EntryType::File),
        leaf("A.txt", EntryType::File),
        dir("same", Vec::new()),
        leaf("same", EntryType::File),
        leaf("C.txt", EntryType::File),
    ];
    let out = sort_entries(v, &SortBy::Name);
    assert_eq!(
        names(&out),
        vec![
            "A.txt".to_string(),
            "b.txt".to_string(),
            "C.txt".to_string(),
            "same".to_string(),
            "same".to_string(),
        ]
    );
    // the kind tie-break puts the file before the directory
    assert_eq!(out[3].ty, EntryType::File);
    assert_eq!(out[4].ty, EntryType::Dir);
}

#[test]
fn sort_by_type_groups_kinds_then_names() {
    let v = vec![
        dir("beta", Vec::new()),
        leaf("zeta", EntryType::File),
        leaf("link", EntryType::SymLink),
        leaf("Alpha", EntryType::File),
    ];
    let out = sort_entries(v, &SortBy::Type);
    assert_eq!(
        names(&out),
        vec![
            "Alpha".to_string(),
            "zeta".to_string(),
            "beta".to_string(),
            "link".to_string(),
        ]
    );
}

#[test]
fn sorting_twice_changes_nothing() {
    let v = vec![
        leaf("b", EntryType::File),
        leaf("a", EntryType::File),
        dir("c", Vec::new()),
    ];
    let once = sort_entries(v, &SortBy::Name);
    let expected = names(&once);
    let twice = sort_entries(once, &SortBy::Name);
    assert_eq!(names(&twice), expected);
}

#[test]
fn sort_is_stable_on_equal_keys() {
    let mut first = leaf("same", EntryType::File);
    first.size = 1;
    let mut second = leaf("same", EntryType::File);
    second.size = 2;
    let out = sort_entries(vec![first, second], &SortBy::Name);
    assert_eq!(out[0].size, 1);
    assert_eq!(out[1].size, 2);
}

#[test]
fn comparators_fold_case() {
    // raw byte order would put "B.txt" first; case-folded order does not
    let a = leaf("B.txt", EntryType::File);
    let b = leaf("a.txt", EntryType::File);
    assert!(!sort_name(&a, &b));
    assert!(sort_name(&b, &a));
    assert!(!sort_type(&a, &b));
    assert!(sort_type(&b, &a));
}

#[test]
fn tree_sort_orders_every_level() {
    let tree = dir(
        "root",
        vec![
            dir("z", vec![leaf("b", EntryType::File), leaf("a", EntryType::File)]),
            leaf("m", EntryType::File),
        ],
    );
    let sorted = sort_entry_tree(tree, &SortBy::Name);
    assert_eq!(names(&sorted.childs), vec!["m".to_string(), "z".to_string()]);
    assert_eq!(
        names(&sorted.childs[1].childs),
        vec!["a".to_string(), "b".to_string()]
    );
}

#[test]
fn scenario_walk_then_sort() {
    // a.txt, B.txt and an empty sub/, listed without hidden entries,
    // sorted by name, one level of recursion
    let scan = vec![
        leaf("B.txt", EntryType::File),
        dir("sub", Vec::new()),
        leaf("a.txt", EntryType::File),
    ];
    let walked = walk_children(scan, false, 1);
    let sorted = sort_entries(walked, &SortBy::Name);
    assert_eq!(
        names(&sorted),
        vec!["a.txt".to_string(), "B.txt".to_string(), "sub".to_string()]
    );
    assert_eq!(sorted[2].childs.len(), 0);
}
