use smart_release_history::filter::{ref_segments, select_path_filter, single_component_entries, PathFilter};
use smart_release_history::history::{
    collect_history, resolve_head, HeadKind, History, HistoryError, Item, RawCommit, Reference,
};
use smart_release_history::objects::{find_entry, is_well_formed_tree};
use smart_release_history::segment::{split_history, Segment};
use smart_release_history::tags::{is_tag_name_exec, is_tag_version_exec, strip_tag_path, tags_by_commit};

fn id(n: u8) -> Vec<u8> {
    vec![n; 20]
}

fn tree_entry(mode: &str, name: &str, oid: u8) -> Vec<u8> {
    let mut v = format!("{} {}", mode, name).into_bytes();
    v.push(0);
    v.extend_from_slice(&id(oid));
    v
}

fn tree(entries: &[(&str, &str, u8)]) -> Vec<u8> {
    let mut v = Vec::new();
    for (mode, name, oid) in entries {
        v.extend(tree_entry(mode, name, *oid));
    }
    v
}

fn item(n: u8, tree_data: Vec<u8>) -> Item {
    Item { id: id(n), message: format!("commit {}", n), tree_data }
}

fn head() -> Reference {
    Reference { name: b"refs/heads/main".to_vec(), target: id(1) }
}

fn tag(name: &str, target: u8) -> Reference {
    Reference { name: format!("refs/tags/{}", name).into_bytes(), target: id(target) }
}

fn three_commits() -> History {
    History { head: head(), items: vec![item(1, vec![]), item(2, vec![]), item(3, vec![])] }
}

fn members(s: &Segment) -> Vec<usize> {
    s.history.clone()
}

#[test]
fn no_tags_root_package_one_segment() {
    let h = three_commits();
    let (segs, ignored) = ref_segments(&h, &vec![], None, &PathFilter::Unfiltered, &vec![]);
    assert_eq!(segs.len(), 1);
    assert_eq!(segs[0].head.name, b"refs/heads/main".to_vec());
    assert_eq!(members(&segs[0]), vec![0, 1, 2]);
    assert!(ignored.is_empty());
}

#[test]
fn tag_on_middle_commit_splits_in_two() {
    let h = three_commits();
    let (segs, ignored) = ref_segments(&h, &vec![tag("v1.0.0", 2)], None, &PathFilter::Unfiltered, &vec![]);
    assert_eq!(segs.len(), 2);
    assert_eq!(segs[0].head.name, b"refs/heads/main".to_vec());
    assert_eq!(members(&segs[0]), vec![0]);
    assert_eq!(segs[1].head.name, b"refs/tags/v1.0.0".to_vec());
    assert_eq!(segs[1].head.target, id(2));
    assert_eq!(members(&segs[1]), vec![1, 2]);
    assert!(ignored.is_empty());
}

#[test]
fn nested_package_keeps_only_changing_commits() {
    let h = three_commits();
    let nested = vec![Some(id(10)), Some(id(11)), Some(id(11))];
    let filter = select_path_filter(&vec![b"lib".to_vec(), b"core".to_vec()]);
    let (segs, _) = ref_segments(&h, &vec![], None, &filter, &nested);
    assert_eq!(segs.len(), 1);
    assert_eq!(members(&segs[0]), vec![0, 2]);
}

#[test]
fn unreachable_tag_is_reported_and_in_no_segment() {
    let h = three_commits();
    let tags = vec![tag("v1.0.0", 2), tag("v0.9.0", 9)];
    let (segs, ignored) = ref_segments(&h, &tags, None, &PathFilter::Unfiltered, &vec![]);
    assert_eq!(ignored.len(), 1);
    assert_eq!(ignored[0].name, b"refs/tags/v0.9.0".to_vec());
    assert!(segs.iter().all(|s| s.head.name != b"refs/tags/v0.9.0".to_vec()));
    let kept: usize = segs.iter().map(|s| s.history.len()).sum();
    assert_eq!(kept, 3);
}

#[test]
fn segmenting_twice_gives_the_same_result() {
    let h = three_commits();
    let tags = vec![tag("v1.0.0", 2)];
    let (a, _) = ref_segments(&h, &tags, None, &PathFilter::Unfiltered, &vec![]);
    let (b, _) = ref_segments(&h, &tags, None, &PathFilter::Unfiltered, &vec![]);
    assert_eq!(a.len(), b.len());
    for (x, y) in a.iter().zip(b.iter()) {
        assert_eq!(x.head.name, y.head.name);
        assert_eq!(x.history, y.history);
    }
}

#[test]
fn unfiltered_segments_cover_every_commit_once() {
    let h = History {
        head: head(),
        items: (1..=6).map(|n| item(n, vec![])).collect(),
    };
    let tags = vec![tag("v2.0.0", 2), tag("v1.0.0", 5)];
    let (segs, _) = ref_segments(&h, &tags, None, &PathFilter::Unfiltered, &vec![]);
    let all: Vec<usize> = segs.iter().flat_map(|s| s.history.clone()).collect();
    assert_eq!(all, vec![0, 1, 2, 3, 4, 5]);
    assert_eq!(segs.len(), 3);
    assert_eq!(segs[1].head.name, b"refs/tags/v2.0.0".to_vec());
    assert_eq!(segs[2].head.name, b"refs/tags/v1.0.0".to_vec());
}

#[test]
fn tagged_commit_kept_without_a_change() {
    let same = tree(&[("40000", "pkg", 7)]);
    let h = History {
        head: head(),
        items: vec![item(1, same.clone()), item(2, same.clone()), item(3, same.clone())],
    };
    let filter = PathFilter::SingleComponent(b"pkg".to_vec());
    let (segs, _) = ref_segments(&h, &vec![tag("v1.0.0", 2)], None, &filter, &vec![]);
    assert_eq!(segs.len(), 2);
    assert_eq!(members(&segs[0]), Vec::<usize>::new());
    assert_eq!(members(&segs[1]), vec![1, 2]);
}

#[test]
fn single_and_one_component_nested_filters_agree() {
    let h = History {
        head: head(),
        items: vec![
            item(1, tree(&[("40000", "pkg", 8), ("100644", "README", 3)])),
            item(2, tree(&[("40000", "pkg", 7), ("100644", "README", 3)])),
            item(3, tree(&[("40000", "pkg", 7), ("100644", "README", 4)])),
            item(4, tree(&[("100644", "README", 4)])),
        ],
    };
    let name = b"pkg".to_vec();
    let direct = single_component_entries(&h, &name);
    assert_eq!(direct, vec![Some(id(8)), Some(id(7)), Some(id(7)), None]);
    let (single, _) = ref_segments(&h, &vec![], None, &PathFilter::SingleComponent(name.clone()), &vec![]);
    let (multi, _) = ref_segments(&h, &vec![], None, &PathFilter::MultiComponent(vec![name]), &direct);
    assert_eq!(members(&single[0]), vec![0, 2]);
    assert_eq!(members(&single[0]), members(&multi[0]));
}

#[test]
fn entry_lookup_reads_the_tree() {
    let t = tree(&[("100644", "Cargo.toml", 1), ("40000", "src", 2)]);
    assert_eq!(find_entry(&t, &b"src".to_vec()), Some(id(2)));
    assert_eq!(find_entry(&t, &b"Cargo.toml".to_vec()), Some(id(1)));
    assert_eq!(find_entry(&t, &b"tests".to_vec()), None);
    assert_eq!(find_entry(&vec![], &b"src".to_vec()), None);
}

#[test]
fn last_entry_without_predecessor_is_relevant_when_present() {
    let h = History {
        head: head(),
        items: vec![item(1, tree(&[("40000", "pkg", 5)]))],
    };
    let entries = vec![Some(id(5))];
    let (segs, _) = split_history(&h, &vec![], Some(&entries));
    assert_eq!(members(&segs[0]), vec![0]);
    let absent = vec![None];
    let (segs, _) = split_history(&h, &vec![], Some(&absent));
    assert_eq!(members(&segs[0]), Vec::<usize>::new());
}

#[test]
fn path_filter_selection() {
    assert!(matches!(select_path_filter(&vec![]), PathFilter::Unfiltered));
    match select_path_filter(&vec![b"a".to_vec()]) {
        PathFilter::SingleComponent(n) => assert_eq!(n, b"a".to_vec()),
        _ => panic!("expected a single component"),
    }
    match select_path_filter(&vec![b"a".to_vec(), b"b".to_vec()]) {
        PathFilter::MultiComponent(c) => assert_eq!(c, vec![b"a".to_vec(), b"b".to_vec()]),
        _ => panic!("expected several components"),
    }
}

#[test]
fn tag_name_conventions() {
    assert_eq!(strip_tag_path(&b"refs/tags/v1.0.0".to_vec()), b"v1.0.0".to_vec());
    assert_eq!(strip_tag_path(&b"refs/tags/".to_vec()), Vec::<u8>::new());
    assert!(is_tag_version_exec(&b"v1.2.3".to_vec()));
    assert!(is_tag_version_exec(&b"v10".to_vec()));
    assert!(!is_tag_version_exec(&b"v1..2".to_vec()));
    assert!(!is_tag_version_exec(&b"v1.".to_vec()));
    assert!(!is_tag_version_exec(&b"1.2.3".to_vec()));
    assert!(!is_tag_version_exec(&b"v".to_vec()));
    assert!(is_tag_name_exec(&b"git-ref".to_vec(), &b"git-ref-v0.8.0".to_vec()));
    assert!(!is_tag_name_exec(&b"git-ref".to_vec(), &b"git-refs-v0.8.0".to_vec()));
    assert!(!is_tag_name_exec(&b"git-ref".to_vec(), &b"git-ref-0.8.0".to_vec()));
}

#[test]
fn tag_index_filters_and_last_one_wins() {
    let refs = vec![
        tag("v1.0.0", 1),
        tag("release-candidate", 2),
        tag("v1.0.1", 1),
        tag("pkg-v0.1.0", 3),
        tag("2.0.0", 4),
    ];
    let global = tags_by_commit(&refs, None);
    assert_eq!(global.len(), 1);
    assert_eq!(global[0].name, b"refs/tags/v1.0.1".to_vec());
    let prefixed = tags_by_commit(&refs, Some(&b"pkg".to_vec()));
    assert_eq!(prefixed.len(), 1);
    assert_eq!(prefixed[0].target, id(3));
}

#[test]
fn undecodable_messages_are_dropped() {
    let raw = vec![
        RawCommit { id: id(1), message: b"fix: a".to_vec(), tree_data: vec![1] },
        RawCommit { id: id(2), message: vec![0xff, 0xfe], tree_data: vec![2] },
        RawCommit { id: id(3), message: "feat: \u{e9}".as_bytes().to_vec(), tree_data: vec![3] },
    ];
    let (h, dropped) = collect_history(head(), &raw);
    assert_eq!(dropped, 1);
    assert_eq!(h.items.len(), 2);
    assert_eq!(h.items[0].id, id(1));
    assert_eq!(h.items[0].message, "fix: a");
    assert_eq!(h.items[1].id, id(3));
    assert_eq!(h.items[1].message, "feat: \u{e9}");
    assert_eq!(h.items[1].tree_data, vec![3]);
}

#[test]
fn head_kinds_decide_where_history_starts() {
    match resolve_head(HeadKind::Symbolic(head())) {
        Ok(Some(r)) => assert_eq!(r.name, b"refs/heads/main".to_vec()),
        _ => panic!("expected the branch"),
    }
    assert!(matches!(resolve_head(HeadKind::Unborn), Ok(None)));
    assert!(matches!(resolve_head(HeadKind::Detached), Err(HistoryError::DetachedHead)));
}

#[test]
fn tree_well_formedness() {
    assert!(is_well_formed_tree(&vec![]));
    assert!(is_well_formed_tree(&tree(&[("100644", "a", 1), ("40000", "b c", 2)])));
    assert!(!is_well_formed_tree(&vec![b'1']));
    let mut trailing = tree(&[("100644", "a", 1)]);
    trailing.push(b'4');
    assert!(!is_well_formed_tree(&trailing));
    assert!(!is_well_formed_tree(&tree(&[("100844", "a", 1)])));
    let mut short = tree(&[("100644", "a", 1)]);
    short.pop();
    assert!(!is_well_formed_tree(&short));
    assert!(!is_well_formed_tree(&b" a\0".to_vec()));
}
