use ic_agent::hash_tree as theirs;
use ic_cert_time::label::{Label, Path};
use ic_cert_time::tree::{HashTree, LookupResult};

fn leaf(bytes: &[u8]) -> HashTree {
    HashTree::leaf(bytes.to_vec())
}

fn labeled(label: &str, subtree: HashTree) -> HashTree {
    HashTree::labeled(Label::from_text(label), subtree)
}

fn pruned(fill: u8) -> HashTree {
    HashTree::pruned([fill; 32])
}

fn path(segments: &[&str]) -> Path {
    Path::from_text_segments(segments)
}

/// The tree
///
/// ```text
/// a ─┬─ x: "hello"
///    └─ y: "world"
/// b: "good"
/// c: (empty)
/// d: "morning"
/// ```
fn sample() -> HashTree {
    HashTree::fork(
        HashTree::fork(
            labeled("a", HashTree::fork(labeled("x", leaf(b"hello")), labeled("y", leaf(b"world")))),
            labeled("b", leaf(b"good")),
        ),
        HashTree::fork(labeled("c", HashTree::empty()), labeled("d", leaf(b"morning"))),
    )
}

/// The sample tree with `a/x`, `b` and `c` pruned.
fn sample_pruned() -> HashTree {
    HashTree::fork(
        HashTree::fork(
            labeled("a", HashTree::fork(pruned(1), labeled("y", leaf(b"world")))),
            labeled("b", pruned(2)),
        ),
        HashTree::fork(pruned(3), labeled("d", leaf(b"morning"))),
    )
}

#[test]
fn a_present_value_is_found() {
    let tree = sample();
    assert_eq!(tree.lookup_path(&path(&["a", "x"])), LookupResult::Found(b"hello"));
    assert_eq!(tree.lookup_path(&path(&["a", "y"])), LookupResult::Found(b"world"));
    assert_eq!(tree.lookup_path(&path(&["b"])), LookupResult::Found(b"good"));
    assert_eq!(tree.lookup_path(&path(&["d"])), LookupResult::Found(b"morning"));
}

#[test]
fn looking_up_twice_gives_the_same() {
    let tree = sample_pruned();
    for segments in [&["a", "y"][..], &["a", "x"], &["b"], &["c"], &["e"], &[]] {
        let first = tree.lookup_path(&path(segments));
        let second = tree.lookup_path(&path(segments));
        assert_eq!(first, second);
    }
}

#[test]
fn a_missing_label_is_absent() {
    let tree = sample();
    assert_eq!(tree.lookup_path(&path(&["0"])), LookupResult::Absent);
    assert_eq!(tree.lookup_path(&path(&["aa"])), LookupResult::Absent);
    assert_eq!(tree.lookup_path(&path(&["e"])), LookupResult::Absent);
    assert_eq!(tree.lookup_path(&path(&["a", "z"])), LookupResult::Absent);
    assert_eq!(tree.lookup_path(&path(&["a", "w"])), LookupResult::Absent);
}

#[test]
fn below_a_leaf_and_below_empty_all_is_absent() {
    let tree = sample();
    assert_eq!(tree.lookup_path(&path(&["b", "more"])), LookupResult::Absent);
    assert_eq!(tree.lookup_path(&path(&["c", "more"])), LookupResult::Absent);
    assert_eq!(HashTree::empty().lookup_path(&path(&["a"])), LookupResult::Absent);
    assert_eq!(leaf(b"v").lookup_path(&path(&["a"])), LookupResult::Absent);
}

#[test]
fn the_end_of_a_path_must_be_a_leaf() {
    let tree = sample();
    assert_eq!(tree.lookup_path(&path(&[])), LookupResult::Error);
    assert_eq!(tree.lookup_path(&path(&["a"])), LookupResult::Error);
    assert_eq!(tree.lookup_path(&path(&["c"])), LookupResult::Error);
    assert_eq!(HashTree::empty().lookup_path(&path(&[])), LookupResult::Error);
    assert_eq!(labeled("a", leaf(b"v")).lookup_path(&path(&[])), LookupResult::Error);
    assert_eq!(leaf(b"v").lookup_path(&path(&[])), LookupResult::Found(b"v"));
    assert_eq!(pruned(9).lookup_path(&path(&[])), LookupResult::Unknown);
}

#[test]
fn what_is_pruned_is_unknown() {
    let tree = sample_pruned();
    assert_eq!(tree.lookup_path(&path(&["a", "x"])), LookupResult::Unknown);
    assert_eq!(tree.lookup_path(&path(&["b"])), LookupResult::Unknown);
    assert_eq!(tree.lookup_path(&path(&["b", "deeper"])), LookupResult::Unknown);
    assert_eq!(tree.lookup_path(&path(&["c"])), LookupResult::Unknown);
    assert_eq!(pruned(0).lookup_path(&path(&["a", "b", "c"])), LookupResult::Unknown);
    assert_eq!(
        HashTree::fork(pruned(0), pruned(1)).lookup_path(&path(&["a"])),
        LookupResult::Unknown
    );
}

#[test]
fn a_pruned_node_hides_only_its_own_place() {
    let tree = sample_pruned();
    // Between `b` and `d` stands a pruned digest: `c` and `bb` may hide there.
    assert_eq!(tree.lookup_path(&path(&["bb"])), LookupResult::Unknown);
    assert_eq!(tree.lookup_path(&path(&["c", "x"])), LookupResult::Unknown);
    // Nothing is pruned before `a`, between `a` and `b`, or after `d`.
    assert_eq!(tree.lookup_path(&path(&["0"])), LookupResult::Absent);
    assert_eq!(tree.lookup_path(&path(&["aa"])), LookupResult::Absent);
    assert_eq!(tree.lookup_path(&path(&["e"])), LookupResult::Absent);
    // Under `a` the pruned digest stands before `y` only.
    assert_eq!(tree.lookup_path(&path(&["a", "w"])), LookupResult::Unknown);
    assert_eq!(tree.lookup_path(&path(&["a", "z"])), LookupResult::Absent);
    assert_eq!(tree.lookup_path(&path(&["a", "y"])), LookupResult::Found(b"world"));
}

#[test]
fn pruned_at_either_end_of_a_row() {
    let front = HashTree::fork(pruned(0), labeled("m", leaf(b"v")));
    assert_eq!(front.lookup_path(&path(&["a"])), LookupResult::Unknown);
    assert_eq!(front.lookup_path(&path(&["z"])), LookupResult::Absent);
    let back = HashTree::fork(labeled("m", leaf(b"v")), pruned(0));
    assert_eq!(back.lookup_path(&path(&["a"])), LookupResult::Absent);
    assert_eq!(back.lookup_path(&path(&["z"])), LookupResult::Unknown);
    assert_eq!(back.lookup_path(&path(&["m"])), LookupResult::Found(b"v"));
}

#[test]
fn leaves_and_empty_nodes_in_a_row_do_not_hide_labels() {
    let tree = HashTree::fork(HashTree::empty(), HashTree::fork(leaf(b"stray"), labeled("a", leaf(b"v"))));
    assert_eq!(tree.lookup_path(&path(&["a"])), LookupResult::Found(b"v"));
    assert_eq!(tree.lookup_path(&path(&["b"])), LookupResult::Absent);
}

#[test]
fn labels_out_of_order_are_an_error() {
    let tree = HashTree::fork(labeled("b", leaf(b"1")), labeled("a", leaf(b"2")));
    assert_eq!(tree.lookup_path(&path(&["a"])), LookupResult::Error);
    assert_eq!(tree.lookup_path(&path(&["b"])), LookupResult::Error);
    assert_eq!(tree.lookup_path(&path(&["c"])), LookupResult::Error);
}

#[test]
fn a_label_twice_in_a_row_is_an_error() {
    let tree = HashTree::fork(labeled("a", leaf(b"1")), labeled("a", leaf(b"2")));
    assert_eq!(tree.lookup_path(&path(&["a"])), LookupResult::Error);
    let apart = HashTree::fork(
        labeled("a", leaf(b"1")),
        HashTree::fork(pruned(0), labeled("a", leaf(b"2"))),
    );
    assert_eq!(apart.lookup_path(&path(&["a"])), LookupResult::Error);
}

#[test]
fn disorder_below_is_found_only_when_reached() {
    let tree = HashTree::fork(
        labeled("a", HashTree::fork(labeled("y", leaf(b"1")), labeled("x", leaf(b"2")))),
        labeled("b", leaf(b"3")),
    );
    assert_eq!(tree.lookup_path(&path(&["b"])), LookupResult::Found(b"3"));
    assert_eq!(tree.lookup_path(&path(&["a", "x"])), LookupResult::Error);
}

#[test]
fn labels_are_compared_as_bytes() {
    let tree = HashTree::fork(
        HashTree::labeled(Label::from_bytes(&[0x01]), leaf(b"low")),
        HashTree::fork(
            HashTree::labeled(Label::from_bytes(&[0x01, 0x00]), leaf(b"longer")),
            HashTree::labeled(Label::from_bytes(&[0xff]), leaf(b"high")),
        ),
    );
    let one = Path::from_labels(vec![Label::from_bytes(&[0x01, 0x00])]);
    assert_eq!(tree.lookup_path(&one), LookupResult::Found(b"longer"));
    let none = Path::from_labels(vec![Label::from_bytes(&[0x02])]);
    assert_eq!(tree.lookup_path(&none), LookupResult::Absent);
}

#[test]
fn lookups_agree_with_the_trees_of_ic_agent_on_ordered_trees() {
    let tree = sample_pruned();
    let same = theirs::fork(
        theirs::fork(
            theirs::label("a", theirs::fork(theirs::pruned([1; 32]), theirs::label("y", theirs::leaf(b"world")))),
            theirs::label("b", theirs::pruned([2; 32])),
        ),
        theirs::fork(theirs::pruned([3; 32]), theirs::label("d", theirs::leaf(b"morning"))),
    );
    for segments in [&["a", "y"][..], &["a", "x"], &["a", "z"], &["b"], &["c"], &["d"], &["e"], &["0"]] {
        let expected = match same.lookup_path(&segments.iter().map(theirs::Label::from).collect::<Vec<_>>()) {
            theirs::LookupResult::Found(v) => LookupResult::Found(v),
            theirs::LookupResult::Absent => LookupResult::Absent,
            theirs::LookupResult::Unknown => LookupResult::Unknown,
            theirs::LookupResult::Error => LookupResult::Error,
        };
        assert_eq!(tree.lookup_path(&path(segments)), expected);
    }
}

#[test]
fn a_copy_of_a_tree_is_the_same_tree() {
    let tree = sample_pruned();
    let copy = tree.clone();
    assert_eq!(copy, tree);
    assert_eq!(copy.lookup_path(&path(&["a", "y"])), LookupResult::Found(b"world"));
    assert_eq!(HashTree::empty().clone(), HashTree::empty());
}

#[test]
fn trees_with_rising_labels_are_well_formed() {
    assert!(sample().is_well_formed());
    assert!(sample_pruned().is_well_formed());
    assert!(HashTree::empty().is_well_formed());
    assert!(leaf(b"v").is_well_formed());
    assert!(pruned(0).is_well_formed());
    assert!(HashTree::fork(pruned(0), pruned(1)).is_well_formed());
}

#[test]
fn trees_with_labels_out_of_order_are_not_well_formed() {
    assert!(!HashTree::fork(labeled("b", leaf(b"1")), labeled("a", leaf(b"2"))).is_well_formed());
    assert!(!HashTree::fork(labeled("a", leaf(b"1")), labeled("a", leaf(b"2"))).is_well_formed());
    let below = HashTree::fork(
        labeled("a", HashTree::fork(labeled("y", leaf(b"1")), labeled("x", leaf(b"2")))),
        labeled("b", leaf(b"3")),
    );
    assert!(!below.is_well_formed());
    let deep = labeled("a", labeled("b", HashTree::fork(labeled("d", pruned(0)), labeled("c", pruned(1)))));
    assert!(!deep.is_well_formed());
}
