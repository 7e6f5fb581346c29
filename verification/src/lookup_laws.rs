//! What holds of every lookup: laws over all trees and all paths.
//!
//! The laws speak of the mathematical value of a tree, so they hold of
//! [`HashTree::lookup_path`](crate::tree::HashTree::lookup_path), whose result
//! is `lookup` of the tree's and the path's values. That result depends on the
//! tree and the path alone: looking the same path up again gives the same
//! answer.

use vstd::prelude::*;
use crate::tree::{
    ascending, hidden_at, labeled_at, lemma_label_once, lookup, well_formed, well_formed_under,
    Lookup, Tree,
};

verus! {

/// Following `path` from `t`, label by label, ends at the node `end`: the
/// first label stands in the row of `t`, and the rest of the path leads from
/// the subtree under it to `end`.
pub open spec fn leads_to(t: Tree, path: Seq<Seq<u8>>, end: Tree) -> bool
    decreases path.len(),
{
    if path.len() == 0 {
        t == end
    } else {
        exists|i: int|
            #[trigger] labeled_at(t.level(), path[0], i) && leads_to(
                *t.level()[i]->Labeled_1,
                path.skip(1),
                end,
            )
    }
}

/// The tree is a pruned digest, or a fork of such trees: its row holds pruned
/// digests and nothing else.
pub open spec fn pruned_only(t: Tree) -> bool
    decreases t,
{
    match t {
        Tree::Pruned(_) => true,
        Tree::Fork(l, r) => pruned_only(*l) && pruned_only(*r),
        _ => false,
    }
}

/// In a well-formed tree the subtree under every labeled node of the top row
/// is well formed.
pub proof fn lemma_row_subtrees_well_formed(t: Tree)
    requires
        well_formed_under(t),
    ensures
        forall|i: int|
            0 <= i < t.level().len() && t.level()[i] is Labeled ==> well_formed(
                *(#[trigger] t.level()[i])->Labeled_1,
            ),
    decreases t,
{
    match t {
        Tree::Fork(l, r) => {
            lemma_row_subtrees_well_formed(*l);
            lemma_row_subtrees_well_formed(*r);
            let row = t.level();
            assert forall|i: int| 0 <= i < row.len() && row[i] is Labeled implies well_formed(
                *(#[trigger] row[i])->Labeled_1,
            ) by {
                if i < l.level().len() {
                    assert(row[i] == l.level()[i]);
                } else {
                    assert(row[i] == r.level()[i - l.level().len()]);
                }
            }
        },
        _ => {},
    }
}

/// A lookup that follows a path to a node goes on from that node: in a
/// well-formed tree, where `prefix` leads from `t` to `end`, the lookup of
/// `prefix` followed by `rest` in `t` is the lookup of `rest` in `end`.
pub proof fn lemma_lookup_follows(t: Tree, prefix: Seq<Seq<u8>>, rest: Seq<Seq<u8>>, end: Tree)
    requires
        well_formed(t),
        leads_to(t, prefix, end),
    ensures
        lookup(t, prefix + rest) == lookup(end, rest),
        well_formed(end),
    decreases prefix.len(),
{
    let path = prefix + rest;
    if prefix.len() == 0 {
        assert(path =~= rest);
    } else {
        let row = t.level();
        let i = choose|i: int|
            #[trigger] labeled_at(row, prefix[0], i) && leads_to(
                *row[i]->Labeled_1,
                prefix.skip(1),
                end,
            );
        let sub = *row[i]->Labeled_1;
        assert(path[0] == prefix[0]);
        assert(path.skip(1) =~= prefix.skip(1) + rest);
        let c = choose|c: int| labeled_at(row, path[0], c);
        lemma_label_once(row, path[0], i, c);
        lemma_row_subtrees_well_formed(t);
        lemma_lookup_follows(sub, prefix.skip(1), rest, end);
    }
}

/// A value that is present is found: in a well-formed tree, where `path` leads
/// to a leaf with the bytes `value`, the lookup of `path` gives `value`.
pub proof fn lemma_present_is_found(t: Tree, path: Seq<Seq<u8>>, value: Seq<u8>)
    requires
        well_formed(t),
        leads_to(t, path, Tree::Leaf(value)),
    ensures
        lookup(t, path) == Lookup::Found(value),
{
    lemma_lookup_follows(t, path, Seq::empty(), Tree::Leaf(value));
    assert(path + Seq::<Seq<u8>>::empty() =~= path);
}

/// A value that is found is present: where the lookup of `path` gives
/// `value`, `path` leads to a leaf with these bytes.
pub proof fn lemma_found_is_present(t: Tree, path: Seq<Seq<u8>>, value: Seq<u8>)
    requires
        lookup(t, path) == Lookup::Found(value),
    ensures
        leads_to(t, path, Tree::Leaf(value)),
    decreases path.len(),
{
    if path.len() > 0 {
        let row = t.level();
        let c = choose|c: int| labeled_at(row, path[0], c);
        lemma_found_is_present(*row[c]->Labeled_1, path.skip(1), value);
    }
}

/// What is absent is not present: where the lookup of `path` gives `Absent`,
/// `path` leads to no leaf.
pub proof fn lemma_absent_is_not_present(t: Tree, path: Seq<Seq<u8>>, value: Seq<u8>)
    requires
        lookup(t, path) == Lookup::Absent,
    ensures
        !leads_to(t, path, Tree::Leaf(value)),
    decreases path.len(),
{
    if path.len() > 0 && leads_to(t, path, Tree::Leaf(value)) {
        let row = t.level();
        let i = choose|i: int|
            #[trigger] labeled_at(row, path[0], i) && leads_to(
                *row[i]->Labeled_1,
                path.skip(1),
                Tree::Leaf(value),
            );
        let c = choose|c: int| labeled_at(row, path[0], c);
        lemma_label_once(row, path[0], i, c);
        lemma_absent_is_not_present(*row[i]->Labeled_1, path.skip(1), value);
    }
}

/// The row of a tree that holds pruned digests only is not empty, and all its
/// nodes are pruned.
pub proof fn lemma_pruned_row(t: Tree)
    requires
        pruned_only(t),
    ensures
        t.level().len() > 0,
        forall|i: int| 0 <= i < t.level().len() ==> (#[trigger] t.level()[i]) is Pruned,
    decreases t,
{
    match t {
        Tree::Fork(l, r) => {
            lemma_pruned_row(*l);
            lemma_pruned_row(*r);
            let row = t.level();
            assert forall|i: int| 0 <= i < row.len() implies (#[trigger] row[i]) is Pruned by {
                if i < l.level().len() {
                    assert(row[i] == l.level()[i]);
                } else {
                    assert(row[i] == r.level()[i - l.level().len()]);
                }
            }
        },
        _ => {},
    }
}

/// What is pruned is unknown: the lookup of any path in a pruned digest, and of
/// any path that is not empty in a fork of pruned digests, gives `Unknown`,
/// never `Absent` and never `Found`.
pub proof fn lemma_pruned_is_unknown(t: Tree, path: Seq<Seq<u8>>)
    requires
        pruned_only(t),
        path.len() > 0 || t is Pruned,
    ensures
        lookup(t, path) == Lookup::Unknown,
{
    if path.len() > 0 {
        lemma_pruned_row(t);
        let row = t.level();
        assert(row[0] is Pruned);
        assert(hidden_at(row, path[0], 0));
    }
}

/// What is pruned below a path is unknown: in a well-formed tree, where
/// `prefix` leads to a tree of pruned digests, the lookup of `prefix` followed
/// by a `rest` that is not empty gives `Unknown`; so does the lookup of
/// `prefix` alone where it leads to a pruned digest.
pub proof fn lemma_pruned_below_is_unknown(
    t: Tree,
    prefix: Seq<Seq<u8>>,
    rest: Seq<Seq<u8>>,
    end: Tree,
)
    requires
        well_formed(t),
        leads_to(t, prefix, end),
        pruned_only(end),
        rest.len() > 0 || end is Pruned,
    ensures
        lookup(t, prefix + rest) == Lookup::Unknown,
{
    lemma_lookup_follows(t, prefix, rest, end);
    lemma_pruned_is_unknown(end, rest);
}

/// A label that is missing from a row is absent: where the labels of the row
/// under `t` rise, none of them is the first label of `path`, and no pruned
/// digest stands where that label would, the lookup of `path` gives `Absent`.
pub proof fn lemma_missing_label_is_absent(t: Tree, path: Seq<Seq<u8>>)
    requires
        path.len() > 0,
        ascending(t.level()),
        forall|i: int| !labeled_at(t.level(), path[0], i),
        forall|i: int| !hidden_at(t.level(), path[0], i),
    ensures
        lookup(t, path) == Lookup::Absent,
{
}

/// A label that is missing at some depth is absent: in a well-formed tree,
/// where `prefix` leads to the node `end`, the row under `end` holds no pruned
/// digest and no node with the first label of `rest`, the lookup of `prefix`
/// followed by `rest` gives `Absent`.
pub proof fn lemma_missing_below_is_absent(
    t: Tree,
    prefix: Seq<Seq<u8>>,
    rest: Seq<Seq<u8>>,
    end: Tree,
)
    requires
        well_formed(t),
        leads_to(t, prefix, end),
        rest.len() > 0,
        forall|i: int| !labeled_at(end.level(), rest[0], i),
        forall|i: int| 0 <= i < end.level().len() ==> !(end.level()[i] is Pruned),
    ensures
        lookup(t, prefix + rest) == Lookup::Absent,
{
    lemma_lookup_follows(t, prefix, rest, end);
    lemma_missing_label_is_absent(end, rest);
}

/// With no label left to follow, only a leaf is found, and it gives its own
/// bytes.
pub proof fn lemma_found_only_at_leaf(t: Tree, value: Seq<u8>)
    ensures
        lookup(t, Seq::empty()) == Lookup::Found(value) <==> t == Tree::Leaf(value),
{
}

} // verus!
