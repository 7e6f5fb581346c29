//! The hash tree of a certificate and the lookup of a path in it.
//!
//! A tree is read level by level. The level under a node is what remains when
//! its forks are laid flat, left before right: a row of labeled subtrees, pruned
//! digests, leaves and empty nodes. A lookup finds the first label of the path
//! in the row under the root, goes down into the subtree that carries it, and
//! goes on from there with the rest of the path.
//!
//! The labels of a row must rise strictly from left to right. In such a row a
//! label that is not there is known to be absent, unless a pruned digest
//! stands at the place where the label would have stood.

use vstd::prelude::*;
use vstd::slice::slice_to_vec;
use crate::bytes::{lex_lt, lemma_lex_lt_asymmetric, lemma_lex_lt_transitive, order_bytes, Order};
use crate::label::{Label, Path};

verus! {

/// A node of a hash tree. A fork and a labeled node own their children.
#[derive(Debug, PartialEq, Eq)]
pub enum HashTree {
    /// No data.
    Empty,
    /// Two subtrees side by side.
    Fork(Box<HashTree>, Box<HashTree>),
    /// A subtree under a label.
    Labeled(Label, Box<HashTree>),
    /// The bytes of a value.
    Leaf(Vec<u8>),
    /// The digest of a subtree that was left out.
    Pruned([u8; 32]),
}

/// The mathematical value of a [`HashTree`].
pub enum Tree {
    Empty,
    Fork(Box<Tree>, Box<Tree>),
    Labeled(Seq<u8>, Box<Tree>),
    Leaf(Seq<u8>),
    Pruned(Seq<u8>),
}

/// What a lookup yields, over mathematical values.
pub enum Lookup {
    /// The path ends in a leaf with these bytes.
    Found(Seq<u8>),
    /// The path is not in the tree.
    Absent,
    /// A pruned digest hides whether the path is in the tree.
    Unknown,
    /// The tree or the path makes no sense.
    Error,
}

/// What the search for one label in a row yields.
pub enum Search {
    /// The labels of the row do not rise strictly.
    Disordered,
    /// The label is there, over this subtree.
    Here(Tree),
    /// A pruned digest stands where the label would.
    Hidden,
    /// The label is known not to be there.
    Missing,
}

/// The value of a tree node, children first.
pub open spec fn tree_view(t: HashTree) -> Tree
    decreases t,
{
    match t {
        HashTree::Empty => Tree::Empty,
        HashTree::Fork(l, r) => Tree::Fork(Box::new(tree_view(*l)), Box::new(tree_view(*r))),
        HashTree::Labeled(label, sub) => Tree::Labeled(label@, Box::new(tree_view(*sub))),
        HashTree::Leaf(bytes) => Tree::Leaf(bytes@),
        HashTree::Pruned(digest) => Tree::Pruned(digest@),
    }
}

impl View for HashTree {
    type V = Tree;

    open spec fn view(&self) -> Tree {
        tree_view(*self)
    }
}

impl Tree {
    /// The row under this node: its forks laid flat, left before right.
    pub open spec fn level(self) -> Seq<Tree>
        decreases self,
    {
        match self {
            Tree::Fork(l, r) => l.level() + r.level(),
            _ => seq![self],
        }
    }
}

/// The label of a labeled node.
pub open spec fn label_of(t: Tree) -> Seq<u8> {
    t->Labeled_0
}

/// The labels of the row rise strictly from left to right.
pub open spec fn ascending(row: Seq<Tree>) -> bool {
    forall|i: int, j: int|
        0 <= i < j < row.len() && row[i] is Labeled && row[j] is Labeled ==> lex_lt(
            label_of(row[i]),
            label_of(row[j]),
        )
}

/// The node at `i` carries `label`.
pub open spec fn labeled_at(row: Seq<Tree>, label: Seq<u8>, i: int) -> bool {
    0 <= i < row.len() && row[i] is Labeled && label_of(row[i]) == label
}

/// Every label of the row stands before `label`.
pub open spec fn all_before(row: Seq<Tree>, label: Seq<u8>) -> bool {
    forall|j: int| 0 <= j < row.len() && row[j] is Labeled ==> lex_lt(label_of(row[j]), label)
}

/// A pruned digest stands at `i`, and `label` fits there: the labels to its
/// left stand before `label`, those to its right after it.
pub open spec fn hidden_at(row: Seq<Tree>, label: Seq<u8>, i: int) -> bool {
    &&& 0 <= i < row.len()
    &&& row[i] is Pruned
    &&& forall|j: int| 0 <= j < i && row[j] is Labeled ==> lex_lt(label_of(row[j]), label)
    &&& forall|j: int| i < j < row.len() && row[j] is Labeled ==> lex_lt(label, label_of(row[j]))
}

/// The search for `label` in a row.
pub open spec fn search(row: Seq<Tree>, label: Seq<u8>) -> Search {
    if !ascending(row) {
        Search::Disordered
    } else if exists|i: int| labeled_at(row, label, i) {
        let i = choose|i: int| labeled_at(row, label, i);
        Search::Here(*row[i]->Labeled_1)
    } else if exists|i: int| hidden_at(row, label, i) {
        Search::Hidden
    } else {
        Search::Missing
    }
}

/// The lookup of `path` in `t`.
///
/// At the end of the path a leaf gives its bytes and a pruned digest hides
/// them; any other node there is an error. Before the end, the next label is
/// searched in the row under the node.
pub open spec fn lookup(t: Tree, path: Seq<Seq<u8>>) -> Lookup
    decreases path.len(),
{
    if path.len() == 0 {
        match t {
            Tree::Leaf(bytes) => Lookup::Found(bytes),
            Tree::Pruned(_) => Lookup::Unknown,
            _ => Lookup::Error,
        }
    } else {
        match search(t.level(), path[0]) {
            Search::Disordered => Lookup::Error,
            Search::Here(sub) => lookup(sub, path.skip(1)),
            Search::Hidden => Lookup::Unknown,
            Search::Missing => Lookup::Absent,
        }
    }
}

/// Every row of the tree has strictly rising labels: the row under `t` and the
/// rows under all labeled nodes below it. In particular no two labeled nodes of
/// one row share a label.
pub open spec fn well_formed(t: Tree) -> bool
    decreases t, 1int,
{
    ascending(t.level()) && well_formed_under(t)
}

/// The rows under the labeled nodes of the row of `t` are well formed.
pub open spec fn well_formed_under(t: Tree) -> bool
    decreases t, 0int,
{
    match t {
        Tree::Fork(l, r) => well_formed_under(*l) && well_formed_under(*r),
        Tree::Labeled(_, sub) => well_formed(*sub),
        _ => true,
    }
}

/// The result of looking a path up in a tree.
#[derive(Debug, Clone, Copy, PartialEq, Eq)]
pub enum LookupResult<'a> {
    /// The value at the path.
    Found(&'a [u8]),
    /// The path is known not to be in the tree.
    Absent,
    /// A pruned digest hides whether the path is in the tree.
    Unknown,
    /// The tree or the path makes no sense.
    Error,
}

impl<'a> View for LookupResult<'a> {
    type V = Lookup;

    open spec fn view(&self) -> Lookup {
        match self {
            LookupResult::Found(bytes) => Lookup::Found(bytes@),
            LookupResult::Absent => Lookup::Absent,
            LookupResult::Unknown => Lookup::Unknown,
            LookupResult::Error => Lookup::Error,
        }
    }
}

/// A row holds at most one node with a given label when its labels rise.
pub proof fn lemma_label_once(row: Seq<Tree>, label: Seq<u8>, i: int, j: int)
    requires
        ascending(row),
        labeled_at(row, label, i),
        labeled_at(row, label, j),
    ensures
        i == j,
{
    if i < j {
        lemma_lex_lt_asymmetric(label_of(row[i]), label_of(row[j]));
    } else if j < i {
        lemma_lex_lt_asymmetric(label_of(row[j]), label_of(row[i]));
    }
}

/// What is known of a row after its first nodes, `seen`, have been read.
struct Scan<'a> {
    /// The labels read so far rise strictly.
    ordered: bool,
    /// The label read last.
    last: Option<&'a Label>,
    /// The subtree under the label that is searched.
    found: Option<&'a HashTree>,
    /// Every label read so far stands before the label that is searched.
    before: bool,
    /// A pruned digest read so far stands where the label would.
    hidden: bool,
}

impl<'a> Scan<'a> {
    /// The label read last is that of the last labeled node of `seen`.
    spec fn last_tracks(self, seen: Seq<Tree>) -> bool {
        match self.last {
            None => last_labeled(seen) < 0,
            Some(prev) => last_labeled(seen) >= 0 && label_of(seen[last_labeled(seen)]) == prev@,
        }
    }

    /// The subtree found is the one under the searched label in `seen`.
    spec fn found_tracks(self, seen: Seq<Tree>, label: Seq<u8>) -> bool {
        match self.found {
            None => forall|i: int| !labeled_at(seen, label, i),
            Some(sub) => exists|i: int| found_at(seen, label, i, sub@),
        }
    }

    /// The record says of `seen` what its fields stand for.
    spec fn tracks(self, seen: Seq<Tree>, label: Seq<u8>) -> bool {
        &&& self.ordered == ascending(seen)
        &&& self.ordered ==> self.last_tracks(seen)
        &&& self.found_tracks(seen, label)
        &&& self.before == all_before(seen, label)
        &&& self.hidden == exists|i: int| hidden_at(seen, label, i)
    }
}

/// The node at `i` carries `label` over the subtree `sub`.
spec fn found_at(row: Seq<Tree>, label: Seq<u8>, i: int, sub: Tree) -> bool {
    labeled_at(row, label, i) && *row[i]->Labeled_1 == sub
}

/// The index of the last labeled node of the row, or -1 where it has none.
spec fn last_labeled(row: Seq<Tree>) -> int
    decreases row.len(),
{
    if row.len() == 0 {
        -1
    } else if row.last() is Labeled {
        row.len() - 1
    } else {
        last_labeled(row.drop_last())
    }
}

/// The last labeled node is labeled, and no node after it is.
proof fn lemma_last_labeled(row: Seq<Tree>)
    ensures
        -1 <= last_labeled(row) < row.len(),
        last_labeled(row) >= 0 ==> row[last_labeled(row)] is Labeled,
        forall|j: int| last_labeled(row) < j < row.len() ==> !(row[j] is Labeled),
    decreases row.len(),
{
    if row.len() > 0 && !(row.last() is Labeled) {
        let front = row.drop_last();
        lemma_last_labeled(front);
        assert forall|j: int| last_labeled(row) < j < row.len() implies !(row[j] is Labeled) by {
            if j < row.len() - 1 {
                assert(front[j] == row[j]);
            }
        }
        if last_labeled(row) >= 0 {
            assert(front[last_labeled(row)] == row[last_labeled(row)]);
        }
    }
}

/// Reading one more node moves the last labeled node to it when it is labeled.
proof fn lemma_last_labeled_push(seen: Seq<Tree>, node: Tree)
    ensures
        last_labeled(seen.push(node)) == if node is Labeled {
            seen.len() as int
        } else {
            last_labeled(seen)
        },
{
    assert(seen.push(node).drop_last() =~= seen);
}

/// Reading one more node that carries no label keeps the order of the row.
proof fn lemma_ascending_push_plain(seen: Seq<Tree>, node: Tree)
    requires
        !(node is Labeled),
    ensures
        ascending(seen.push(node)) == ascending(seen),
{
    let next = seen.push(node);
    if ascending(seen) {
        assert forall|i: int, j: int|
            0 <= i < j < next.len() && next[i] is Labeled && next[j] is Labeled implies lex_lt(
            label_of(next[i]),
            label_of(next[j]),
        ) by {
            assert(next[i] == seen[i]);
            assert(next[j] == seen[j]);
        }
    }
    if ascending(next) {
        assert forall|i: int, j: int|
            0 <= i < j < seen.len() && seen[i] is Labeled && seen[j] is Labeled implies lex_lt(
            label_of(seen[i]),
            label_of(seen[j]),
        ) by {
            assert(next[i] == seen[i]);
            assert(next[j] == seen[j]);
        }
    }
}

/// Reading one more labeled node keeps the order of the row exactly when its
/// label stands after the last one read.
proof fn lemma_ascending_push_labeled(seen: Seq<Tree>, node: Tree)
    requires
        node is Labeled,
        ascending(seen),
    ensures
        ascending(seen.push(node)) == (last_labeled(seen) < 0 || lex_lt(
            label_of(seen[last_labeled(seen)]),
            label_of(node),
        )),
{
    let next = seen.push(node);
    let n = seen.len() as int;
    let k = last_labeled(seen);
    lemma_last_labeled(seen);
    assert(next[n] == node);
    if k < 0 {
        assert forall|i: int, j: int|
            0 <= i < j < next.len() && next[i] is Labeled && next[j] is Labeled implies lex_lt(
            label_of(next[i]),
            label_of(next[j]),
        ) by {
            assert(next[i] == seen[i]);
        }
    } else {
        assert(next[k] == seen[k]);
        if lex_lt(label_of(seen[k]), label_of(node)) {
            assert forall|i: int, j: int|
                0 <= i < j < next.len() && next[i] is Labeled && next[j] is Labeled implies lex_lt(
                label_of(next[i]),
                label_of(next[j]),
            ) by {
                assert(next[i] == seen[i]);
                if j < n {
                    assert(next[j] == seen[j]);
                } else if i < k {
                    lemma_lex_lt_transitive(label_of(seen[i]), label_of(seen[k]), label_of(node));
                }
            }
        } else if ascending(next) {
            assert(lex_lt(label_of(next[k]), label_of(next[n])));
        }
    }
}

/// What reading one more node does to the places where `label` may hide.
proof fn lemma_hidden_push(seen: Seq<Tree>, node: Tree, label: Seq<u8>)
    ensures
        (exists|i: int| hidden_at(seen.push(node), label, i)) == match node {
            Tree::Labeled(l, _) => lex_lt(label, l) && exists|i: int| hidden_at(seen, label, i),
            Tree::Pruned(_) => all_before(seen, label) || exists|i: int| hidden_at(seen, label, i),
            _ => exists|i: int| hidden_at(seen, label, i),
        },
{
    let next = seen.push(node);
    let n = seen.len() as int;
    assert(next[n] == node);
    assert forall|i: int| 0 <= i < n implies next[i] == seen[i] by {}
    if exists|i: int| hidden_at(next, label, i) {
        let i = choose|i: int| hidden_at(next, label, i);
        if i < n {
            assert(next[i] == seen[i]);
            assert(hidden_at(seen, label, i)) by {
                assert forall|j: int| 0 <= j < i && seen[j] is Labeled implies lex_lt(
                    label_of(seen[j]),
                    label,
                ) by {
                    assert(next[j] == seen[j]);
                }
                assert forall|j: int| i < j < seen.len() && seen[j] is Labeled implies lex_lt(
                    label,
                    label_of(seen[j]),
                ) by {
                    assert(next[j] == seen[j]);
                }
            }
            if node is Labeled {
                assert(lex_lt(label, label_of(next[n])));
            }
        } else {
            assert(all_before(seen, label)) by {
                assert forall|j: int| 0 <= j < seen.len() && seen[j] is Labeled implies lex_lt(
                    label_of(seen[j]),
                    label,
                ) by {
                    assert(next[j] == seen[j]);
                }
            }
        }
    }
    if exists|i: int| hidden_at(seen, label, i) {
        let i = choose|i: int| hidden_at(seen, label, i);
        if !(node is Labeled) || lex_lt(label, label_of(node)) {
            assert(next[i] == seen[i]);
            assert(hidden_at(next, label, i)) by {
                assert forall|j: int| 0 <= j < i && next[j] is Labeled implies lex_lt(
                    label_of(next[j]),
                    label,
                ) by {
                    assert(next[j] == seen[j]);
                }
                assert forall|j: int| i < j < next.len() && next[j] is Labeled implies lex_lt(
                    label,
                    label_of(next[j]),
                ) by {
                    if j < n {
                        assert(next[j] == seen[j]);
                    }
                }
            }
        }
    }
    if node is Pruned && all_before(seen, label) {
        assert(hidden_at(next, label, n)) by {
            assert forall|j: int| 0 <= j < n && next[j] is Labeled implies lex_lt(
                label_of(next[j]),
                label,
            ) by {
                assert(next[j] == seen[j]);
            }
        }
    }
}

/// What reading one more node does to the places where `label` stands.
proof fn lemma_labeled_push(seen: Seq<Tree>, node: Tree, label: Seq<u8>, i: int)
    ensures
        labeled_at(seen.push(node), label, i) == (labeled_at(seen, label, i) || (i == seen.len()
            && node is Labeled && label_of(node) == label)),
{
    let next = seen.push(node);
    if 0 <= i < seen.len() {
        assert(next[i] == seen[i]);
    } else if i == seen.len() {
        assert(next[i] == node);
    }
}

/// What reading one more node does to the claim that all labels stand before
/// `label`.
proof fn lemma_before_push(seen: Seq<Tree>, node: Tree, label: Seq<u8>)
    ensures
        all_before(seen.push(node), label) == (all_before(seen, label) && (node is Labeled
            ==> lex_lt(label_of(node), label))),
{
    let next = seen.push(node);
    let n = seen.len() as int;
    assert(next[n] == node);
    if all_before(next, label) {
        assert forall|j: int| 0 <= j < seen.len() && seen[j] is Labeled implies lex_lt(
            label_of(seen[j]),
            label,
        ) by {
            assert(next[j] == seen[j]);
        }
    }
    if all_before(seen, label) && (node is Labeled ==> lex_lt(label_of(node), label)) {
        assert forall|j: int| 0 <= j < next.len() && next[j] is Labeled implies lex_lt(
            label_of(next[j]),
            label,
        ) by {
            if j < n {
                assert(next[j] == seen[j]);
            }
        }
    }
}

/// A row whose labels rise still does so without its last node.
proof fn lemma_ascending_prefix(seen: Seq<Tree>, node: Tree)
    requires
        ascending(seen.push(node)),
    ensures
        ascending(seen),
{
    let next = seen.push(node);
    assert forall|i: int, j: int|
        0 <= i < j < seen.len() && seen[i] is Labeled && seen[j] is Labeled implies lex_lt(
        label_of(seen[i]),
        label_of(seen[j]),
    ) by {
        assert(next[i] == seen[i]);
        assert(next[j] == seen[j]);
    }
}

impl<'a> Scan<'a> {
    /// What is known before any node is read.
    fn start() -> (st: Scan<'a>)
        ensures
            forall|label: Seq<u8>| st.tracks(Seq::<Tree>::empty(), label),
    {
        Scan { ordered: true, last: None, found: None, before: true, hidden: false }
    }

    /// Reads one node that is no fork.
    fn read(self, t: &'a HashTree, label: &[u8], Ghost(seen): Ghost<Seq<Tree>>) -> (out: Scan<'a>)
        requires
            self.tracks(seen, label@),
            !(t is Fork),
        ensures
            out.tracks(seen.push(t@), label@),
    {
        let ghost node = t@;
        let ghost next = seen.push(node);
        proof {
            lemma_before_push(seen, node, label@);
            lemma_hidden_push(seen, node, label@);
            lemma_last_labeled_push(seen, node);
            assert forall|i: int|
                labeled_at(next, label@, i) == (labeled_at(seen, label@, i) || (i == seen.len()
                    && node is Labeled && label_of(node) == label@)) by {
                lemma_labeled_push(seen, node, label@, i);
            }
            if !ascending(seen) && ascending(next) {
                lemma_ascending_prefix(seen, node);
            }
        }
        match t {
            HashTree::Labeled(l, sub) => {
                let rises = match self.last {
                    None => true,
                    Some(prev) => order_bytes(prev.as_bytes(), l.as_bytes()) == Order::Before,
                };
                let place = order_bytes(l.as_bytes(), label);
                let found: Option<&'a HashTree> = if place == Order::Same {
                    Some(&**sub)
                } else {
                    self.found
                };
                proof {
                    if self.ordered {
                        lemma_ascending_push_labeled(seen, node);
                    }
                    assert(next[seen.len() as int] == node);
                    if place == Order::Same {
                        assert(found_at(next, label@, seen.len() as int, sub@));
                    } else if let Some(s) = self.found {
                        let i = choose|i: int| found_at(seen, label@, i, s@);
                        assert(next[i] == seen[i]);
                        assert(found_at(next, label@, i, s@));
                    }
                }
                Scan {
                    ordered: self.ordered && rises,
                    last: Some(l),
                    found,
                    before: self.before && place == Order::Before,
                    hidden: self.hidden && place == Order::After,
                }
            },
            _ => {
                let pruned = match t {
                    HashTree::Pruned(_) => true,
                    _ => false,
                };
                proof {
                    lemma_ascending_push_plain(seen, node);
                    lemma_last_labeled(seen);
                    if last_labeled(seen) >= 0 {
                        assert(next[last_labeled(seen)] == seen[last_labeled(seen)]);
                    }
                    if let Some(s) = self.found {
                        let i = choose|i: int| found_at(seen, label@, i, s@);
                        assert(next[i] == seen[i]);
                        assert(found_at(next, label@, i, s@));
                    }
                }
                Scan {
                    ordered: self.ordered,
                    last: self.last,
                    found: self.found,
                    before: self.before,
                    hidden: self.hidden || (pruned && self.before),
                }
            },
        }
    }
}

/// Reads the row under `t`, after the nodes `seen`.
fn scan_level<'a>(
    t: &'a HashTree,
    label: &[u8],
    st: Scan<'a>,
    Ghost(seen): Ghost<Seq<Tree>>,
) -> (out: Scan<'a>)
    requires
        st.tracks(seen, label@),
    ensures
        out.tracks(seen + t@.level(), label@),
    decreases t,
{
    match t {
        HashTree::Fork(l, r) => {
            let mid = scan_level(&**l, label, st, Ghost(seen));
            let out = scan_level(&**r, label, mid, Ghost(seen + l@.level()));
            proof {
                assert(seen + t@.level() =~= (seen + l@.level()) + r@.level());
            }
            out
        },
        _ => {
            let out = st.read(t, label, Ghost(seen));
            proof {
                assert(seen + t@.level() =~= seen.push(t@));
            }
            out
        },
    }
}

impl Clone for HashTree {
    fn clone(&self) -> (t: HashTree)
        ensures
            t@ == self@,
        decreases self,
    {
        match self {
            HashTree::Empty => HashTree::Empty,
            HashTree::Fork(l, r) => HashTree::Fork(Box::new((**l).clone()), Box::new((**r).clone())),
            HashTree::Labeled(label, sub) => HashTree::Labeled(
                label.duplicate(),
                Box::new((**sub).clone()),
            ),
            HashTree::Leaf(bytes) => HashTree::Leaf(slice_to_vec(bytes.as_slice())),
            HashTree::Pruned(digest) => HashTree::Pruned(*digest),
        }
    }
}

impl HashTree {
    /// The tree without data.
    pub fn empty() -> (t: HashTree)
        ensures
            t@ == Tree::Empty,
    {
        HashTree::Empty
    }

    /// The fork of two trees.
    pub fn fork(left: HashTree, right: HashTree) -> (t: HashTree)
        ensures
            t@ == Tree::Fork(Box::new(left@), Box::new(right@)),
    {
        HashTree::Fork(Box::new(left), Box::new(right))
    }

    /// The tree `subtree` under `label`.
    pub fn labeled(label: Label, subtree: HashTree) -> (t: HashTree)
        ensures
            t@ == Tree::Labeled(label@, Box::new(subtree@)),
    {
        HashTree::Labeled(label, Box::new(subtree))
    }

    /// The leaf that holds `bytes`.
    pub fn leaf(bytes: Vec<u8>) -> (t: HashTree)
        ensures
            t@ == Tree::Leaf(bytes@),
    {
        HashTree::Leaf(bytes)
    }

    /// The stand-in for a subtree with this digest.
    pub fn pruned(digest: [u8; 32]) -> (t: HashTree)
        ensures
            t@ == Tree::Pruned(digest@),
    {
        HashTree::Pruned(digest)
    }

    /// Whether every row of the tree has strictly rising labels.
    pub fn is_well_formed(&self) -> (ok: bool)
        ensures
            ok == well_formed(self@),
        decreases self, 1int,
    {
        // Whether the labels of a row rise does not depend on the label searched.
        let label: [u8; 0] = [];
        let row = scan_level(self, label.as_slice(), Scan::start(), Ghost(Seq::empty()));
        proof {
            assert(Seq::<Tree>::empty() + self@.level() =~= self@.level());
        }
        row.ordered && self.is_well_formed_under()
    }

    /// Whether the rows under the labeled nodes of the top row are well formed.
    fn is_well_formed_under(&self) -> (ok: bool)
        ensures
            ok == well_formed_under(self@),
        decreases self, 0int,
    {
        match self {
            HashTree::Fork(l, r) => l.is_well_formed_under() && r.is_well_formed_under(),
            HashTree::Labeled(_, sub) => sub.is_well_formed(),
            _ => true,
        }
    }

    /// Looks `path` up in the tree.
    ///
    /// The tree is left as it is, and the result is a function of the tree and
    /// the path alone.
    pub fn lookup_path<'a>(&'a self, path: &Path) -> (r: LookupResult<'a>)
        ensures
            r@ == lookup(self@, path@),
    {
        let mut node: &'a HashTree = self;
        let mut i: usize = 0;
        proof {
            assert(path@.skip(0) =~= path@);
        }
        while i < path.len()
            invariant
                i <= path@.len(),
                lookup(self@, path@) == lookup(node@, path@.skip(i as int)),
            decreases path@.len() - i,
        {
            let label = path.label(i).as_bytes();
            let st = scan_level(node, label, Scan::start(), Ghost(Seq::empty()));
            let ghost row = node@.level();
            let ghost rest = path@.skip(i as int);
            proof {
                assert(Seq::<Tree>::empty() + row =~= row);
                assert(rest[0] == label@);
                assert(rest.skip(1) =~= path@.skip(i + 1));
            }
            if !st.ordered {
                return LookupResult::Error;
            }
            match st.found {
                Some(sub) => {
                    proof {
                        let k = choose|k: int| found_at(row, label@, k, sub@);
                        let c = choose|c: int| labeled_at(row, label@, c);
                        lemma_label_once(row, label@, k, c);
                    }
                    node = sub;
                    i += 1;
                },
                None => {
                    if st.hidden {
                        return LookupResult::Unknown;
                    } else {
                        return LookupResult::Absent;
                    }
                },
            }
        }
        proof {
            assert(path@.skip(i as int).len() == 0);
        }
        match node {
            HashTree::Leaf(bytes) => LookupResult::Found(bytes.as_slice()),
            HashTree::Pruned(_) => LookupResult::Unknown,
            _ => LookupResult::Error,
        }
    }
}

} // verus!
