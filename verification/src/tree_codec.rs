//! The bytes of a hash tree: its canonical CBOR encoding.
//!
//! A tree is written as nested arrays, each led by the number of its kind:
//!
//! ```text
//! tree ::= [0] | [1, tree, tree] | [2, bytes, tree] | [3, bytes] | [4, digest]
//! ```
//!
//! Arrays and byte strings carry their definite length in the shortest form,
//! and a digest has 32 bytes. These are the bytes that `serde_cbor` writes for
//! a tree; they are read back here, and nothing else is.

use vstd::prelude::*;
use vstd::slice::{slice_subrange, slice_to_vec};
use crate::label::Label;
use crate::tree::{HashTree, Tree};

verus! {

/// The deepest nesting of a tree that is read.
pub const MAX_DEPTH: usize = 128;

/// The number of bytes in a digest.
pub const DIGEST_BYTES: usize = 32;

/// The number that two bytes stand for, the high byte first.
pub open spec fn be2(a: u8, b: u8) -> nat {
    (a * 0x100 + b) as nat
}

/// The number that four bytes stand for, the high byte first.
pub open spec fn be4(a: u8, b: u8, c: u8, d: u8) -> nat {
    (be2(a, b) * 0x1_0000 + be2(c, d)) as nat
}

/// The number that eight bytes stand for, the high byte first.
pub open spec fn be8(bytes: Seq<u8>) -> nat
    recommends
        bytes.len() == 8,
{
    (be4(bytes[0], bytes[1], bytes[2], bytes[3]) * 0x1_0000_0000 + be4(
        bytes[4],
        bytes[5],
        bytes[6],
        bytes[7],
    )) as nat
}

/// The two bytes of a number below 2^16, the high byte first.
pub open spec fn be2_bytes(n: nat) -> Seq<u8> {
    seq![(n / 0x100) as u8, (n % 0x100) as u8]
}

/// The four bytes of a number below 2^32, the high byte first.
pub open spec fn be4_bytes(n: nat) -> Seq<u8> {
    be2_bytes(n / 0x1_0000) + be2_bytes(n % 0x1_0000)
}

/// The eight bytes of a number below 2^64, the high byte first.
pub open spec fn be8_bytes(n: nat) -> Seq<u8> {
    be4_bytes(n / 0x1_0000_0000) + be4_bytes(n % 0x1_0000_0000)
}

/// The head of a byte string of `n` bytes: its kind and its length, the length
/// in the shortest of the five forms.
#[verifier::opaque]
pub open spec fn bytes_head(n: nat) -> Seq<u8> {
    if n < 24 {
        seq![(0x40 + n) as u8]
    } else if n < 0x100 {
        seq![0x58u8, n as u8]
    } else if n < 0x1_0000 {
        seq![0x59u8] + be2_bytes(n)
    } else if n < 0x1_0000_0000 {
        seq![0x5au8] + be4_bytes(n)
    } else {
        seq![0x5bu8] + be8_bytes(n)
    }
}

/// The length that the head of a byte string at the start of `bytes` gives,
/// and the number of bytes of the head; `None` where no such head stands
/// there, or one that is not in the shortest form.
#[verifier::opaque]
pub open spec fn read_head(bytes: Seq<u8>) -> Option<(nat, nat)> {
    if bytes.len() == 0 {
        None
    } else if 0x40 <= bytes[0] < 0x58 {
        Some(((bytes[0] - 0x40) as nat, 1nat))
    } else if bytes[0] == 0x58 && bytes.len() >= 2 && bytes[1] >= 24 {
        Some((bytes[1] as nat, 2nat))
    } else if bytes[0] == 0x59 && bytes.len() >= 3 && be2(bytes[1], bytes[2]) >= 0x100 {
        Some((be2(bytes[1], bytes[2]), 3nat))
    } else if bytes[0] == 0x5a && bytes.len() >= 5 && be4(bytes[1], bytes[2], bytes[3], bytes[4])
        >= 0x1_0000 {
        Some((be4(bytes[1], bytes[2], bytes[3], bytes[4]), 5nat))
    } else if bytes[0] == 0x5b && bytes.len() >= 9 && be8(bytes.subrange(1, 9))
        >= 0x1_0000_0000 {
        Some((be8(bytes.subrange(1, 9)), 9nat))
    } else {
        None
    }
}

/// The encoding of a byte string: its head, then its bytes.
pub open spec fn encode_bytes(content: Seq<u8>) -> Seq<u8> {
    bytes_head(content.len()) + content
}

/// The byte string at the start of `bytes`, and the number of bytes that its
/// encoding takes.
pub open spec fn read_bytes(bytes: Seq<u8>) -> Option<(Seq<u8>, nat)> {
    match read_head(bytes) {
        Some((n, head)) => if head + n <= bytes.len() {
            Some((bytes.subrange(head as int, (head + n) as int), head + n))
        } else {
            None
        },
        None => None,
    }
}

/// The encoding of a tree.
pub open spec fn encode_tree(t: Tree) -> Seq<u8>
    decreases t,
{
    match t {
        Tree::Empty => seq![0x81u8, 0u8],
        Tree::Fork(l, r) => seq![0x83u8, 1u8] + encode_tree(*l) + encode_tree(*r),
        Tree::Labeled(label, sub) => seq![0x83u8, 2u8] + encode_bytes(label) + encode_tree(*sub),
        Tree::Leaf(value) => seq![0x82u8, 3u8] + encode_bytes(value),
        Tree::Pruned(digest) => seq![0x82u8, 4u8] + encode_bytes(digest),
    }
}

/// The tree at the start of `bytes` that is nested no deeper than `depth`, and
/// the number of bytes that its encoding takes.
pub open spec fn read_tree(bytes: Seq<u8>, depth: nat) -> Option<(Tree, nat)>
    decreases depth,
{
    if depth == 0 || bytes.len() < 2 {
        None
    } else if bytes[0] == 0x81 && bytes[1] == 0 {
        Some((Tree::Empty, 2nat))
    } else if bytes[0] == 0x83 && bytes[1] == 1 {
        match read_tree(bytes.skip(2), (depth - 1) as nat) {
            Some((left, n)) => match read_tree(bytes.skip(2 + n as int), (depth - 1) as nat) {
                Some((right, m)) => Some(
                    (Tree::Fork(Box::new(left), Box::new(right)), 2 + n + m),
                ),
                None => None,
            },
            None => None,
        }
    } else if bytes[0] == 0x83 && bytes[1] == 2 {
        match read_bytes(bytes.skip(2)) {
            Some((label, n)) => match read_tree(bytes.skip(2 + n as int), (depth - 1) as nat) {
                Some((sub, m)) => Some((Tree::Labeled(label, Box::new(sub)), 2 + n + m)),
                None => None,
            },
            None => None,
        }
    } else if bytes[0] == 0x82 && bytes[1] == 3 {
        match read_bytes(bytes.skip(2)) {
            Some((value, n)) => Some((Tree::Leaf(value), 2 + n)),
            None => None,
        }
    } else if bytes[0] == 0x82 && bytes[1] == 4 {
        match read_bytes(bytes.skip(2)) {
            Some((digest, n)) => if digest.len() == DIGEST_BYTES {
                Some((Tree::Pruned(digest), 2 + n))
            } else {
                None
            },
            None => None,
        }
    } else {
        None
    }
}

/// The tree that `bytes` are the encoding of: the tree at their start, where
/// it is nested no deeper than the limit and nothing follows it.
pub open spec fn tree_of(bytes: Seq<u8>) -> Option<Tree> {
    match read_tree(bytes, MAX_DEPTH as nat) {
        Some((t, n)) => if n == bytes.len() {
            Some(t)
        } else {
            None
        },
        None => None,
    }
}

/// The number of nodes on the longest way down from the root.
pub open spec fn height(t: Tree) -> nat
    decreases t,
{
    match t {
        Tree::Fork(l, r) => 1 + if height(*l) >= height(*r) {
            height(*l)
        } else {
            height(*r)
        },
        Tree::Labeled(_, sub) => 1 + height(*sub),
        _ => 1,
    }
}

/// The tree can be written: its digests have 32 bytes, and the lengths of its
/// labels and values fit in 64 bits.
pub open spec fn writable(t: Tree) -> bool
    decreases t,
{
    match t {
        Tree::Empty => true,
        Tree::Fork(l, r) => writable(*l) && writable(*r),
        Tree::Labeled(label, sub) => label.len() <= u64::MAX && writable(*sub),
        Tree::Leaf(value) => value.len() <= u64::MAX,
        Tree::Pruned(digest) => digest.len() == DIGEST_BYTES,
    }
}

/// The value of every tree in memory can be written.
pub proof fn lemma_view_writable(t: HashTree)
    ensures
        writable(t@),
    decreases t,
{
    match t {
        HashTree::Fork(l, r) => {
            lemma_view_writable(*l);
            lemma_view_writable(*r);
        },
        HashTree::Labeled(label, sub) => {
            lemma_view_writable(*sub);
            assert(label.bytes.len() == label@.len());
        },
        HashTree::Leaf(value) => {
            assert(value.len() == value@.len());
        },
        _ => {},
    }
}

/// Two bytes that were written for a number are read as that number.
proof fn lemma_be2(n: nat)
    requires
        n < 0x1_0000,
    ensures
        be2_bytes(n).len() == 2,
        be2(be2_bytes(n)[0], be2_bytes(n)[1]) == n,
{
}

/// Four bytes that were written for a number are read as that number.
proof fn lemma_be4(n: nat)
    requires
        n < 0x1_0000_0000,
    ensures
        be4_bytes(n).len() == 4,
        be4(be4_bytes(n)[0], be4_bytes(n)[1], be4_bytes(n)[2], be4_bytes(n)[3]) == n,
{
    lemma_be2(n / 0x1_0000);
    lemma_be2(n % 0x1_0000);
}

/// Eight bytes that were written for a number are read as that number.
proof fn lemma_be8(n: nat)
    requires
        n <= u64::MAX,
    ensures
        be8_bytes(n).len() == 8,
        be8(be8_bytes(n)) == n,
{
    lemma_be4(n / 0x1_0000_0000);
    lemma_be4(n % 0x1_0000_0000);
}

/// The head that was written for a length is read as that length, whatever
/// follows it.
pub proof fn lemma_head_round_trip(n: nat, rest: Seq<u8>)
    requires
        n <= u64::MAX,
    ensures
        read_head(bytes_head(n) + rest) == Some((n, bytes_head(n).len())),
{
    reveal(bytes_head);
    reveal(read_head);
    let all = bytes_head(n) + rest;
    if n < 24 {
        assert(all[0] == (0x40 + n) as u8);
    } else if n < 0x100 {
        assert(all[0] == 0x58);
        assert(all[1] == n as u8);
    } else if n < 0x1_0000 {
        lemma_be2(n);
        assert(all[0] == 0x59);
        assert(all[1] == be2_bytes(n)[0]);
        assert(all[2] == be2_bytes(n)[1]);
    } else if n < 0x1_0000_0000 {
        lemma_be4(n);
        assert(all[0] == 0x5a);
        assert(all[1] == be4_bytes(n)[0]);
        assert(all[2] == be4_bytes(n)[1]);
        assert(all[3] == be4_bytes(n)[2]);
        assert(all[4] == be4_bytes(n)[3]);
    } else {
        lemma_be8(n);
        assert(all[0] == 0x5b);
        assert(all.subrange(1, 9) =~= be8_bytes(n));
    }
}

/// A byte string that was written is read back, whatever follows it.
pub proof fn lemma_bytes_round_trip(content: Seq<u8>, rest: Seq<u8>)
    requires
        content.len() <= u64::MAX,
    ensures
        read_bytes(encode_bytes(content) + rest) == Some((content, encode_bytes(content).len())),
{
    let head = bytes_head(content.len());
    let all = encode_bytes(content) + rest;
    assert(all =~= head + (content + rest));
    lemma_head_round_trip(content.len(), content + rest);
    assert(all.subrange(head.len() as int, (head.len() + content.len()) as int) =~= content);
}

/// A tree that was written is read back, whatever follows it: reading the
/// encoding of a writable tree, with a depth that the tree does not exceed,
/// gives the tree and the length of its encoding.
pub proof fn lemma_tree_round_trip(t: Tree, rest: Seq<u8>, depth: nat)
    requires
        writable(t),
        height(t) <= depth,
    ensures
        read_tree(encode_tree(t) + rest, depth) == Some((t, encode_tree(t).len())),
    decreases t,
{
    let all = encode_tree(t) + rest;
    match t {
        Tree::Empty => {
            assert(all[0] == 0x81 && all[1] == 0);
        },
        Tree::Fork(l, r) => {
            let left = encode_tree(*l);
            let right = encode_tree(*r);
            assert(all[0] == 0x83 && all[1] == 1);
            assert(all.skip(2) =~= left + (right + rest));
            lemma_tree_round_trip(*l, right + rest, (depth - 1) as nat);
            assert(all.skip(2 + left.len() as int) =~= right + rest);
            lemma_tree_round_trip(*r, rest, (depth - 1) as nat);
        },
        Tree::Labeled(label, sub) => {
            let name = encode_bytes(label);
            let below = encode_tree(*sub);
            assert(all[0] == 0x83 && all[1] == 2);
            assert(all.skip(2) =~= name + (below + rest));
            lemma_bytes_round_trip(label, below + rest);
            assert(all.skip(2 + name.len() as int) =~= below + rest);
            lemma_tree_round_trip(*sub, rest, (depth - 1) as nat);
        },
        Tree::Leaf(value) => {
            assert(all[0] == 0x82 && all[1] == 3);
            assert(all.skip(2) =~= encode_bytes(value) + rest);
            lemma_bytes_round_trip(value, rest);
        },
        Tree::Pruned(digest) => {
            assert(all[0] == 0x82 && all[1] == 4);
            assert(all.skip(2) =~= encode_bytes(digest) + rest);
            lemma_bytes_round_trip(digest, rest);
        },
    }
}

/// Writing a tree and reading the bytes gives the tree again, for every
/// writable tree that is nested no deeper than the limit.
pub proof fn lemma_encoding_is_lossless(t: Tree)
    requires
        writable(t),
        height(t) <= MAX_DEPTH,
    ensures
        tree_of(encode_tree(t)) == Some(t),
{
    lemma_tree_round_trip(t, Seq::empty(), MAX_DEPTH as nat);
    assert(encode_tree(t) + Seq::<u8>::empty() =~= encode_tree(t));
}

/// Two bytes that were read as a number are the bytes written for it.
proof fn lemma_be2_bytes(a: u8, b: u8)
    ensures
        be2(a, b) < 0x1_0000,
        be2_bytes(be2(a, b)) =~= seq![a, b],
{
}

/// Four bytes that were read as a number are the bytes written for it.
proof fn lemma_be4_bytes(a: u8, b: u8, c: u8, d: u8)
    ensures
        be4(a, b, c, d) < 0x1_0000_0000,
        be4_bytes(be4(a, b, c, d)) =~= seq![a, b, c, d],
{
    lemma_be2_bytes(a, b);
    lemma_be2_bytes(c, d);
    let n = be4(a, b, c, d);
    assert(n / 0x1_0000 == be2(a, b));
    assert(n % 0x1_0000 == be2(c, d));
}

/// Eight bytes that were read as a number are the bytes written for it.
proof fn lemma_be8_bytes(bytes: Seq<u8>)
    requires
        bytes.len() == 8,
    ensures
        be8(bytes) <= u64::MAX,
        be8_bytes(be8(bytes)) =~= bytes,
{
    lemma_be4_bytes(bytes[0], bytes[1], bytes[2], bytes[3]);
    lemma_be4_bytes(bytes[4], bytes[5], bytes[6], bytes[7]);
    let n = be8(bytes);
    assert(n / 0x1_0000_0000 == be4(bytes[0], bytes[1], bytes[2], bytes[3]));
    assert(n % 0x1_0000_0000 == be4(bytes[4], bytes[5], bytes[6], bytes[7]));
}

/// A head that is read is the head that is written for its length: only the
/// shortest form is read.
pub proof fn lemma_head_is_canonical(bytes: Seq<u8>)
    requires
        read_head(bytes) is Some,
    ensures
        ({
            let (n, head) = read_head(bytes)->Some_0;
            &&& n <= u64::MAX
            &&& 1 <= head <= bytes.len()
            &&& bytes_head(n) == bytes.take(head as int)
        }),
{
    reveal(bytes_head);
    reveal(read_head);
    let (n, head) = read_head(bytes)->Some_0;
    if bytes[0] == 0x59 {
        lemma_be2_bytes(bytes[1], bytes[2]);
    } else if bytes[0] == 0x5a {
        lemma_be4_bytes(bytes[1], bytes[2], bytes[3], bytes[4]);
    } else if bytes[0] == 0x5b {
        lemma_be8_bytes(bytes.subrange(1, 9));
    }
    assert(bytes_head(n) =~= bytes.take(head as int));
}

/// A byte string that is read is written as the bytes it was read from.
pub proof fn lemma_bytes_are_canonical(bytes: Seq<u8>)
    requires
        read_bytes(bytes) is Some,
    ensures
        ({
            let (content, n) = read_bytes(bytes)->Some_0;
            &&& n <= bytes.len()
            &&& content.len() <= u64::MAX
            &&& encode_bytes(content) == bytes.take(n as int)
        }),
{
    lemma_head_is_canonical(bytes);
    let (content, n) = read_bytes(bytes)->Some_0;
    assert(encode_bytes(content) =~= bytes.take(n as int));
}

/// A tree that is read is written as the bytes it was read from: one tree has
/// one encoding, and no other bytes are read as that tree.
pub proof fn lemma_tree_is_canonical(bytes: Seq<u8>, depth: nat)
    requires
        read_tree(bytes, depth) is Some,
    ensures
        ({
            let (t, n) = read_tree(bytes, depth)->Some_0;
            &&& n <= bytes.len()
            &&& writable(t)
            &&& height(t) <= depth
            &&& encode_tree(t) == bytes.take(n as int)
        }),
    decreases depth,
{
    let (t, n) = read_tree(bytes, depth)->Some_0;
    let rest = bytes.skip(2);
    let below = (depth - 1) as nat;
    if bytes[0] == 0x81 && bytes[1] == 0 {
        assert(encode_tree(t) =~= bytes.take(n as int));
    } else if bytes[0] == 0x83 && bytes[1] == 1 {
        let (left, a) = read_tree(rest, below)->Some_0;
        lemma_tree_is_canonical(rest, below);
        let after = bytes.skip(2 + a as int);
        let (right, b) = read_tree(after, below)->Some_0;
        lemma_tree_is_canonical(after, below);
        assert(encode_tree(t) =~= seq![0x83u8, 1u8] + rest.take(a as int) + after.take(b as int));
        assert(encode_tree(t) =~= bytes.take(n as int));
    } else if bytes[0] == 0x83 && bytes[1] == 2 {
        let (label, a) = read_bytes(rest)->Some_0;
        lemma_bytes_are_canonical(rest);
        let after = bytes.skip(2 + a as int);
        let (sub, b) = read_tree(after, below)->Some_0;
        lemma_tree_is_canonical(after, below);
        assert(encode_tree(t) =~= seq![0x83u8, 2u8] + rest.take(a as int) + after.take(b as int));
        assert(encode_tree(t) =~= bytes.take(n as int));
    } else if bytes[0] == 0x82 && bytes[1] == 3 {
        let (value, a) = read_bytes(rest)->Some_0;
        lemma_bytes_are_canonical(rest);
        assert(encode_tree(t) =~= seq![0x82u8, 3u8] + rest.take(a as int));
        assert(encode_tree(t) =~= bytes.take(n as int));
    } else {
        let (digest, a) = read_bytes(rest)->Some_0;
        lemma_bytes_are_canonical(rest);
        assert(encode_tree(t) =~= seq![0x82u8, 4u8] + rest.take(a as int));
        assert(encode_tree(t) =~= bytes.take(n as int));
    }
}

/// Reading bytes and writing the tree gives the bytes again, for all bytes
/// that are read as a tree.
pub proof fn lemma_decoding_is_lossless(bytes: Seq<u8>)
    requires
        tree_of(bytes) is Some,
    ensures
        encode_tree(tree_of(bytes)->Some_0) == bytes,
        writable(tree_of(bytes)->Some_0),
        height(tree_of(bytes)->Some_0) <= MAX_DEPTH,
{
    lemma_tree_is_canonical(bytes, MAX_DEPTH as nat);
    assert(bytes.take(bytes.len() as int) =~= bytes);
}

/// Reads the head of a byte string.
fn read_head_at(bytes: &[u8]) -> (r: Option<(u64, usize)>)
    ensures
        match r {
            None => read_head(bytes@) is None,
            Some((n, head)) => read_head(bytes@) == Some((n as nat, head as nat)) && 1 <= head
                <= bytes@.len(),
        },
{
    proof {
        reveal(read_head);
    }
    if bytes.len() == 0 {
        return None;
    }
    let first = bytes[0];
    if 0x40 <= first && first < 0x58 {
        Some(((first - 0x40) as u64, 1))
    } else if first == 0x58 && bytes.len() >= 2 && bytes[1] >= 24 {
        Some((bytes[1] as u64, 2))
    } else if first == 0x59 && bytes.len() >= 3 {
        let n: u64 = bytes[1] as u64 * 0x100 + bytes[2] as u64;
        if n >= 0x100 {
            Some((n, 3))
        } else {
            None
        }
    } else if first == 0x5a && bytes.len() >= 5 {
        let high: u64 = bytes[1] as u64 * 0x100 + bytes[2] as u64;
        let low: u64 = bytes[3] as u64 * 0x100 + bytes[4] as u64;
        let n: u64 = high * 0x1_0000 + low;
        if n >= 0x1_0000 {
            Some((n, 5))
        } else {
            None
        }
    } else if first == 0x5b && bytes.len() >= 9 {
        let a: u64 = bytes[1] as u64 * 0x100 + bytes[2] as u64;
        let b: u64 = bytes[3] as u64 * 0x100 + bytes[4] as u64;
        let c: u64 = bytes[5] as u64 * 0x100 + bytes[6] as u64;
        let d: u64 = bytes[7] as u64 * 0x100 + bytes[8] as u64;
        let high: u64 = a * 0x1_0000 + b;
        let low: u64 = c * 0x1_0000 + d;
        let n: u64 = high * 0x1_0000_0000 + low;
        proof {
            let word = bytes@.subrange(1, 9);
            assert(word[0] == bytes@[1] && word[1] == bytes@[2] && word[2] == bytes@[3] && word[3]
                == bytes@[4]);
            assert(word[4] == bytes@[5] && word[5] == bytes@[6] && word[6] == bytes@[7] && word[7]
                == bytes@[8]);
        }
        if n >= 0x1_0000_0000 {
            Some((n, 9))
        } else {
            None
        }
    } else {
        None
    }
}

/// Reads a byte string.
fn read_bytes_at<'a>(bytes: &'a [u8]) -> (r: Option<(&'a [u8], usize)>)
    ensures
        match r {
            None => read_bytes(bytes@) is None,
            Some((content, n)) => read_bytes(bytes@) == Some((content@, n as nat)) && n
                <= bytes@.len(),
        },
{
    match read_head_at(bytes) {
        None => None,
        Some((n, head)) => {
            if n > (bytes.len() - head) as u64 {
                None
            } else {
                let end: usize = head + n as usize;
                Some((slice_subrange(bytes, head, end), end))
            }
        },
    }
}

/// Reads a tree that is nested no deeper than `depth`.
fn read_tree_at(bytes: &[u8], depth: usize) -> (r: Option<(HashTree, usize)>)
    ensures
        match r {
            None => read_tree(bytes@, depth as nat) is None,
            Some((t, n)) => read_tree(bytes@, depth as nat) == Some((t@, n as nat)) && n
                <= bytes@.len(),
        },
    decreases depth,
{
    if depth == 0 || bytes.len() < 2 {
        return None;
    }
    let kind = bytes[1];
    let rest = slice_subrange(bytes, 2, bytes.len());
    proof {
        assert(rest@ =~= bytes@.skip(2));
    }
    if bytes[0] == 0x81 && kind == 0 {
        Some((HashTree::Empty, 2))
    } else if bytes[0] == 0x83 && kind == 1 {
        let (left, n) = match read_tree_at(rest, depth - 1) {
            None => {
                return None;
            },
            Some(found) => found,
        };
        let after = slice_subrange(rest, n, rest.len());
        proof {
            assert(after@ =~= bytes@.skip(2 + n));
        }
        let (right, m) = match read_tree_at(after, depth - 1) {
            None => {
                return None;
            },
            Some(found) => found,
        };
        Some((HashTree::Fork(Box::new(left), Box::new(right)), 2 + n + m))
    } else if bytes[0] == 0x83 && kind == 2 {
        let (label, n) = match read_bytes_at(rest) {
            None => {
                return None;
            },
            Some(found) => found,
        };
        let after = slice_subrange(rest, n, rest.len());
        proof {
            assert(after@ =~= bytes@.skip(2 + n));
        }
        let (sub, m) = match read_tree_at(after, depth - 1) {
            None => {
                return None;
            },
            Some(found) => found,
        };
        Some((HashTree::Labeled(Label::from_bytes(label), Box::new(sub)), 2 + n + m))
    } else if bytes[0] == 0x82 && kind == 3 {
        match read_bytes_at(rest) {
            None => None,
            Some((value, n)) => Some((HashTree::Leaf(slice_to_vec(value)), 2 + n)),
        }
    } else if bytes[0] == 0x82 && kind == 4 {
        match read_bytes_at(rest) {
            None => None,
            Some((digest, n)) => {
                if digest.len() != DIGEST_BYTES {
                    return None;
                }
                let mut copy: [u8; 32] = [0u8; 32];
                let mut i: usize = 0;
                while i < DIGEST_BYTES
                    invariant
                        i <= DIGEST_BYTES,
                        digest@.len() == DIGEST_BYTES,
                        forall|j: int| 0 <= j < i ==> copy@[j] == digest@[j],
                    decreases DIGEST_BYTES - i,
                {
                    copy[i] = digest[i];
                    i += 1;
                }
                proof {
                    assert(copy@ =~= digest@);
                }
                Some((HashTree::Pruned(copy), 2 + n))
            },
        }
    } else {
        None
    }
}

/// Reads the tree that `bytes` encode.
///
/// Gives `None` where the bytes are not the encoding of a tree, where the tree
/// is nested deeper than the limit, and where bytes are left over.
pub fn decode_tree(bytes: &[u8]) -> (r: Option<HashTree>)
    ensures
        match r {
            None => tree_of(bytes@) is None,
            Some(t) => tree_of(bytes@) == Some(t@),
        },
{
    match read_tree_at(bytes, MAX_DEPTH) {
        None => None,
        Some((t, n)) => if n == bytes.len() {
            Some(t)
        } else {
            None
        },
    }
}

/// Writes the head of a byte string of `n` bytes.
fn write_head(n: u64, out: &mut Vec<u8>)
    ensures
        final(out)@ == old(out)@ + bytes_head(n as nat),
{
    let ghost before = out@;
    proof {
        reveal(bytes_head);
    }
    if n < 24 {
        out.push(0x40 + n as u8);
    } else if n < 0x100 {
        out.push(0x58);
        out.push(n as u8);
    } else if n < 0x1_0000 {
        out.push(0x59);
        out.push((n / 0x100) as u8);
        out.push((n % 0x100) as u8);
    } else if n < 0x1_0000_0000 {
        let high = n / 0x1_0000;
        let low = n % 0x1_0000;
        out.push(0x5a);
        out.push((high / 0x100) as u8);
        out.push((high % 0x100) as u8);
        out.push((low / 0x100) as u8);
        out.push((low % 0x100) as u8);
    } else {
        let high = n / 0x1_0000_0000;
        let low = n % 0x1_0000_0000;
        let a = high / 0x1_0000;
        let b = high % 0x1_0000;
        let c = low / 0x1_0000;
        let d = low % 0x1_0000;
        out.push(0x5b);
        out.push((a / 0x100) as u8);
        out.push((a % 0x100) as u8);
        out.push((b / 0x100) as u8);
        out.push((b % 0x100) as u8);
        out.push((c / 0x100) as u8);
        out.push((c % 0x100) as u8);
        out.push((d / 0x100) as u8);
        out.push((d % 0x100) as u8);
    }
    proof {
        assert(out@ =~= before + bytes_head(n as nat));
    }
}

/// Writes a byte string.
fn write_bytes(content: &[u8], out: &mut Vec<u8>)
    ensures
        final(out)@ == old(out)@ + encode_bytes(content@),
{
    let ghost before = out@;
    write_head(content.len() as u64, out);
    let mut i: usize = 0;
    while i < content.len()
        invariant
            i <= content.len(),
            out@ == before + bytes_head(content@.len()) + content@.take(i as int),
        decreases content.len() - i,
    {
        out.push(content[i]);
        proof {
            assert(content@.take(i + 1) =~= content@.take(i as int).push(content@[i as int]));
        }
        i += 1;
    }
    proof {
        assert(content@.take(i as int) =~= content@);
        assert(out@ =~= before + encode_bytes(content@));
    }
}

/// Writes a tree after what `out` holds.
pub fn write_tree(t: &HashTree, out: &mut Vec<u8>)
    ensures
        final(out)@ == old(out)@ + encode_tree(t@),
    decreases t,
{
    let ghost before = out@;
    match t {
        HashTree::Empty => {
            out.push(0x81);
            out.push(0);
        },
        HashTree::Fork(l, r) => {
            out.push(0x83);
            out.push(1);
            write_tree(&**l, out);
            write_tree(&**r, out);
        },
        HashTree::Labeled(label, sub) => {
            out.push(0x83);
            out.push(2);
            write_bytes(label.as_bytes(), out);
            write_tree(&**sub, out);
        },
        HashTree::Leaf(value) => {
            out.push(0x82);
            out.push(3);
            write_bytes(value.as_slice(), out);
        },
        HashTree::Pruned(digest) => {
            out.push(0x82);
            out.push(4);
            write_bytes(digest.as_slice(), out);
        },
    }
    proof {
        assert(out@ =~= before + encode_tree(t@));
    }
}

/// The bytes of a tree.
pub fn tree_bytes(t: &HashTree) -> (bytes: Vec<u8>)
    ensures
        bytes@ == encode_tree(t@),
{
    let mut bytes: Vec<u8> = Vec::new();
    write_tree(t, &mut bytes);
    proof {
        assert(Seq::<u8>::empty() + encode_tree(t@) =~= encode_tree(t@));
    }
    bytes
}

} // verus!
