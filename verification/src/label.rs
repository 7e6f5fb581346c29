//! Labels and paths: the keys of a hash tree.
//!
//! A label is a byte string; a path is a sequence of labels, read from the
//! root downwards. A label is made from raw bytes, from text or from a
//! principal by distinct constructors, so that the text form of a key is never
//! taken for its raw form.

use vstd::prelude::*;
use vstd::slice::slice_to_vec;
use vstd::utf8::encode_utf8;
use crate::principal::Principal;

verus! {

/// One edge key of a hash tree. Two labels are equal when their bytes are.
#[derive(Debug, Clone, PartialEq, Eq)]
pub struct Label {
    pub bytes: Vec<u8>,
}

impl View for Label {
    type V = Seq<u8>;

    open spec fn view(&self) -> Seq<u8> {
        self.bytes@
    }
}

impl Label {
    /// The label that holds exactly these bytes.
    pub fn from_bytes(bytes: &[u8]) -> (label: Label)
        ensures
            label@ == bytes@,
    {
        Label { bytes: slice_to_vec(bytes) }
    }

    /// The label that holds the UTF-8 encoding of `text`.
    pub fn from_text(text: &str) -> (label: Label)
        ensures
            label@ == encode_utf8(text@),
    {
        Label { bytes: slice_to_vec(text.as_bytes()) }
    }

    /// The label that holds the raw bytes of `principal`, not its text.
    pub fn from_principal(principal: &Principal) -> (label: Label)
        ensures
            label@ == principal@,
    {
        Label { bytes: slice_to_vec(principal.as_slice()) }
    }

    /// The bytes of the label.
    pub fn as_bytes(&self) -> (bytes: &[u8])
        ensures
            bytes@ == self@,
    {
        self.bytes.as_slice()
    }

    /// A second label with the same bytes.
    pub fn duplicate(&self) -> (label: Label)
        ensures
            label@ == self@,
    {
        Label { bytes: slice_to_vec(self.bytes.as_slice()) }
    }
}

/// A location in a hash tree: the labels to follow from the root, in order.
#[derive(Debug, Clone, PartialEq, Eq)]
pub struct Path {
    pub labels: Vec<Label>,
}

impl View for Path {
    type V = Seq<Seq<u8>>;

    open spec fn view(&self) -> Seq<Seq<u8>> {
        Seq::new(self.labels@.len(), |i: int| self.labels@[i]@)
    }
}

impl Path {
    /// The empty path, which names the root.
    pub fn new() -> (path: Path)
        ensures
            path@ == Seq::<Seq<u8>>::empty(),
    {
        Path { labels: Vec::new() }
    }

    /// The path that follows `labels` in order.
    pub fn from_labels(labels: Vec<Label>) -> (path: Path)
        ensures
            path@ == Seq::new(labels@.len(), |i: int| labels@[i]@),
    {
        Path { labels }
    }

    /// The path whose labels are the UTF-8 encodings of `segments`, in order.
    pub fn from_text_segments(segments: &[&str]) -> (path: Path)
        ensures
            path@ == Seq::new(segments@.len(), |i: int| encode_utf8(segments@[i]@)),
    {
        let mut labels: Vec<Label> = Vec::new();
        let mut i: usize = 0;
        while i < segments.len()
            invariant
                i <= segments.len(),
                labels@.len() == i,
                forall|j: int| 0 <= j < i ==> (#[trigger] labels@[j])@ == encode_utf8(segments@[j]@),
            decreases segments.len() - i,
        {
            labels.push(Label::from_text(segments[i]));
            i += 1;
        }
        Path { labels }
    }

    /// The path extended by one more label at its end.
    pub fn push(&mut self, label: Label)
        ensures
            final(self)@ == old(self)@.push(label@),
    {
        self.labels.push(label);
    }

    /// The number of labels.
    pub fn len(&self) -> (n: usize)
        ensures
            n == self@.len(),
    {
        self.labels.len()
    }

    /// The label at position `i`.
    pub fn label(&self, i: usize) -> (label: &Label)
        requires
            i < self@.len(),
        ensures
            label@ == self@[i as int],
    {
        &self.labels[i]
    }

    /// A second path with the same labels.
    pub fn duplicate(&self) -> (path: Path)
        ensures
            path@ == self@,
    {
        let mut labels: Vec<Label> = Vec::new();
        let mut i: usize = 0;
        while i < self.labels.len()
            invariant
                i <= self.labels.len(),
                labels@.len() == i,
                forall|j: int| 0 <= j < i ==> (#[trigger] labels@[j])@ == self.labels@[j]@,
            decreases self.labels.len() - i,
        {
            labels.push(self.labels[i].duplicate());
            i += 1;
        }
        Path { labels }
    }
}

} // verus!
