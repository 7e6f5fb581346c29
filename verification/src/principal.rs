//! Principals: the identifiers of canisters and subnets, and ranges of them.
//!
//! A principal is a byte string of at most 29 bytes. Principals are ordered
//! byte by byte; nothing else is computed on them. The text form of a
//! principal is made and read by `ic_agent`'s own `Principal`.

use vstd::prelude::*;
use vstd::slice::slice_to_vec;
use crate::bytes::{lex_le, lex_lt, lemma_lex_lt_asymmetric, order_bytes, Order};

verus! {

/// The greatest number of bytes in a principal.
pub const MAX_PRINCIPAL_BYTES: usize = 29;

/// The text form of the principal with these bytes, as `ic_agent` writes it.
pub uninterp spec fn principal_text(bytes: Seq<u8>) -> Seq<char>;

/// The bytes of the principal that `ic_agent` reads from this text, if it
/// reads one.
pub uninterp spec fn principal_of_text(text: Seq<char>) -> Option<Seq<u8>>;

/// Calls `Principal::from_slice(..).to_text()` of `ic_agent::ic_types`: the
/// result is the text form of the principal with these bytes. The outside
/// function panics on more than 29 bytes, which `requires` leaves out.
#[verifier::external_body]
fn text_of_bytes(bytes: &[u8]) -> (text: String)
    requires
        bytes@.len() <= MAX_PRINCIPAL_BYTES,
    ensures
        text@ == principal_text(bytes@),
{
    ic_agent::ic_types::Principal::from_slice(bytes).to_text()
}

/// Calls `Principal::from_text` of `ic_agent::ic_types`: the result holds the
/// bytes of the principal that was read, and is `None` where the outside
/// function refuses the text.
#[verifier::external_body]
fn bytes_of_text(text: &str) -> (bytes: Option<Vec<u8>>)
    ensures
        match bytes {
            None => principal_of_text(text@) is None,
            Some(b) => principal_of_text(text@) == Some(b@),
        },
{
    ic_agent::ic_types::Principal::from_text(text).ok().map(|p| p.as_slice().to_vec())
}

/// An identifier of a canister or a subnet.
#[derive(Debug, PartialEq, Eq)]
pub struct Principal {
    bytes: Vec<u8>,
}

impl Clone for Principal {
    fn clone(&self) -> (p: Principal)
        ensures
            p@ == self@,
    {
        self.duplicate()
    }
}

impl View for Principal {
    type V = Seq<u8>;

    closed spec fn view(&self) -> Seq<u8> {
        self.bytes@
    }
}

impl Principal {
    #[verifier::type_invariant]
    spec fn within_limit(self) -> bool {
        self.bytes@.len() <= MAX_PRINCIPAL_BYTES
    }

    /// The principal with these bytes, if they are at most 29.
    pub fn from_slice(bytes: &[u8]) -> (r: Option<Principal>)
        ensures
            match r {
                None => bytes@.len() > MAX_PRINCIPAL_BYTES,
                Some(p) => p@ == bytes@ && bytes@.len() <= MAX_PRINCIPAL_BYTES,
            },
    {
        if bytes.len() <= MAX_PRINCIPAL_BYTES {
            Some(Principal { bytes: slice_to_vec(bytes) })
        } else {
            None
        }
    }

    /// The principal that the text stands for, if it stands for one.
    pub fn from_text(text: &str) -> (r: Option<Principal>)
        ensures
            match r {
                None => !(principal_of_text(text@) matches Some(b) && b.len()
                    <= MAX_PRINCIPAL_BYTES),
                Some(p) => principal_of_text(text@) == Some(p@),
            },
    {
        match bytes_of_text(text) {
            None => None,
            Some(bytes) => Principal::from_slice(bytes.as_slice()),
        }
    }

    /// The text form of the principal.
    pub fn to_text(&self) -> (text: String)
        ensures
            text@ == principal_text(self@),
    {
        proof {
            use_type_invariant(self);
        }
        text_of_bytes(self.bytes.as_slice())
    }

    /// The bytes of the principal, of which there are at most 29.
    pub fn as_slice(&self) -> (bytes: &[u8])
        ensures
            bytes@ == self@,
            bytes@.len() <= MAX_PRINCIPAL_BYTES,
    {
        proof {
            use_type_invariant(self);
        }
        self.bytes.as_slice()
    }

    /// A second principal with the same bytes.
    pub fn duplicate(&self) -> (p: Principal)
        ensures
            p@ == self@,
    {
        proof {
            use_type_invariant(self);
        }
        Principal { bytes: slice_to_vec(self.bytes.as_slice()) }
    }

    /// How this principal stands to `other`, byte by byte.
    pub fn order(&self, other: &Principal) -> (r: Order)
        ensures
            r == Order::Before <==> lex_lt(self@, other@),
            r == Order::Same <==> self@ == other@,
            r == Order::After <==> lex_lt(other@, self@),
    {
        order_bytes(self.bytes.as_slice(), other.bytes.as_slice())
    }
}

/// The principals from `low` to `high`, both included.
#[derive(Debug, Clone, PartialEq, Eq)]
pub struct CanisterRange {
    pub low: Principal,
    pub high: Principal,
}

/// The bounds of a range, as byte strings.
pub struct RangeView {
    pub low: Seq<u8>,
    pub high: Seq<u8>,
}

impl RangeView {
    /// `id` lies in the range: it stands neither before `low` nor after `high`.
    pub open spec fn contains(self, id: Seq<u8>) -> bool {
        lex_le(self.low, id) && lex_le(id, self.high)
    }
}

impl View for CanisterRange {
    type V = RangeView;

    open spec fn view(&self) -> RangeView {
        RangeView { low: self.low@, high: self.high@ }
    }
}

/// `id` lies in one of the ranges.
pub open spec fn in_some_range(ranges: Seq<CanisterRange>, id: Seq<u8>) -> bool {
    exists|i: int| 0 <= i < ranges.len() && (#[trigger] ranges[i])@.contains(id)
}

impl CanisterRange {
    /// The range from `low` to `high`.
    pub fn new(low: Principal, high: Principal) -> (range: CanisterRange)
        ensures
            range@ == (RangeView { low: low@, high: high@ }),
    {
        CanisterRange { low, high }
    }

    /// Whether `id` lies in the range.
    pub fn contains(&self, id: &Principal) -> (inside: bool)
        ensures
            inside == self@.contains(id@),
    {
        let low = self.low.order(id);
        let high = id.order(&self.high);
        proof {
            if lex_lt(self.low@, id@) {
                lemma_lex_lt_asymmetric(self.low@, id@);
            }
            if lex_lt(id@, self.high@) {
                lemma_lex_lt_asymmetric(id@, self.high@);
            }
        }
        (low == Order::Before || low == Order::Same) && (high == Order::Before || high
            == Order::Same)
    }

    /// A second range with the same bounds.
    pub fn duplicate(&self) -> (range: CanisterRange)
        ensures
            range@ == self@,
    {
        CanisterRange { low: self.low.duplicate(), high: self.high.duplicate() }
    }
}

/// Whether `id` lies in one of `ranges`.
pub fn principal_in_ranges(id: &Principal, ranges: &Vec<CanisterRange>) -> (inside: bool)
    ensures
        inside == in_some_range(ranges@, id@),
{
    let mut i: usize = 0;
    while i < ranges.len()
        invariant
            i <= ranges.len(),
            forall|j: int| 0 <= j < i ==> !(#[trigger] ranges@[j])@.contains(id@),
        decreases ranges.len() - i,
    {
        if ranges[i].contains(id) {
            return true;
        }
        i += 1;
    }
    false
}

/// The lower bound of a range lies in it, where the range is not empty.
pub proof fn lemma_low_bound_inside(range: RangeView)
    requires
        lex_le(range.low, range.high),
    ensures
        range.contains(range.low),
{
}

/// The upper bound of a range lies in it, where the range is not empty.
pub proof fn lemma_high_bound_inside(range: RangeView)
    requires
        lex_le(range.low, range.high),
    ensures
        range.contains(range.high),
{
}

/// What stands before the lower bound of a range lies outside it.
pub proof fn lemma_below_low_bound_outside(range: RangeView, id: Seq<u8>)
    requires
        lex_lt(id, range.low),
    ensures
        !range.contains(id),
{
    lemma_lex_lt_asymmetric(id, range.low);
}

/// What stands after the upper bound of a range lies outside it.
pub proof fn lemma_above_high_bound_outside(range: RangeView, id: Seq<u8>)
    requires
        lex_lt(range.high, id),
    ensures
        !range.contains(id),
{
    lemma_lex_lt_asymmetric(range.high, id);
}

} // verus!
