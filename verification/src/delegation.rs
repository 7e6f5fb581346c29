//! Delegations: which canisters a subnet may certify for.
//!
//! A certificate of a subnet other than the root carries a delegation: the
//! bytes of a second certificate, given by the root, whose tree holds the
//! canister ranges of the subnet at the path `subnet`, the identifier of the
//! subnet, `canister_ranges`. The ranges stand there in CBOR, as a sequence of
//! pairs of principals, which `serde_cbor` reads.
//!
//! A certificate without a delegation is no failure. A delegation within the
//! certificate of a delegation is one: the chain is one step long.

use vstd::prelude::*;
use vstd::utf8::encode_utf8;
use crate::certificate::{lookup_value, value_at, Certificate, CertificateView};
use crate::error::{Failure, VerifyError};
use crate::label::{Label, Path};
use crate::wire::{certificate_of, decode_certificate};
use crate::principal::{
    in_some_range, principal_in_ranges, CanisterRange, Principal, RangeView,
    MAX_PRINCIPAL_BYTES,
};

verus! {

/// The pairs of principals that `serde_cbor` reads from these bytes, each
/// principal as its bytes, if it reads a sequence of such pairs.
pub uninterp spec fn cbor_principal_pairs(bytes: Seq<u8>) -> Option<Seq<(Seq<u8>, Seq<u8>)>>;

/// The byte strings of a sequence of pairs of byte vectors.
pub open spec fn pairs_view(pairs: Seq<(Vec<u8>, Vec<u8>)>) -> Seq<(Seq<u8>, Seq<u8>)> {
    Seq::new(pairs.len(), |i: int| (pairs[i].0@, pairs[i].1@))
}

/// Calls `serde_cbor::from_slice` for a `Vec` of pairs of `ic_agent`'s
/// `Principal`, and hands each principal out as its bytes: the result holds
/// the pairs that were read, and is `None` where the outside function fails.
#[verifier::external_body]
fn pairs_from_cbor(bytes: &[u8]) -> (r: Option<Vec<(Vec<u8>, Vec<u8>)>>)
    ensures
        match r {
            None => cbor_principal_pairs(bytes@) is None,
            Some(pairs) => cbor_principal_pairs(bytes@) == Some(pairs_view(pairs@)),
        },
{
    let pairs: Vec<(ic_agent::ic_types::Principal, ic_agent::ic_types::Principal)> =
        serde_cbor::from_slice(bytes).ok()?;
    Some(pairs.iter().map(|p| (p.0.as_slice().to_vec(), p.1.as_slice().to_vec())).collect())
}

/// What a certificate says of delegation.
#[derive(Debug, Clone, PartialEq, Eq)]
pub enum DelegationStatus {
    /// The certificate carries no delegation.
    NoDelegation,
    /// The certificate carries a delegation, which certifies these ranges.
    Delegated(Vec<CanisterRange>),
}

/// The bounds of a sequence of ranges.
pub open spec fn ranges_view(ranges: Seq<CanisterRange>) -> Seq<RangeView> {
    Seq::new(ranges.len(), |i: int| ranges[i]@)
}

impl View for DelegationStatus {
    type V = Option<Seq<RangeView>>;

    open spec fn view(&self) -> Option<Seq<RangeView>> {
        match self {
            DelegationStatus::NoDelegation => None,
            DelegationStatus::Delegated(ranges) => Some(ranges_view(ranges@)),
        }
    }
}

/// The path at which the certificate of a delegation holds the canister ranges
/// of the subnet with the raw identifier `subnet_id`.
pub open spec fn ranges_path(subnet_id: Seq<u8>) -> Seq<Seq<u8>> {
    seq![encode_utf8("subnet"@), subnet_id, encode_utf8("canister_ranges"@)]
}

/// Every principal of the pairs has at most 29 bytes.
pub open spec fn pairs_fit(pairs: Seq<(Seq<u8>, Seq<u8>)>) -> bool {
    forall|i: int|
        0 <= i < pairs.len() ==> (#[trigger] pairs[i]).0.len() <= MAX_PRINCIPAL_BYTES
            && pairs[i].1.len() <= MAX_PRINCIPAL_BYTES
}

/// The ranges that decoded pairs stand for, where the bytes they were decoded
/// from had the length `len`: one range for each pair, in order.
pub open spec fn ranges_of_pairs(pairs: Option<Seq<(Seq<u8>, Seq<u8>)>>, len: nat) -> Result<
    Seq<RangeView>,
    Failure,
> {
    match pairs {
        Some(ps) if pairs_fit(ps) => Ok(
            Seq::new(ps.len(), |i: int| RangeView { low: ps[i].0, high: ps[i].1 }),
        ),
        _ => Err(Failure::MalformedRanges { len }),
    }
}

/// The ranges that the bytes of a `canister_ranges` value stand for.
pub open spec fn ranges_of(blob: Seq<u8>) -> Result<Seq<RangeView>, Failure> {
    ranges_of_pairs(cbor_principal_pairs(blob), blob.len())
}

/// The ranges that the certificate of a delegation certifies for a subnet.
pub open spec fn delegated_ranges_of(nested: CertificateView, subnet_id: Seq<u8>) -> Result<
    Seq<RangeView>,
    Failure,
> {
    if nested.delegation is Some {
        Err(Failure::NestedDelegation)
    } else {
        match value_at(nested.tree, ranges_path(subnet_id)) {
            Ok(blob) => ranges_of(blob),
            Err(failure) => Err(failure),
        }
    }
}

/// What a certificate says of delegation, where `nested` is what the bytes of
/// its delegation decode to, and `None` where they do not decode.
pub open spec fn delegation_of(
    certificate: CertificateView,
    nested: Option<CertificateView>,
    subnet_id: Seq<u8>,
) -> Result<Option<Seq<RangeView>>, Failure> {
    match certificate.delegation {
        None => Ok(None),
        Some(delegation) => match nested {
            None => Err(Failure::MalformedDelegation { len: delegation.certificate.len() }),
            Some(inner) => match delegated_ranges_of(inner, subnet_id) {
                Ok(ranges) => Ok(Some(ranges)),
                Err(failure) => Err(failure),
            },
        },
    }
}

/// No delegation is no failure: a certificate without a delegation says so,
/// whatever is handed in for the certificate of its delegation, and never
/// fails with `MalformedDelegation`.
pub proof fn lemma_no_delegation_is_no_failure(
    certificate: CertificateView,
    nested: Option<CertificateView>,
    subnet_id: Seq<u8>,
)
    requires
        certificate.delegation is None,
    ensures
        delegation_of(certificate, nested, subnet_id) == Ok::<Option<Seq<RangeView>>, Failure>(
            None,
        ),
{
}

/// A delegation is told from its absence: a certificate with a delegation
/// never says `NoDelegation`, it gives ranges or fails.
pub proof fn lemma_delegation_is_told(
    certificate: CertificateView,
    nested: Option<CertificateView>,
    subnet_id: Seq<u8>,
)
    requires
        certificate.delegation is Some,
    ensures
        delegation_of(certificate, nested, subnet_id) != Ok::<Option<Seq<RangeView>>, Failure>(
            None,
        ),
        nested is None ==> delegation_of(certificate, nested, subnet_id) is Err,
{
}

/// The path `subnet`, `subnet_id`, `canister_ranges`. The identifier goes in
/// as its raw bytes, not as its text.
pub fn path_of_ranges(subnet_id: &Principal) -> (path: Path)
    ensures
        path@ == ranges_path(subnet_id@),
{
    let mut path = Path::new();
    path.push(Label::from_text("subnet"));
    path.push(Label::from_principal(subnet_id));
    path.push(Label::from_text("canister_ranges"));
    proof {
        assert(path@ =~= ranges_path(subnet_id@));
    }
    path
}

/// Turns decoded pairs into ranges.
///
/// `pairs` is what the bytes of a `canister_ranges` value decoded to, `None`
/// where they did not decode, and `len` the length of those bytes. Fails with
/// `MalformedRanges` where there are no pairs and where a principal among them
/// has more than 29 bytes.
pub fn ranges_from_pairs(pairs: Option<Vec<(Vec<u8>, Vec<u8>)>>, len: usize) -> (r: Result<
    Vec<CanisterRange>,
    VerifyError,
>)
    ensures
        match r {
            Ok(ranges) => ranges_of_pairs(
                match pairs {
                    None => None,
                    Some(ps) => Some(pairs_view(ps@)),
                },
                len as nat,
            ) == Ok::<Seq<RangeView>, Failure>(ranges_view(ranges@)),
            Err(error) => ranges_of_pairs(
                match pairs {
                    None => None,
                    Some(ps) => Some(pairs_view(ps@)),
                },
                len as nat,
            ) == Err::<Seq<RangeView>, Failure>(error@),
        },
{
    let decoded = match pairs {
        None => {
            return Err(VerifyError::MalformedRanges { len });
        },
        Some(decoded) => decoded,
    };
    let ghost views = pairs_view(decoded@);
    let mut ranges: Vec<CanisterRange> = Vec::new();
    let mut i: usize = 0;
    while i < decoded.len()
        invariant
            i <= decoded.len(),
            pairs == Some(decoded),
            views == pairs_view(decoded@),
            ranges@.len() == i,
            forall|j: int|
                0 <= j < i ==> (#[trigger] views[j]).0.len() <= MAX_PRINCIPAL_BYTES
                    && views[j].1.len() <= MAX_PRINCIPAL_BYTES,
            forall|j: int|
                0 <= j < i ==> (#[trigger] ranges@[j])@ == (RangeView {
                    low: views[j].0,
                    high: views[j].1,
                }),
        decreases decoded.len() - i,
    {
        let low = Principal::from_slice(decoded[i].0.as_slice());
        let high = Principal::from_slice(decoded[i].1.as_slice());
        match (low, high) {
            (Some(low), Some(high)) => {
                ranges.push(CanisterRange::new(low, high));
            },
            _ => {
                proof {
                    let bad = views[i as int];
                    assert(bad.0.len() > MAX_PRINCIPAL_BYTES || bad.1.len() > MAX_PRINCIPAL_BYTES);
                    assert(!pairs_fit(views));
                }
                return Err(VerifyError::MalformedRanges { len });
            },
        }
        i += 1;
    }
    proof {
        assert(pairs_fit(views));
        assert(ranges_view(ranges@) =~= Seq::new(
            views.len(),
            |i: int| RangeView { low: views[i].0, high: views[i].1 },
        ));
    }
    Ok(ranges)
}

/// Reads the ranges in the bytes of a `canister_ranges` value.
///
/// Fails with `MalformedRanges` where the bytes do not decode to a sequence of
/// pairs of principals.
pub fn decode_ranges(blob: &[u8]) -> (r: Result<Vec<CanisterRange>, VerifyError>)
    ensures
        match r {
            Ok(ranges) => ranges_of(blob@) == Ok::<Seq<RangeView>, Failure>(ranges_view(ranges@)),
            Err(error) => ranges_of(blob@) == Err::<Seq<RangeView>, Failure>(error@),
        },
{
    ranges_from_pairs(pairs_from_cbor(blob), blob.len())
}

/// Reads the ranges that the certificate of a delegation certifies for the
/// subnet `subnet_id`.
///
/// Fails with `NestedDelegation` where that certificate carries a delegation
/// itself, as the lookup of the ranges fails, and with `MalformedRanges` where
/// the value that was found holds no ranges.
pub fn delegated_ranges(nested: &Certificate, subnet_id: &Principal) -> (r: Result<
    Vec<CanisterRange>,
    VerifyError,
>)
    ensures
        match r {
            Ok(ranges) => delegated_ranges_of(nested@, subnet_id@) == Ok::<
                Seq<RangeView>,
                Failure,
            >(ranges_view(ranges@)),
            Err(error) => delegated_ranges_of(nested@, subnet_id@) == Err::<
                Seq<RangeView>,
                Failure,
            >(error@),
        },
{
    if nested.delegation.is_some() {
        return Err(VerifyError::NestedDelegation);
    }
    let path = path_of_ranges(subnet_id);
    match lookup_value(nested, &path) {
        Ok(blob) => decode_ranges(blob),
        Err(error) => Err(error),
    }
}

/// Says what a certificate holds of delegation, given what the bytes of the
/// delegation decode to.
///
/// `nested` is the certificate that the bytes of the delegation decode to, and
/// `None` where they do not decode; it is not looked at where the certificate
/// carries no delegation. Gives `NoDelegation` for a certificate without one,
/// and never fails on it. Fails with `MalformedDelegation` where there is a
/// delegation and `nested` is `None`, and else as `delegated_ranges` fails.
pub fn verify_delegation_with(
    certificate: &Certificate,
    nested: Option<&Certificate>,
    subnet_id: &Principal,
) -> (r: Result<DelegationStatus, VerifyError>)
    ensures
        match r {
            Ok(status) => delegation_of(
                certificate@,
                match nested {
                    None => None,
                    Some(inner) => Some(inner@),
                },
                subnet_id@,
            ) == Ok::<Option<Seq<RangeView>>, Failure>(status@),
            Err(error) => delegation_of(
                certificate@,
                match nested {
                    None => None,
                    Some(inner) => Some(inner@),
                },
                subnet_id@,
            ) == Err::<Option<Seq<RangeView>>, Failure>(error@),
        },
        certificate.delegation is None ==> r == Ok::<DelegationStatus, VerifyError>(
            DelegationStatus::NoDelegation,
        ),
{
    match &certificate.delegation {
        None => Ok(DelegationStatus::NoDelegation),
        Some(delegation) => match nested {
            None => Err(VerifyError::MalformedDelegation { len: delegation.certificate.len() }),
            Some(inner) => match delegated_ranges(inner, subnet_id) {
                Ok(ranges) => Ok(DelegationStatus::Delegated(ranges)),
                Err(error) => Err(error),
            },
        },
    }
}

/// The certificate that the delegation of a certificate decodes to.
pub open spec fn nested_of(certificate: CertificateView) -> Option<CertificateView> {
    match certificate.delegation {
        None => None,
        Some(delegation) => certificate_of(delegation.certificate),
    }
}

/// Says what a certificate holds of delegation.
///
/// Gives `NoDelegation` for a certificate without one, and never fails on it.
/// The bytes of a delegation are decoded once. Fails with
/// `MalformedDelegation` where they hold no certificate, and else as
/// `delegated_ranges` fails on the certificate they hold.
pub fn verify_delegation(certificate: &Certificate, subnet_id: &Principal) -> (r: Result<
    DelegationStatus,
    VerifyError,
>)
    ensures
        match r {
            Ok(status) => delegation_of(certificate@, nested_of(certificate@), subnet_id@) == Ok::<
                Option<Seq<RangeView>>,
                Failure,
            >(status@),
            Err(error) => delegation_of(certificate@, nested_of(certificate@), subnet_id@) == Err::<
                Option<Seq<RangeView>>,
                Failure,
            >(error@),
        },
        certificate.delegation is None ==> r == Ok::<DelegationStatus, VerifyError>(
            DelegationStatus::NoDelegation,
        ),
{
    match &certificate.delegation {
        None => Ok(DelegationStatus::NoDelegation),
        Some(delegation) => match decode_certificate(delegation.certificate.as_slice()) {
            None => verify_delegation_with(certificate, None, subnet_id),
            Some(nested) => verify_delegation_with(certificate, Some(&nested), subnet_id),
        },
    }
}

/// Checks that one of the certified ranges holds the canister.
///
/// Fails with `SubnetRangeMismatch`, which names the canister, where none
/// does.
pub fn check_subnet_range(canister_id: &Principal, ranges: &Vec<CanisterRange>) -> (r: Result<
    (),
    VerifyError,
>)
    ensures
        r is Ok <==> in_some_range(ranges@, canister_id@),
        r matches Err(error) ==> error@ == (Failure::SubnetRangeMismatch {
            canister_id: canister_id@,
        }),
{
    if principal_in_ranges(canister_id, ranges) {
        Ok(())
    } else {
        Err(VerifyError::SubnetRangeMismatch { canister_id: canister_id.duplicate() })
    }
}

} // verus!
