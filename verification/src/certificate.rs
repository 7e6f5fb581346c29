//! Certificates: a hash tree, a signature and at most one delegation.
//!
//! A certificate is made once and read from then on. The value at a path is
//! looked up in its tree; the certified time stands at the path `time`, as an
//! unsigned LEB128 number of nanoseconds since the Unix epoch.

use vstd::prelude::*;
use vstd::utf8::encode_utf8;
use crate::error::{Failure, VerifyError};
use crate::label::{Label, Path};
use crate::lookup_laws::{
    leads_to, lemma_present_is_found, lemma_pruned_below_is_unknown, lemma_pruned_is_unknown,
    pruned_only,
};
use crate::tree::{lookup, well_formed, HashTree, Lookup, LookupResult, Tree};
use crate::varint::{decode_u64, decode_unsigned};

verus! {

/// The word of a subnet that answers for some canisters in place of the root:
/// the identifier of the subnet, and the bytes of the certificate that the
/// root gave it.
#[derive(Debug, Clone, PartialEq, Eq)]
pub struct Delegation {
    pub subnet_id: Vec<u8>,
    pub certificate: Vec<u8>,
}

/// The mathematical value of a [`Delegation`].
pub struct DelegationView {
    pub subnet_id: Seq<u8>,
    pub certificate: Seq<u8>,
}

impl View for Delegation {
    type V = DelegationView;

    open spec fn view(&self) -> DelegationView {
        DelegationView { subnet_id: self.subnet_id@, certificate: self.certificate@ }
    }
}

/// A certified part of the state of a subnet.
#[derive(Debug, Clone, PartialEq, Eq)]
pub struct Certificate {
    pub tree: HashTree,
    pub signature: Vec<u8>,
    pub delegation: Option<Delegation>,
}

/// The mathematical value of a [`Certificate`].
pub struct CertificateView {
    pub tree: Tree,
    pub signature: Seq<u8>,
    pub delegation: Option<DelegationView>,
}

impl View for Certificate {
    type V = CertificateView;

    open spec fn view(&self) -> CertificateView {
        CertificateView {
            tree: self.tree@,
            signature: self.signature@,
            delegation: match self.delegation {
                None => None,
                Some(d) => Some(d@),
            },
        }
    }
}

/// The value at `path` in `tree`, or the failure that names the path.
pub open spec fn value_at(tree: Tree, path: Seq<Seq<u8>>) -> Result<Seq<u8>, Failure> {
    match lookup(tree, path) {
        Lookup::Found(value) => Ok(value),
        Lookup::Absent => Err(Failure::PathAbsent(path)),
        Lookup::Unknown => Err(Failure::PathUnknown(path)),
        Lookup::Error => Err(Failure::PathError(path)),
    }
}

/// The path at which a certificate holds its time.
pub open spec fn time_path() -> Seq<Seq<u8>> {
    seq![encode_utf8("time"@)]
}

/// The time that the bytes of a time value stand for: the number of 64 bits at
/// their start, whatever follows it.
pub open spec fn time_of(bytes: Seq<u8>) -> Result<u64, Failure> {
    match decode_u64(bytes) {
        Some((time, _)) => Ok(time),
        None => Err(Failure::MalformedTime { len: bytes.len() }),
    }
}

/// The time that a tree certifies. Where the lookup of the time fails, so does
/// this, with the failure of the lookup: the bytes are decoded only where they
/// were found.
pub open spec fn certified_time_of(tree: Tree) -> Result<u64, Failure> {
    match value_at(tree, time_path()) {
        Ok(bytes) => time_of(bytes),
        Err(failure) => Err(failure),
    }
}

/// A pruned time is unknown, and is not decoded: in a well-formed tree where
/// the path `time` leads to a pruned digest, and in a tree of pruned digests,
/// the certified time fails with `PathUnknown` and the path.
pub proof fn lemma_pruned_time_is_unknown(tree: Tree, end: Tree)
    requires
        pruned_only(end),
        (well_formed(tree) && leads_to(tree, time_path(), end) && end is Pruned) || tree == end,
    ensures
        certified_time_of(tree) == Err::<u64, Failure>(Failure::PathUnknown(time_path())),
{
    if tree == end {
        lemma_pruned_is_unknown(tree, time_path());
    } else {
        lemma_pruned_below_is_unknown(tree, time_path(), Seq::empty(), end);
        assert(time_path() + Seq::<Seq<u8>>::empty() =~= time_path());
    }
}

/// A time that is present is read: in a well-formed tree where the path `time`
/// leads to a leaf, the certified time is what the bytes of the leaf decode
/// to.
pub proof fn lemma_present_time_is_read(tree: Tree, bytes: Seq<u8>)
    requires
        well_formed(tree),
        leads_to(tree, time_path(), Tree::Leaf(bytes)),
    ensures
        certified_time_of(tree) == time_of(bytes),
{
    lemma_present_is_found(tree, time_path(), bytes);
}

/// Looks up the value at `path` in the tree of the certificate.
///
/// Gives the bytes of the value where the lookup finds them, and else the
/// failure that says how the lookup ended, with the path.
pub fn lookup_value<'a>(certificate: &'a Certificate, path: &Path) -> (r: Result<
    &'a [u8],
    VerifyError,
>)
    ensures
        match r {
            Ok(value) => value_at(certificate@.tree, path@) == Ok::<Seq<u8>, Failure>(value@),
            Err(error) => value_at(certificate@.tree, path@) == Err::<Seq<u8>, Failure>(error@),
        },
{
    match certificate.tree.lookup_path(path) {
        LookupResult::Found(value) => Ok(value),
        LookupResult::Absent => Err(VerifyError::PathAbsent(path.duplicate())),
        LookupResult::Unknown => Err(VerifyError::PathUnknown(path.duplicate())),
        LookupResult::Error => Err(VerifyError::PathError(path.duplicate())),
    }
}

/// The path `time`.
pub fn path_of_time() -> (path: Path)
    ensures
        path@ == time_path(),
{
    let mut path = Path::new();
    path.push(Label::from_text("time"));
    proof {
        assert(path@ =~= time_path());
    }
    path
}

/// Reads the time at the start of `bytes`.
///
/// Fails with `MalformedTime` where the bytes do not start with an unsigned
/// LEB128 number of 64 bits: where they end before the number does, where the
/// number takes more than ten bytes, and where it does not fit.
pub fn decode_time(bytes: &[u8]) -> (r: Result<u64, VerifyError>)
    ensures
        match r {
            Ok(time) => time_of(bytes@) == Ok::<u64, Failure>(time),
            Err(error) => time_of(bytes@) == Err::<u64, Failure>(error@),
        },
{
    match decode_unsigned(bytes) {
        Some((time, _)) => Ok(time),
        None => Err(VerifyError::MalformedTime { len: bytes.len() }),
    }
}

/// Reads the time that the certificate certifies.
///
/// Fails as the lookup of `time` fails, and with `MalformedTime` where the
/// value that was found does not start with a number.
pub fn certified_time(certificate: &Certificate) -> (r: Result<u64, VerifyError>)
    ensures
        match r {
            Ok(time) => certified_time_of(certificate@.tree) == Ok::<u64, Failure>(time),
            Err(error) => certified_time_of(certificate@.tree) == Err::<u64, Failure>(error@),
        },
{
    let path = path_of_time();
    match lookup_value(certificate, &path) {
        Ok(bytes) => decode_time(bytes),
        Err(error) => Err(error),
    }
}

} // verus!
