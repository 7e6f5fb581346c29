//! Certificates as they come over the wire.
//!
//! The wire form of a certificate is CBOR: a map that holds the tree, the
//! signature and, for a subnet other than the root, the delegation. It is read
//! by `serde_cbor` into `ic_agent`'s `Certificate`, which keeps its tree to
//! itself; the tree is handed on in the bytes that `serde_cbor` writes for it,
//! and read from those bytes here.

use vstd::prelude::*;
use vstd::slice::slice_to_vec;
use crate::certificate::{Certificate, CertificateView, Delegation, DelegationView};
use crate::tree_codec::{decode_tree, tree_of};

verus! {

/// The parts of the certificate that `serde_cbor` reads from these bytes, if
/// it reads one: the bytes that it writes for the tree, the signature, and the
/// identifier and the certificate bytes of the delegation.
pub uninterp spec fn cbor_certificate(bytes: Seq<u8>) -> Option<
    (Seq<u8>, Seq<u8>, Option<(Seq<u8>, Seq<u8>)>),
>;

/// The byte strings of the parts of a certificate.
pub open spec fn parts_view(parts: (Vec<u8>, Vec<u8>, Option<(Vec<u8>, Vec<u8>)>)) -> (
    Seq<u8>,
    Seq<u8>,
    Option<(Seq<u8>, Seq<u8>)>,
) {
    (
        parts.0@,
        parts.1@,
        match parts.2 {
            None => None,
            Some(d) => Some((d.0@, d.1@)),
        },
    )
}

/// Calls `serde_cbor::from_slice` for `ic_agent`'s `Certificate`, and
/// `serde_cbor::to_vec` on the tree of what was read: the result holds the
/// parts of the certificate, the tree as the bytes written for it, and is
/// `None` where the outside functions fail.
#[verifier::external_body]
fn parts_from_cbor(bytes: &[u8]) -> (r: Option<(Vec<u8>, Vec<u8>, Option<(Vec<u8>, Vec<u8>)>)>)
    ensures
        match r {
            None => cbor_certificate(bytes@) is None,
            Some(parts) => cbor_certificate(bytes@) == Some(parts_view(parts)),
        },
{
    let read: ic_agent::Certificate = serde_cbor::from_slice(bytes).ok()?;
    let tree = serde_cbor::to_vec(&read.tree).ok()?;
    Some((tree, read.signature, read.delegation.map(|d| (d.subnet_id, d.certificate))))
}

/// The certificate with these parts, where `tree` are the bytes of its tree.
pub open spec fn certificate_of_parts(
    tree: Seq<u8>,
    signature: Seq<u8>,
    delegation: Option<DelegationView>,
) -> Option<CertificateView> {
    match tree_of(tree) {
        None => None,
        Some(t) => Some(CertificateView { tree: t, signature, delegation }),
    }
}

/// The certificate that these bytes are the wire form of.
pub open spec fn certificate_of(bytes: Seq<u8>) -> Option<CertificateView> {
    match cbor_certificate(bytes) {
        None => None,
        Some((tree, signature, delegation)) => certificate_of_parts(
            tree,
            signature,
            match delegation {
                None => None,
                Some((subnet_id, certificate)) => Some(DelegationView { subnet_id, certificate }),
            },
        ),
    }
}

/// Makes a certificate of its parts, where `tree` are the bytes of its tree.
///
/// Gives `None` where `tree` does not hold the encoding of a tree and nothing
/// else.
pub fn certificate_from_parts(
    tree: &[u8],
    signature: Vec<u8>,
    delegation: Option<Delegation>,
) -> (r: Option<Certificate>)
    ensures
        match r {
            None => certificate_of_parts(
                tree@,
                signature@,
                match delegation {
                    None => None,
                    Some(d) => Some(d@),
                },
            ) is None,
            Some(c) => certificate_of_parts(
                tree@,
                signature@,
                match delegation {
                    None => None,
                    Some(d) => Some(d@),
                },
            ) == Some(c@),
        },
{
    match decode_tree(tree) {
        None => None,
        Some(tree) => Some(Certificate { tree, signature, delegation }),
    }
}

/// Reads a certificate from its wire form.
///
/// Gives `None` where the bytes do not hold a certificate.
pub fn decode_certificate(bytes: &[u8]) -> (r: Option<Certificate>)
    ensures
        match r {
            None => certificate_of(bytes@) is None,
            Some(c) => certificate_of(bytes@) == Some(c@),
        },
{
    match parts_from_cbor(bytes) {
        None => None,
        Some((tree, signature, delegation)) => {
            let delegation = match delegation {
                None => None,
                Some((subnet_id, certificate)) => Some(Delegation { subnet_id, certificate }),
            };
            certificate_from_parts(tree.as_slice(), signature, delegation)
        },
    }
}

} // verus!
