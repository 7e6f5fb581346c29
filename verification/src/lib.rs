//! The certified time of the subnets of a replicated ledger, read from
//! hash-tree certificates, and its distance from a local clock.
//!
//! A certificate holds a hash tree, in which values stand under paths of
//! labels and subtrees may be pruned down to their digest. This library looks
//! paths up in such trees, reads the time that a certificate certifies, reads
//! the canister ranges that a delegation certifies for a subnet, and puts the
//! findings for one entry of a routing table into a report. It fetches
//! nothing, keeps no state and reads no clock: every function works on the
//! values it is handed.
//!
//! - [`bytes`]: the order of byte strings.
//! - [`label`]: labels and paths.
//! - [`principal`]: principals and ranges of them.
//! - [`tree`]: the hash tree and the lookup of a path.
//! - [`lookup_laws`]: what holds of every lookup.
//! - [`tree_codec`]: the bytes of a tree.
//! - [`varint`]: unsigned LEB128.
//! - [`error`]: the failures.
//! - [`certificate`]: certificates and their time.
//! - [`wire`]: certificates as they come over the wire.
//! - [`delegation`]: delegations and canister ranges.
//! - [`report`]: the skew and the report.

pub mod bytes;
pub mod certificate;
pub mod delegation;
pub mod error;
pub mod label;
pub mod lookup_laws;
pub mod principal;
pub mod report;
pub mod tree;
pub mod tree_codec;
pub mod varint;
pub mod wire;

pub use crate::certificate::{certified_time, lookup_value, Certificate, Delegation};
pub use crate::delegation::{verify_delegation, DelegationStatus};
pub use crate::error::VerifyError;
pub use crate::label::{Label, Path};
pub use crate::principal::{CanisterRange, Principal};
pub use crate::report::{check, RoutingEntry, SkewReport};
pub use crate::tree::{HashTree, LookupResult};
