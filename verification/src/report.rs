//! The skew of a local clock against the certified time, and the report made
//! for one entry of a routing table.
//!
//! The skew is the local time less the certified time, in nanoseconds, as a
//! signed number wide enough for every pair of times: it is positive where the
//! local clock is ahead.

use vstd::prelude::*;
use crate::certificate::{certified_time, certified_time_of, Certificate, CertificateView};
use crate::delegation::{
    delegation_of, nested_of, verify_delegation, verify_delegation_with, DelegationStatus,
};
use crate::error::{Failure, VerifyError};
use crate::principal::{CanisterRange, Principal, RangeView};

verus! {

/// One entry of a routing table: a subnet and a range of canisters that it
/// answers for.
#[derive(Debug, Clone, PartialEq, Eq)]
pub struct RoutingEntry {
    pub subnet_id: Principal,
    pub range: CanisterRange,
}

/// What was found for one entry of a routing table.
#[derive(Debug, Clone, PartialEq, Eq)]
pub struct SkewReport {
    /// The range of canisters of the entry.
    pub range: CanisterRange,
    /// Whether the certificate carried a delegation, and the ranges it certifies.
    pub delegation: DelegationStatus,
    /// The certified time, in nanoseconds since the Unix epoch.
    pub certified_time: u64,
    /// The local time, in nanoseconds since the Unix epoch.
    pub local_time: u64,
    /// The local time less the certified time, in nanoseconds.
    pub skew_nanos: i128,
}

/// The mathematical value of a [`SkewReport`].
pub struct ReportView {
    pub range: RangeView,
    pub delegation: Option<Seq<RangeView>>,
    pub certified_time: u64,
    pub local_time: u64,
    pub skew_nanos: int,
}

impl View for SkewReport {
    type V = ReportView;

    open spec fn view(&self) -> ReportView {
        ReportView {
            range: self.range@,
            delegation: self.delegation@,
            certified_time: self.certified_time,
            local_time: self.local_time,
            skew_nanos: self.skew_nanos as int,
        }
    }
}

/// The skew of a clock that reads `local_time` when `certified_time` is
/// certified.
pub open spec fn skew_of(certified_time: u64, local_time: u64) -> int {
    local_time - certified_time
}

/// The report for a certificate: its time is read first, then its delegation,
/// and the first failure is the failure of the whole.
pub open spec fn report_of(
    certificate: CertificateView,
    nested: Option<CertificateView>,
    subnet_id: Seq<u8>,
    range: RangeView,
    local_time: u64,
) -> Result<ReportView, Failure> {
    match certified_time_of(certificate.tree) {
        Err(failure) => Err(failure),
        Ok(time) => match delegation_of(certificate, nested, subnet_id) {
            Err(failure) => Err(failure),
            Ok(delegation) => Ok(
                ReportView {
                    range,
                    delegation,
                    certified_time: time,
                    local_time,
                    skew_nanos: skew_of(time, local_time),
                },
            ),
        },
    }
}

/// The skew changes its sign, and nothing else, when the two times change
/// places.
pub proof fn lemma_skew_flips(a: u64, b: u64)
    ensures
        skew_of(a, b) == -skew_of(b, a),
        skew_of(a, b) > 0 <==> b > a,
        skew_of(a, a) == 0,
{
}

/// The local time less the certified time, in nanoseconds.
pub fn skew_nanos(certified_time: u64, local_time: u64) -> (skew: i128)
    ensures
        skew == skew_of(certified_time, local_time),
{
    local_time as i128 - certified_time as i128
}

impl RoutingEntry {
    /// The canister to ask for a certificate: the first of the range.
    pub fn canister_id(&self) -> (id: Principal)
        ensures
            id@ == self.range@.low,
    {
        self.range.low.duplicate()
    }
}

/// Makes the report for one entry of a routing table, given what the bytes of
/// the delegation decode to.
///
/// `certificate` is the certificate that was fetched for a canister of the
/// entry, `nested` what the bytes of its delegation decode to (`None` where
/// they do not decode, or where there is none), and `local_time` a reading of
/// the local clock in nanoseconds since the Unix epoch. The time of the
/// certificate is read first and its delegation then: the report fails as the
/// first of the two that fails.
pub fn check_with(
    certificate: &Certificate,
    nested: Option<&Certificate>,
    entry: &RoutingEntry,
    local_time: u64,
) -> (r: Result<SkewReport, VerifyError>)
    ensures
        match r {
            Ok(report) => report_of(
                certificate@,
                match nested {
                    None => None,
                    Some(inner) => Some(inner@),
                },
                entry.subnet_id@,
                entry.range@,
                local_time,
            ) == Ok::<ReportView, Failure>(report@),
            Err(error) => report_of(
                certificate@,
                match nested {
                    None => None,
                    Some(inner) => Some(inner@),
                },
                entry.subnet_id@,
                entry.range@,
                local_time,
            ) == Err::<ReportView, Failure>(error@),
        },
{
    let time = match certified_time(certificate) {
        Ok(time) => time,
        Err(error) => {
            return Err(error);
        },
    };
    let delegation = match verify_delegation_with(certificate, nested, &entry.subnet_id) {
        Ok(delegation) => delegation,
        Err(error) => {
            return Err(error);
        },
    };
    Ok(
        SkewReport {
            range: entry.range.duplicate(),
            delegation,
            certified_time: time,
            local_time,
            skew_nanos: skew_nanos(time, local_time),
        },
    )
}

/// Makes the report for one entry of a routing table.
///
/// `certificate` is the certificate that was fetched for a canister of the
/// entry, and `local_time` a reading of the local clock in nanoseconds since
/// the Unix epoch. The time of the certificate is read first; then the bytes
/// of its delegation, if it has one, are decoded and the ranges of the subnet
/// of the entry read from them. The report fails as the first of these that
/// fails.
pub fn check(certificate: &Certificate, entry: &RoutingEntry, local_time: u64) -> (r: Result<
    SkewReport,
    VerifyError,
>)
    ensures
        match r {
            Ok(report) => report_of(
                certificate@,
                nested_of(certificate@),
                entry.subnet_id@,
                entry.range@,
                local_time,
            ) == Ok::<ReportView, Failure>(report@),
            Err(error) => report_of(
                certificate@,
                nested_of(certificate@),
                entry.subnet_id@,
                entry.range@,
                local_time,
            ) == Err::<ReportView, Failure>(error@),
        },
{
    let time = match certified_time(certificate) {
        Ok(time) => time,
        Err(error) => {
            return Err(error);
        },
    };
    let delegation = match verify_delegation(certificate, &entry.subnet_id) {
        Ok(delegation) => delegation,
        Err(error) => {
            return Err(error);
        },
    };
    Ok(
        SkewReport {
            range: entry.range.duplicate(),
            delegation,
            certified_time: time,
            local_time,
            skew_nanos: skew_nanos(time, local_time),
        },
    )
}

} // verus!
