//! Decisions of the reconciliation loop: restricting desired records to
//! the configured zone, locating the zone, interpreting the provider's
//! response envelope, and tracking the initial watch synchronisation.

use vstd::prelude::*;
use crate::record::{Record, record_views, Zone};
use crate::strutil::{has_suffix, str_eq, str_ends_with};

verus! {

/// Why a provider interaction failed: the provider reported failure in
/// its envelope, or the transport below it did.
#[derive(Debug, PartialEq, Eq)]
pub enum CfError {
    Api(String),
    Transport(String),
}

/// Interpret a provider response envelope: a payload exactly when the
/// provider reported success, its diagnostic otherwise.
pub fn envelope_result<T>(success: bool, result: Option<T>, errors: String) -> (r: Result<
    T,
    CfError,
>)
    requires
        success ==> result is Some,
    ensures
        success <==> r is Ok,
        r is Ok ==> result == Some(r.unwrap()),
        r is Err ==> (r matches Result::Err(CfError::Api(e)) && e@ == errors@),
{
    if success {
        match result {
            Some(v) => Ok(v),
            None => {
                proof {
                    assert(false);
                }
                Err(CfError::Api(errors))
            },
        }
    } else {
        Err(CfError::Api(errors))
    }
}

/// The records whose name ends with the zone name, kept in order.
pub open spec fn zone_filtered(rs: Seq<crate::record::RecordV>, zone: Seq<char>) -> Seq<
    crate::record::RecordV,
>
    decreases rs.len(),
{
    if rs.len() == 0 {
        Seq::empty()
    } else {
        zone_filtered(rs.drop_last(), zone) + if has_suffix(rs.last().name, zone) {
            seq![rs.last()]
        } else {
            Seq::empty()
        }
    }
}

/// Keep exactly the records whose name ends with the zone name, in order.
pub fn filter_zone_records(records: Vec<Record>, zone_name: &str) -> (out: Vec<Record>)
    ensures
        record_views(out@) == zone_filtered(record_views(records@), zone_name@),
{
    let ghost rv = record_views(records@);
    let mut out: Vec<Record> = Vec::new();
    let mut i: usize = 0;
    while i < records.len()
        invariant
            rv == record_views(records@),
            0 <= i <= records@.len(),
            record_views(out@) == zone_filtered(rv.take(i as int), zone_name@),
        decreases records@.len() - i,
    {
        proof {
            assert(rv.take(i + 1).drop_last() =~= rv.take(i as int));
            assert(rv.take(i + 1).last() == rv[i as int]);
        }
        if str_ends_with(records[i].name.as_str(), zone_name) {
            out.push(records[i].duplicate());
            proof {
                assert(record_views(out@) =~= zone_filtered(rv.take(i as int), zone_name@) + seq![
                    rv[i as int],
                ]);
            }
        }
        i += 1;
    }
    proof {
        assert(rv.take(rv.len() as int) =~= rv);
    }
    out
}

/// The first zone with the given name, if any.
pub fn find_zone(zones: &Vec<Zone>, zone_name: &str) -> (r: Option<usize>)
    ensures
        match r {
            Option::Some(i) => 0 <= i < zones@.len() && zones@[i as int].name@ == zone_name@
                && forall|j: int| 0 <= j < i ==> zones@[j].name@ != zone_name@,
            Option::None => forall|j: int| 0 <= j < zones@.len() ==> zones@[j].name@ != zone_name@,
        },
{
    let mut i: usize = 0;
    while i < zones.len()
        invariant
            0 <= i <= zones@.len(),
            forall|j: int| 0 <= j < i ==> zones@[j].name@ != zone_name@,
        decreases zones@.len() - i,
    {
        if str_eq(zones[i].name.as_str(), zone_name) {
            return Some(i);
        }
        i += 1;
    }
    None
}

/// Which watch kinds have delivered at least one event; the loop leaves
/// its initial state only when both have.
pub struct SyncTracker {
    pub ingress_seen: bool,
    pub service_seen: bool,
}

impl SyncTracker {
    /// Nothing seen yet.
    pub fn new() -> (t: SyncTracker)
        ensures
            !t.ingress_seen,
            !t.service_seen,
    {
        SyncTracker { ingress_seen: false, service_seen: false }
    }

    /// Note an event from the routing-rule watch.
    pub fn note_ingress(&mut self)
        ensures
            final(self).ingress_seen,
            final(self).service_seen == old(self).service_seen,
    {
        self.ingress_seen = true;
    }

    /// Note an event from the service watch.
    pub fn note_service(&mut self)
        ensures
            final(self).service_seen,
            final(self).ingress_seen == old(self).ingress_seen,
    {
        self.service_seen = true;
    }

    /// Whether every watch kind has delivered an event.
    pub fn ready(&self) -> (r: bool)
        ensures
            r == (self.ingress_seen && self.service_seen),
    {
        self.ingress_seen && self.service_seen
    }
}

} // verus!
