//! Trace entries: raw records as logged, and the reduced form the traffic
//! matrix is built from. Only records that stay inside the cluster and have
//! every rack and pod field populated are used.

use vstd::prelude::*;

verus! {

/// A raw trace record. Fields holding the marker string `\N` were not
/// populated by the tracer.
#[derive(Clone, Debug)]
pub struct FullEntry {
    pub timestamp: u64,
    pub packetlength: u64,
    pub srcip: String,
    pub dstip: String,
    pub srcport: String,
    pub dstport: String,
    pub ipprotocol: String,
    pub srchostprefix: String,
    pub dsthostprefix: String,
    pub srcrack: String,
    pub dstrack: String,
    pub srcpod: String,
    pub dstpod: String,
    pub intercluster: bool,
    pub interdatacenter: bool,
}

/// The fields of a usable record that the traffic matrix reads.
#[derive(Clone, Debug)]
pub struct Entry {
    pub timestamp: u64,
    pub srcip: String,
    pub dstip: String,
    pub srcrack: String,
    pub dstrack: String,
    pub srcpod: String,
    pub dstpod: String,
}

/// The marker that stands in a field the tracer could not populate.
pub open spec fn missing_marker() -> Seq<char> {
    "\\N"@
}

impl FullEntry {
    /// The record describes traffic that stays inside one cluster.
    pub open spec fn spec_is_intracluster(self) -> bool {
        !(self.intercluster || self.interdatacenter)
    }

    /// Every endpoint, rack and pod field is populated.
    pub open spec fn spec_is_valid_enough(self) -> bool {
        &&& self.srcip@ != missing_marker()
        &&& self.dstip@ != missing_marker()
        &&& self.srcrack@ != missing_marker()
        &&& self.dstrack@ != missing_marker()
        &&& self.srcpod@ != missing_marker()
        &&& self.dstpod@ != missing_marker()
    }

    pub fn is_intracluster(&self) -> (r: bool)
        ensures
            r == self.spec_is_intracluster(),
    {
        !(self.intercluster || self.interdatacenter)
    }

    pub fn is_valid_enough(&self) -> (r: bool)
        ensures
            r == self.spec_is_valid_enough(),
    {
        let s: String = "\\N".to_owned();
        !(self.srcip == s || self.dstip == s || self.srcrack == s || self.dstrack == s
            || self.srcpod == s || self.dstpod == s)
    }

    /// Reduces the record to the fields the traffic matrix reads, or `None`
    /// when the record crosses the cluster or misses a rack or pod field.
    pub fn into_entry(self) -> (r: Option<Entry>)
        ensures
            (r is Some) == (self.spec_is_intracluster() && self.spec_is_valid_enough()),
            r matches Some(e) ==> {
                &&& e.timestamp == self.timestamp
                &&& e.srcip@ == self.srcip@
                &&& e.dstip@ == self.dstip@
                &&& e.srcrack@ == self.srcrack@
                &&& e.dstrack@ == self.dstrack@
                &&& e.srcpod@ == self.srcpod@
                &&& e.dstpod@ == self.dstpod@
            },
    {
        if self.is_intracluster() && self.is_valid_enough() {
            Some(
                Entry {
                    timestamp: self.timestamp,
                    srcip: self.srcip,
                    dstip: self.dstip,
                    srcrack: self.srcrack,
                    dstrack: self.dstrack,
                    srcpod: self.srcpod,
                    dstpod: self.dstpod,
                },
            )
        } else {
            None
        }
    }
}

} // verus!
