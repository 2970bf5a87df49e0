//! What the metrics of a compute replica record about a dataflow.

use crate::index::GlobalId;
use vstd::prelude::*;

verus! {

/// How the reconciliation of a dataflow ended.
#[derive(Clone, Copy, PartialEq, Eq, Structural, Debug)]
pub enum Reconciliation {
    /// The dataflow was reused.
    Reused,
    /// The dataflow was replaced because the new one is not compatible.
    Incompatible,
    /// The dataflow was replaced because it was compacted.
    Compacted,
    /// The dataflow was replaced because it serves a subscribe.
    Subscribe,
}

impl Reconciliation {
    /// The reason under which a replaced dataflow is counted; `None` for a
    /// dataflow that was reused.
    pub fn reason(&self) -> (r: Option<&'static str>)
        ensures
            match *self {
                Reconciliation::Reused => r is None,
                Reconciliation::Incompatible => r is Some && r.unwrap()@ == "incompatible"@,
                Reconciliation::Compacted => r is Some && r.unwrap()@ == "compacted"@,
                Reconciliation::Subscribe => r is Some && r.unwrap()@ == "subscribe"@,
            },
    {
        match self {
            Reconciliation::Reused => None,
            Reconciliation::Incompatible => Some("incompatible"),
            Reconciliation::Compacted => Some("compacted"),
            Reconciliation::Subscribe => Some("subscribe"),
        }
    }
}

/// The result of the reconciliation of a single dataflow: it is reused if
/// the given properties all hold, and else it is replaced for the reason
/// that belongs to the first property that does not hold.
pub fn record_dataflow_reconciliation(
    compatible: bool,
    uncompacted: bool,
    subscribe_free: bool,
) -> (r: Reconciliation)
    ensures
        r == if !compatible {
            Reconciliation::Incompatible
        } else if !uncompacted {
            Reconciliation::Compacted
        } else if !subscribe_free {
            Reconciliation::Subscribe
        } else {
            Reconciliation::Reused
        },
{
    if !compatible {
        Reconciliation::Incompatible
    } else if !uncompacted {
        Reconciliation::Compacted
    } else if !subscribe_free {
        Reconciliation::Subscribe
    } else {
        Reconciliation::Reused
    }
}

/// Whether metrics are collected for the collection: only for collections
/// that outlive a query, so that the number of time series stays small.
pub fn for_collection(collection_id: GlobalId) -> (r: bool)
    ensures
        r == !(collection_id is Transient),
{
    !collection_id.is_transient()
}

} // verus!
