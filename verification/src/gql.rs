use vstd::prelude::*;

verus! {

/// Marker for the transport mutation that uploads one finished record to
/// the remote service.  The transport itself (query text, schema, network
/// call) is an external collaborator and lives outside this library.
pub struct UpsertBucket;

} // verus!
