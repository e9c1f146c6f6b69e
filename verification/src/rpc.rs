//! The handle behind the read-only swap queries: it keeps the shared
//! client whose runtime API answers the dry-run requests.  The request
//! plumbing itself lives with the host's RPC layer.

use vstd::prelude::*;

use std::marker::PhantomData;
use std::sync::Arc;

verus! {

/// A handler for dry-run swap queries, generic over the client, the block
/// type, and the asset and balance types the queries speak of.
pub struct SwapsRpcHandler<C, Block, AssetId, Balance> {
    client: Arc<C>,
    _marker: PhantomData<(Block, AssetId, Balance)>,
}

impl<C, Block, AssetId, Balance> SwapsRpcHandler<C, Block, AssetId, Balance> {
    /// The shared client the handler serves queries through.
    pub closed spec fn client_spec(&self) -> Arc<C> {
        self.client
    }

    /// Wraps a shared client.
    pub fn new(client: Arc<C>) -> (r: Self)
        ensures
            r.client_spec() == client,
    {
        SwapsRpcHandler { client, _marker: PhantomData }
    }
}

} // verus!
