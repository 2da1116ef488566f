//! The versioned snapshot of the cluster's node-to-shard mapping.
//!
//! The cache accepts a snapshot only with a strictly greater version, so
//! the version a reader observes never decreases, whatever order updates
//! arrive in.

use vstd::prelude::*;

use crate::shard_set::ShardInfo;

verus! {

/// One node of the cluster and one shard it serves.
pub struct NodeShard {
    /// The node's endpoint, `host:port`.
    pub endpoint: String,
    pub shard_info: ShardInfo,
}

/// Spec-level image of a [`NodeShard`].
#[verifier::ext_equal]
pub struct NodeShardV {
    pub endpoint: Seq<char>,
    pub shard_info: ShardInfo,
}

impl View for NodeShard {
    type V = NodeShardV;

    open spec fn view(&self) -> NodeShardV {
        NodeShardV { endpoint: self.endpoint@, shard_info: self.shard_info }
    }
}

impl DeepView for NodeShard {
    type V = NodeShardV;

    open spec fn deep_view(&self) -> NodeShardV {
        self@
    }
}

impl Clone for NodeShard {
    fn clone(&self) -> (r: Self)
        ensures
            r@ == self@,
    {
        NodeShard { endpoint: self.endpoint.clone(), shard_info: self.shard_info }
    }
}

/// A snapshot of the whole mapping at one version.
pub struct NodeTopology {
    pub version: u64,
    pub node_shards: Vec<NodeShard>,
}

/// Spec-level image of a [`NodeTopology`].
#[verifier::ext_equal]
pub struct NodeTopologyV {
    pub version: u64,
    pub node_shards: Seq<NodeShardV>,
}

impl View for NodeTopology {
    type V = NodeTopologyV;

    open spec fn view(&self) -> NodeTopologyV {
        NodeTopologyV { version: self.version, node_shards: self.node_shards.deep_view() }
    }
}

impl Clone for NodeTopology {
    #[verifier::loop_isolation(false)]
    fn clone(&self) -> (r: Self)
        ensures
            r@ == self@,
    {
        let mut node_shards: Vec<NodeShard> = Vec::new();
        let mut i: usize = 0;
        while i < self.node_shards.len()
            invariant
                i <= self.node_shards@.len(),
                node_shards.deep_view() == self.node_shards.deep_view().subrange(0, i as int),
            decreases self.node_shards@.len() - i,
        {
            node_shards.push(self.node_shards[i].clone());
            proof {
                assert(node_shards.deep_view() =~= self.node_shards.deep_view().subrange(
                    0,
                    i + 1,
                ));
            }
            i = i + 1;
        }
        proof {
            assert(self.node_shards.deep_view().subrange(0, self.node_shards@.len() as int)
                =~= self.node_shards.deep_view());
        }
        NodeTopology { version: self.version, node_shards }
    }
}

/// The cache of the latest accepted snapshot. An empty cache counts as
/// version zero.
pub struct ClusterTopology {
    pub nodes: Option<NodeTopology>,
}

impl ClusterTopology {
    /// The version the cache stands at.
    pub open spec fn cached_version(&self) -> u64 {
        match self.nodes {
            Some(ref t) => t.version,
            None => 0,
        }
    }

    /// An empty cache.
    pub fn new() -> (r: ClusterTopology)
        ensures
            r.nodes is None,
            r.cached_version() == 0,
    {
        ClusterTopology { nodes: None }
    }

    /// The cached snapshot, if any.
    pub fn nodes(&self) -> (r: Option<NodeTopology>)
        ensures
            match r {
                Some(t) => self.nodes matches Some(c) && c@ == t@,
                None => self.nodes is None,
            },
    {
        match &self.nodes {
            Some(t) => Some(t.clone()),
            None => None,
        }
    }

    /// Accepts the snapshot iff its version is strictly greater than the
    /// cached one; otherwise the cache is left unchanged. The cached
    /// version never decreases: topology is monotonic.
    pub fn maybe_update_nodes(&mut self, node_shards: Vec<NodeShard>, version: u64) -> (updated:
        bool)
        ensures
            updated == (version > old(self).cached_version()),
            final(self).cached_version() >= old(self).cached_version(),
            updated ==> (final(self).nodes matches Some(t) && t@ == (NodeTopologyV {
                version,
                node_shards: node_shards.deep_view(),
            }) && final(self).cached_version() == version),
            !updated ==> *final(self) == *old(self),
    {
        let cached = match &self.nodes {
            Some(t) => t.version,
            None => 0,
        };
        if version > cached {
            self.nodes = Some(NodeTopology { version, node_shards });
            true
        } else {
            false
        }
    }
}

} // verus!
