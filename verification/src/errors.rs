//! Error kinds of the cluster and replay subsystems, and the node roles that
//! gate some operations.

use vstd::prelude::*;

verus! {

/// Role of a node in the cluster: a full database node, or a dedicated
/// compaction server.
#[derive(Clone, Copy, Debug, PartialEq, Eq, Structural)]
pub enum NodeType {
    HoraeDB,
    CompactionServer,
}

/// Why an `open_shard` request was rejected without consulting the
/// coordinator.
#[derive(Clone, Copy, Debug, PartialEq, Eq, Structural)]
pub enum OpenShardReason {
    /// The shard is already open with a strictly newer version.
    SmallerVersion,
    /// The coordinator response did not hold exactly one shard entry.
    UnexpectedTableCount,
    /// The coordinator response held no entry for the requested shard.
    MissingShardTables,
}

/// Errors surfaced by the cluster controller and the replay entry points.
#[derive(Clone, Copy, Debug, PartialEq, Eq, Structural)]
pub enum Error {
    /// Configuration was rejected before anything started.
    InvalidArguments { reason: ConfigError },
    /// A shard could not be opened; the shard stays out of the shard set.
    OpenShard { shard_id: u32, cause: OpenShardReason },
    /// Close was requested for a shard this node does not own.
    ShardNotFound { shard_id: u32 },
    /// The topology cache is empty and the fetched topology was not usable.
    ClusterNodesNotFound { version: u64 },
    /// Compaction offload is not permitted for this node role.
    CompactionOffloadNotAllowed { node_type: NodeType },
}

/// Configuration-time rejections of the coordinator client settings.
#[derive(Clone, Copy, Debug, PartialEq, Eq, Structural)]
pub enum ConfigError {
    /// The shard lock lease TTL is below the accepted minimum.
    LeaseTtlTooSmall,
    /// The lease watchdog period is not below the lease TTL.
    LeaseCheckIntervalTooLarge,
    /// The KV namespace prefix does not start with `/`.
    RootPathNoLeadingSlash,
    /// The cluster name is empty.
    EmptyClusterName,
}

} // verus!
