//! The cluster controller: shard open and close orchestration, the
//! topology cache, the heartbeat rhythm, and the shard lock wiring.
//!
//! The controller's decisions are all here and verified; the calls they
//! sit between — the coordinator RPCs, the heartbeat channel, the etcd
//! connection — run outside and hand their responses in as values.

use vstd::prelude::*;

use crate::config::ClusterConfig;
use crate::errors::Error;
use crate::errors::NodeType;
use crate::errors::OpenShardReason;
use crate::shard_lock::ShardLockConfig;
use crate::shard_lock::ShardLockManager;
use crate::shard_set::Shard;
use crate::shard_set::ShardInfo;
use crate::shard_set::ShardSet;
use crate::shard_set::ShardV;
use crate::shard_set::TableStatus;
use crate::shard_set::spec_get;
use crate::shard_set::table_status_of;
use crate::topology::ClusterTopology;
use crate::topology::NodeShard;

verus! {

/// The tables of one shard, as the coordinator returns them.
pub struct TablesOfShard {
    pub shard_info: ShardInfo,
    pub tables: Vec<crate::shard_set::TableInfo>,
}

/// What the coordinator returns for a get-tables-of-shards request.
pub struct GetTablesOfShardsResponse {
    pub tables_by_shard: Vec<TablesOfShard>,
}

/// The cluster's nodes at one topology version.
pub struct ClusterNodesResp {
    pub cluster_topology_version: u64,
    pub cluster_nodes: Vec<NodeShard>,
}

/// The shard lock key prefix, `<root_path>/<cluster_name>/shards`. The
/// namespace must start with `/` and the cluster must be named, else the
/// configuration is rejected.
pub fn shard_lock_key_prefix(root_path: &str, cluster_name: &str) -> (r: Result<String, Error>)
    ensures
        ({
            let root_ok = root_path@.len() > 0 && root_path@[0] == '/';
            match r {
                Ok(s) => root_ok && cluster_name@.len() > 0 && s@ == root_path@ + "/"@
                    + cluster_name@ + "/shards"@,
                Err(e) => {
                    ||| !root_ok && e == Error::InvalidArguments {
                        reason: crate::errors::ConfigError::RootPathNoLeadingSlash,
                    }
                    ||| root_ok && cluster_name@.len() == 0 && e == Error::InvalidArguments {
                        reason: crate::errors::ConfigError::EmptyClusterName,
                    }
                },
            }
        }),
{
    let root_len = root_path.unicode_len();
    if root_len == 0 {
        return Err(Error::InvalidArguments {
            reason: crate::errors::ConfigError::RootPathNoLeadingSlash,
        });
    }
    let head = root_path.get_char(0);
    if head != '/' {
        return Err(Error::InvalidArguments {
            reason: crate::errors::ConfigError::RootPathNoLeadingSlash,
        });
    }
    if cluster_name.unicode_len() == 0 {
        return Err(Error::InvalidArguments {
            reason: crate::errors::ConfigError::EmptyClusterName,
        });
    }
    let mut key = String::from_str(root_path);
    key.append("/");
    key.append(cluster_name);
    key.append("/shards");
    Ok(key)
}

/// The cluster controller of one node.
pub struct ClusterImpl {
    config: ClusterConfig,
    shard_set: ShardSet,
    topology: ClusterTopology,
    shard_lock_manager: ShardLockManager,
}

impl ClusterImpl {
    /// The controller invariant every operation preserves.
    pub closed spec fn wf(&self) -> bool {
        self.shard_set.wf()
    }

    /// The shard registry, read-only.
    pub closed spec fn shards_spec(&self) -> Seq<ShardV> {
        self.shard_set@
    }

    /// The topology cache, read-only.
    pub closed spec fn topology_spec(&self) -> &ClusterTopology {
        &self.topology
    }

    /// The configuration, read-only.
    pub closed spec fn config_spec(&self) -> &ClusterConfig {
        &self.config
    }

    /// The shard lock manager, read-only.
    pub closed spec fn lock_manager_spec(&self) -> &ShardLockManager {
        &self.shard_lock_manager
    }

    /// Builds a controller: the coordinator client settings are validated
    /// and the shard lock manager is configured; connecting to the
    /// coordinator itself happens outside.
    pub fn try_new(node_name: String, shard_set: ShardSet, config: ClusterConfig) -> (r: Result<
        ClusterImpl,
        Error,
    >)
        requires
            shard_set.wf(),
        ensures
            ({
                let ttl = config.etcd_client.shard_lock_lease_ttl_sec;
                let check = config.etcd_client.shard_lock_lease_check_interval_ms;
                let root = config.etcd_client.root_path@;
                let ttl_ok = ttl >= crate::config::MIN_SHARD_LOCK_LEASE_TTL_SEC;
                let check_ok = check < ttl * 1000;
                let root_ok = root.len() > 0 && root[0] == '/';
                let name_ok = config.meta_client.cluster_name@.len() > 0;
                match r {
                    Ok(c) => {
                        &&& ttl_ok && check_ok && root_ok && name_ok
                        &&& c.wf()
                        &&& c.shards_spec() == shard_set@
                        &&& c.lock_manager_spec().config.node_name@ == node_name@
                        &&& c.lock_manager_spec().config.lock_key_prefix@ == root + "/"@
                            + config.meta_client.cluster_name@ + "/shards"@
                        &&& c.lock_manager_spec().config.lock_lease_ttl_sec == ttl
                        &&& c.lock_manager_spec().config.lock_lease_check_interval_ms == check
                        &&& c.lock_manager_spec().config.enable_fast_reacquire_lock == config
                            .etcd_client.enable_shard_lock_fast_reacquire
                        &&& c.lock_manager_spec().config.rpc_timeout_ms as int == if ttl
                            <= u64::MAX / 1000 {
                            ttl * 1000 / 6
                        } else {
                            (u64::MAX / 6) as int
                        }
                        &&& c.topology_spec().nodes is None
                    },
                    Err(e) => {
                        ||| !ttl_ok && e == Error::InvalidArguments {
                            reason: crate::errors::ConfigError::LeaseTtlTooSmall,
                        }
                        ||| ttl_ok && !check_ok && e == Error::InvalidArguments {
                            reason: crate::errors::ConfigError::LeaseCheckIntervalTooLarge,
                        }
                        ||| ttl_ok && check_ok && !root_ok && e == Error::InvalidArguments {
                            reason: crate::errors::ConfigError::RootPathNoLeadingSlash,
                        }
                        ||| ttl_ok && check_ok && root_ok && !name_ok && e
                            == Error::InvalidArguments {
                            reason: crate::errors::ConfigError::EmptyClusterName,
                        }
                    },
                }
            }),
    {
        let validated = config.etcd_client.validate();
        if let Err(reason) = validated {
            return Err(Error::InvalidArguments { reason });
        }
        let prefix = shard_lock_key_prefix(
            config.etcd_client.root_path.as_str(),
            config.meta_client.cluster_name.as_str(),
        );
        let lock_key_prefix = match prefix {
            Ok(p) => p,
            Err(e) => {
                return Err(e);
            },
        };
        // The RPC timeout is a sixth of the lease; an absurdly long lease
        // saturates rather than overflowing.
        let ttl = config.etcd_client.shard_lock_lease_ttl_sec;
        let rpc_timeout_ms = if ttl <= u64::MAX / 1000 {
            config.etcd_client.rpc_timeout_ms()
        } else {
            u64::MAX / 6
        };
        let lock_config = ShardLockConfig {
            node_name,
            lock_key_prefix,
            lock_lease_ttl_sec: ttl,
            lock_lease_check_interval_ms: config
                .etcd_client
                .shard_lock_lease_check_interval_ms,
            enable_fast_reacquire_lock: config.etcd_client.enable_shard_lock_fast_reacquire,
            rpc_timeout_ms,
        };
        let shard_lock_manager = ShardLockManager::new(lock_config);
        Ok(ClusterImpl {
            config,
            shard_set,
            topology: ClusterTopology::new(),
            shard_lock_manager,
        })
    }

    /// The node's role.
    pub fn cluster_type(&self) -> (r: NodeType)
        ensures
            r == self.config_spec().node_type,
    {
        self.config.node_type
    }

    /// The shard lock manager.
    pub fn shard_lock_manager(&self) -> (r: &ShardLockManager)
        ensures
            r == self.lock_manager_spec(),
    {
        &self.shard_lock_manager
    }

    /// The heartbeat period: two thirds of the lease.
    pub fn heartbeat_interval_ms(&self) -> (r: u64)
        requires
            self.config_spec().meta_client.lease_ms * 2 <= u64::MAX,
        ensures
            r == self.config_spec().meta_client.lease_ms * 2 / 3,
    {
        self.config.meta_client.lease_ms * 2 / 3
    }

    /// The shorter wait after a failed heartbeat: half the lease, to
    /// recover faster.
    pub fn error_wait_lease_ms(&self) -> (r: u64)
        ensures
            r == self.config_spec().meta_client.lease_ms / 2,
    {
        self.config.meta_client.lease_ms / 2
    }

    /// What the heartbeat loop waits before its next tick, given whether
    /// the last send went through.
    pub fn heartbeat_wait_ms(&self, heartbeat_sent: bool) -> (r: u64)
        requires
            self.config_spec().meta_client.lease_ms * 2 <= u64::MAX,
        ensures
            heartbeat_sent ==> r == self.config_spec().meta_client.lease_ms * 2 / 3,
            !heartbeat_sent ==> r == self.config_spec().meta_client.lease_ms / 2,
    {
        if heartbeat_sent {
            self.heartbeat_interval_ms()
        } else {
            self.error_wait_lease_ms()
        }
    }

    /// What one heartbeat reports: the info of every owned shard.
    pub fn heartbeat_shard_infos(&self) -> (r: Vec<ShardInfo>)
        ensures
            r@.len() == self.shards_spec().len(),
            forall|i: int|
                0 <= i < r@.len() ==> r@[i] == (ShardInfo {
                    id: self.shards_spec()[i].id,
                    version: (#[trigger] self.shards_spec()[i]).version,
                }),
    {
        self.list_shards()
    }

    /// Decides an open-shard request against what is already owned:
    /// opening the identical version is idempotent and returns the owned
    /// shard; a newer version proceeds (and the older shard will be
    /// replaced); an older version is refused.
    pub fn open_shard_precheck(&self, shard_info: ShardInfo) -> (r: Result<Option<Shard>, Error>)
        ensures
            match spec_get(self.shards_spec(), shard_info.id) {
                Some(cur) => {
                    &&& cur.version == shard_info.version ==> (r matches Ok(Some(s)) && s@
                        == cur)
                    &&& cur.version > shard_info.version ==> r == Err::<Option<Shard>, Error>(
                        Error::OpenShard {
                            shard_id: shard_info.id,
                            cause: OpenShardReason::SmallerVersion,
                        },
                    )
                    &&& cur.version < shard_info.version ==> r matches Ok(None)
                },
                None => r matches Ok(None),
            },
    {
        let existing = self.shard_set.get(shard_info.id);
        match existing {
            Some(shard) => {
                let cur_version = shard.version;
                if cur_version == shard_info.version {
                    Ok(Some(shard))
                } else if cur_version > shard_info.version {
                    Err(Error::OpenShard {
                        shard_id: shard_info.id,
                        cause: OpenShardReason::SmallerVersion,
                    })
                } else {
                    Ok(None)
                }
            },
            None => Ok(None),
        }
    }

    /// Materializes a shard from the coordinator's table listing and
    /// inserts it into the shard set. The response must hold exactly one
    /// entry, for the requested shard; otherwise the shard is not
    /// inserted. The caller runs replay on the returned shard.
    ///
    /// The caller comes here only after [`Self::open_shard_precheck`]
    /// admitted the request: a shard already owned must be strictly
    /// older, so an open never displaces a newer shard and never resets
    /// an equal one.
    pub fn open_shard(&mut self, shard_info: ShardInfo, resp: GetTablesOfShardsResponse) -> (r:
        Result<Shard, Error>)
        requires
            old(self).wf(),
            match spec_get(old(self).shards_spec(), shard_info.id) {
                Some(cur) => cur.version < shard_info.version,
                None => true,
            },
        ensures
            final(self).wf(),
            resp.tables_by_shard@.len() != 1 ==> (r == Err::<Shard, Error>(Error::OpenShard {
                shard_id: shard_info.id,
                cause: OpenShardReason::UnexpectedTableCount,
            }) && final(self).shards_spec() == old(self).shards_spec()),
            resp.tables_by_shard@.len() == 1 && resp.tables_by_shard@[0].shard_info.id
                != shard_info.id ==> (r == Err::<Shard, Error>(Error::OpenShard {
                shard_id: shard_info.id,
                cause: OpenShardReason::MissingShardTables,
            }) && final(self).shards_spec() == old(self).shards_spec()),
            resp.tables_by_shard@.len() == 1 && resp.tables_by_shard@[0].shard_info.id
                == shard_info.id ==> ({
                &&& r matches Ok(s) && s@ == (ShardV {
                    id: shard_info.id,
                    version: resp.tables_by_shard@[0].shard_info.version,
                    status: crate::shard_set::ShardStatus::Opening,
                    tables: resp.tables_by_shard@[0].tables.deep_view(),
                })
                &&& spec_get(final(self).shards_spec(), shard_info.id) matches Some(ins)
                    && r matches Ok(s) && ins == s@
                &&& forall|other: u32|
                    other != shard_info.id ==> spec_get(final(self).shards_spec(), other)
                        == spec_get(old(self).shards_spec(), other)
            }),
    {
        if resp.tables_by_shard.len() != 1 {
            return Err(Error::OpenShard {
                shard_id: shard_info.id,
                cause: OpenShardReason::UnexpectedTableCount,
            });
        }
        let mut resp = resp;
        let tables_of_shard = resp.tables_by_shard.remove(0);
        if tables_of_shard.shard_info.id != shard_info.id {
            return Err(Error::OpenShard {
                shard_id: shard_info.id,
                cause: OpenShardReason::MissingShardTables,
            });
        }
        let shard = Shard::new(tables_of_shard.shard_info, tables_of_shard.tables);
        let returned = shard.clone();
        let _displaced = self.shard_set.insert(shard_info.id, shard);
        Ok(returned)
    }

    /// What the lock watchdog does on lease loss: the owned shard is
    /// fenced off as frozen, so no writes are taken on a shard this node
    /// no longer owns. A shard not owned is reported, not an error.
    pub fn freeze_shard(&mut self, shard_id: u32) -> (r: bool)
        requires
            old(self).wf(),
        ensures
            final(self).wf(),
            r == (spec_get(old(self).shards_spec(), shard_id) is Some),
            r ==> (spec_get(final(self).shards_spec(), shard_id) matches Some(s) && spec_get(
                old(self).shards_spec(),
                shard_id,
            ) matches Some(s0) && s == (ShardV {
                status: crate::shard_set::ShardStatus::Frozen,
                ..s0
            })),
            forall|other: u32|
                other != shard_id ==> spec_get(final(self).shards_spec(), other) == spec_get(
                    old(self).shards_spec(),
                    other,
                ),
            !r ==> spec_get(final(self).shards_spec(), shard_id) is None,
    {
        crate::shard_lock::freeze_shard(&mut self.shard_set, shard_id)
    }

    /// Removes the shard from the set on close; closing a shard this node
    /// does not own is refused.
    pub fn close_shard(&mut self, shard_id: u32) -> (r: Result<Shard, Error>)
        requires
            old(self).wf(),
        ensures
            final(self).wf(),
            match spec_get(old(self).shards_spec(), shard_id) {
                Some(cur) => {
                    &&& r matches Ok(s) && s@ == cur
                    &&& spec_get(final(self).shards_spec(), shard_id) is None
                    &&& forall|other: u32|
                        other != shard_id ==> spec_get(final(self).shards_spec(), other)
                            == spec_get(old(self).shards_spec(), other)
                },
                None => (r == Err::<Shard, Error>(Error::ShardNotFound { shard_id })
                    && final(self).shards_spec() == old(self).shards_spec()),
            },
    {
        let removed = self.shard_set.remove(shard_id);
        match removed {
            Some(shard) => Ok(shard),
            None => Err(Error::ShardNotFound { shard_id }),
        }
    }

    /// The owned shard with this id, as a snapshot.
    pub fn shard(&self, shard_id: u32) -> (r: Option<Shard>)
        ensures
            match r {
                Some(s) => spec_get(self.shards_spec(), shard_id) == Some(s@),
                None => spec_get(self.shards_spec(), shard_id) is None,
            },
    {
        self.shard_set.get(shard_id)
    }

    /// The info of every owned shard.
    #[verifier::loop_isolation(false)]
    pub fn list_shards(&self) -> (r: Vec<ShardInfo>)
        ensures
            r@.len() == self.shards_spec().len(),
            forall|i: int|
                0 <= i < r@.len() ==> r@[i] == (ShardInfo {
                    id: self.shards_spec()[i].id,
                    version: (#[trigger] self.shards_spec()[i]).version,
                }),
    {
        let shards = self.shard_set.all_shards();
        let mut out: Vec<ShardInfo> = Vec::new();
        let mut i: usize = 0;
        while i < shards.len()
            invariant
                i <= shards@.len(),
                shards.deep_view() == self.shards_spec(),
                out@.len() == i,
                forall|j: int|
                    0 <= j < i ==> out@[j] == (ShardInfo {
                        id: self.shards_spec()[j].id,
                        version: (#[trigger] self.shards_spec()[j]).version,
                    }),
            decreases shards@.len() - i,
        {
            out.push(shards[i].shard_info());
            i = i + 1;
        }
        out
    }

    /// The first owned shard serving this table, looked up in the local
    /// cache only; no request leaves the node.
    #[verifier::loop_isolation(false)]
    pub fn get_shard_by_table_name(&self, schema_name: &String, table_name: &String) -> (r:
        Option<Shard>)
        ensures
            match r {
                Some(s) => exists|i: int|
                    0 <= i < self.shards_spec().len() && #[trigger] self.shards_spec()[i] == s@
                        && exists|t: int|
                        0 <= t < s@.tables.len() && (#[trigger] s@.tables[t]).schema_name
                            == schema_name@ && s@.tables[t].name == table_name@,
                None => forall|i: int, t: int|
                    0 <= i < self.shards_spec().len() && 0 <= t
                        < self.shards_spec()[i].tables.len() ==> !((
                    #[trigger] self.shards_spec()[i].tables[t]).schema_name == schema_name@
                        && self.shards_spec()[i].tables[t].name == table_name@),
            },
    {
        let shards = self.shard_set.all_shards();
        let mut i: usize = 0;
        while i < shards.len()
            invariant
                i <= shards@.len(),
                shards.deep_view() == self.shards_spec(),
                forall|j: int, t: int|
                    0 <= j < i && 0 <= t < self.shards_spec()[j].tables.len() ==> !((
                    #[trigger] self.shards_spec()[j].tables[t]).schema_name == schema_name@
                        && self.shards_spec()[j].tables[t].name == table_name@),
            decreases shards@.len() - i,
        {
            let found = shards[i].find_table(schema_name, table_name);
            if found.is_some() {
                let shard = shards[i].clone();
                proof {
                    assert(shard@ == self.shards_spec()[i as int]);
                }
                return Some(shard);
            }
            i = i + 1;
        }
        None
    }

    /// The status of the shard serving this table, if this node serves it.
    pub fn get_table_status(&self, schema_name: &String, table_name: &String) -> (r: Option<
        TableStatus,
    >)
        ensures
            match r {
                Some(st) => exists|i: int|
                    0 <= i < self.shards_spec().len() && st == table_status_of(
                        (#[trigger] self.shards_spec()[i]).status,
                    ) && exists|t: int|
                        0 <= t < self.shards_spec()[i].tables.len() && (
                        #[trigger] self.shards_spec()[i].tables[t]).schema_name == schema_name@
                            && self.shards_spec()[i].tables[t].name == table_name@,
                None => forall|i: int, t: int|
                    0 <= i < self.shards_spec().len() && 0 <= t
                        < self.shards_spec()[i].tables.len() ==> !((
                    #[trigger] self.shards_spec()[i].tables[t]).schema_name == schema_name@
                        && self.shards_spec()[i].tables[t].name == table_name@),
            },
    {
        let found = self.get_shard_by_table_name(schema_name, table_name);
        match found {
            Some(shard) => {
                let status = shard.get_status();
                let mapped = match status {
                    crate::shard_set::ShardStatus::Opening => TableStatus::Opening,
                    crate::shard_set::ShardStatus::Ready => TableStatus::Ready,
                    crate::shard_set::ShardStatus::Frozen => TableStatus::Frozen,
                    crate::shard_set::ShardStatus::Closing => TableStatus::Closing,
                };
                Some(mapped)
            },
            None => None,
        }
    }

    /// The cached topology, if any, as version and nodes.
    pub fn cached_nodes(&self) -> (r: Option<ClusterNodesResp>)
        ensures
            match r {
                Some(resp) => (self.topology_spec().nodes matches Some(t) && resp
                    .cluster_topology_version == t@.version && resp.cluster_nodes.deep_view()
                    == t@.node_shards),
                None => self.topology_spec().nodes is None,
            },
    {
        let cached = self.topology.nodes();
        match cached {
            Some(t) => Some(ClusterNodesResp {
                cluster_topology_version: t.version,
                cluster_nodes: t.node_shards,
            }),
            None => None,
        }
    }

    /// Folds a freshly fetched topology into the cache under the
    /// monotonic version rule, and returns what a caller should see: the
    /// fetched snapshot if it won, else the newer cached one; and an
    /// error only when the cache is empty and the fetch was not usable.
    pub fn apply_fetched_nodes(&mut self, node_shards: Vec<NodeShard>, version: u64) -> (r:
        Result<ClusterNodesResp, Error>)
        ensures
            final(self).wf() == old(self).wf(),
            final(self).topology_spec().cached_version() >= old(
                self,
            ).topology_spec().cached_version(),
            version > old(self).topology_spec().cached_version() ==> (r matches Ok(resp) && resp
                .cluster_topology_version == version && resp.cluster_nodes.deep_view()
                == node_shards.deep_view() && final(self).topology_spec().cached_version()
                == version),
            version <= old(self).topology_spec().cached_version() ==> match old(
                self,
            ).topology_spec().nodes {
                Some(t) => (r matches Ok(resp) && resp.cluster_topology_version == t@.version
                    && resp.cluster_nodes.deep_view() == t@.node_shards),
                None => r == Err::<ClusterNodesResp, Error>(Error::ClusterNodesNotFound {
                    version,
                }),
            },
    {
        let updated = self.topology.maybe_update_nodes(node_shards, version);
        if updated {
            let cached = self.topology.nodes();
            match cached {
                Some(t) => Ok(ClusterNodesResp {
                    cluster_topology_version: t.version,
                    cluster_nodes: t.node_shards,
                }),
                None => {
                    // An accepted update installs a snapshot, so the cache
                    // cannot be empty on this arm.
                    proof {
                        assert(false);
                    }
                    Err(Error::ClusterNodesNotFound { version })
                },
            }
        } else {
            let cached = self.topology.nodes();
            match cached {
                Some(t) => Ok(ClusterNodesResp {
                    cluster_topology_version: t.version,
                    cluster_nodes: t.node_shards,
                }),
                None => Err(Error::ClusterNodesNotFound { version }),
            }
        }
    }

    /// Compaction offload is permitted only on a database node.
    pub fn ensure_compaction_offload_allowed(&self) -> (r: Result<(), Error>)
        ensures
            self.config_spec().node_type == NodeType::HoraeDB ==> r == Ok::<(), Error>(()),
            self.config_spec().node_type != NodeType::HoraeDB ==> r == Err::<(), Error>(
                Error::CompactionOffloadNotAllowed { node_type: self.config_spec().node_type },
            ),
    {
        let node_type = self.config.node_type;
        match node_type {
            NodeType::HoraeDB => Ok(()),
            NodeType::CompactionServer => Err(Error::CompactionOffloadNotAllowed { node_type }),
        }
    }
}

} // verus!
