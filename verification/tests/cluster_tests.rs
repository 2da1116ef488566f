use horaedb_core::cluster::shard_lock_key_prefix;
use horaedb_core::cluster::ClusterImpl;
use horaedb_core::cluster::GetTablesOfShardsResponse;
use horaedb_core::cluster::TablesOfShard;
use horaedb_core::config::ClusterConfig;
use horaedb_core::config::EtcdClientConfig;
use horaedb_core::config::MetaClientConfig;
use horaedb_core::config::SchemaConfig;
use horaedb_core::config::TlsConfig;
use horaedb_core::errors::ConfigError;
use horaedb_core::errors::Error;
use horaedb_core::errors::NodeType;
use horaedb_core::errors::OpenShardReason;
use horaedb_core::shard_lock::freeze_shard;
use horaedb_core::shard_lock::u32_decimal;
use horaedb_core::shard_lock::LeaseRegistry;
use horaedb_core::shard_lock::ShardLockConfig;
use horaedb_core::shard_lock::ShardLockManager;
use horaedb_core::shard_set::Shard;
use horaedb_core::shard_set::ShardInfo;
use horaedb_core::shard_set::ShardSet;
use horaedb_core::shard_set::ShardStatus;
use horaedb_core::shard_set::TableInfo;
use horaedb_core::shard_set::TableStatus;
use horaedb_core::topology::ClusterTopology;
use horaedb_core::topology::NodeShard;

fn test_config() -> ClusterConfig {
    let mut config = ClusterConfig::default();
    config.meta_client.cluster_name = String::from("defaultCluster");
    config
}

fn controller() -> ClusterImpl {
    ClusterImpl::try_new(String::from("node1:8831"), ShardSet::new(), test_config()).unwrap()
}

fn tables_resp(id: u32, version: u64) -> GetTablesOfShardsResponse {
    GetTablesOfShardsResponse {
        tables_by_shard: vec![TablesOfShard {
            shard_info: ShardInfo { id, version },
            tables: vec![TableInfo {
                id: 100,
                name: String::from("cpu_metrics"),
                schema_name: String::from("public"),
            }],
        }],
    }
}

#[test]
fn test_format_shard_lock_key_prefix() {
    let cases: Vec<((&str, &str), Option<&str>)> = vec![
        (
            ("/horaedb", "defaultCluster"),
            Some("/horaedb/defaultCluster/shards"),
        ),
        (("", "defaultCluster"), None),
        (("vvv", "defaultCluster"), None),
        (("/x", ""), None),
    ];

    for ((root_path, cluster_name), expected) in cases {
        let actual = shard_lock_key_prefix(root_path, cluster_name);
        match expected {
            Some(expected) => assert_eq!(actual.unwrap(), expected),
            None => assert!(actual.is_err()),
        }
    }
}

#[test]
fn open_shard_is_idempotent_on_same_version() {
    let mut cluster = controller();
    let info = ShardInfo { id: 3, version: 7 };
    let opened = cluster.open_shard(info, tables_resp(3, 7)).unwrap();
    assert_eq!(opened.id, 3);
    assert_eq!(opened.version, 7);
    assert_eq!(opened.status, ShardStatus::Opening);

    // Same (id, version): no fetch needed, the owned shard comes back.
    let pre = cluster.open_shard_precheck(info).unwrap();
    assert_eq!(pre.unwrap().version, 7);

    // An older version is refused.
    let older = cluster.open_shard_precheck(ShardInfo { id: 3, version: 6 });
    assert_eq!(
        older.err().unwrap(),
        Error::OpenShard {
            shard_id: 3,
            cause: OpenShardReason::SmallerVersion
        }
    );

    // A newer version proceeds and replaces.
    assert!(cluster
        .open_shard_precheck(ShardInfo { id: 3, version: 8 })
        .unwrap()
        .is_none());
    let reopened = cluster
        .open_shard(ShardInfo { id: 3, version: 8 }, tables_resp(3, 8))
        .unwrap();
    assert_eq!(reopened.version, 8);
    assert_eq!(cluster.shard(3).unwrap().version, 8);
}

#[test]
fn open_shard_rejects_bad_responses() {
    let mut cluster = controller();
    let info = ShardInfo { id: 4, version: 1 };

    let empty = GetTablesOfShardsResponse { tables_by_shard: Vec::new() };
    assert_eq!(
        cluster.open_shard(info, empty).err().unwrap(),
        Error::OpenShard {
            shard_id: 4,
            cause: OpenShardReason::UnexpectedTableCount
        }
    );

    let wrong_id = tables_resp(9, 1);
    assert_eq!(
        cluster.open_shard(info, wrong_id).err().unwrap(),
        Error::OpenShard {
            shard_id: 4,
            cause: OpenShardReason::MissingShardTables
        }
    );
    assert!(cluster.shard(4).is_none());
}

#[test]
fn close_shard_requires_ownership() {
    let mut cluster = controller();
    assert_eq!(
        cluster.close_shard(11).err().unwrap(),
        Error::ShardNotFound { shard_id: 11 }
    );
    cluster
        .open_shard(ShardInfo { id: 11, version: 1 }, tables_resp(11, 1))
        .unwrap();
    let closed = cluster.close_shard(11).unwrap();
    assert_eq!(closed.id, 11);
    assert!(cluster.shard(11).is_none());
    assert!(cluster.list_shards().is_empty());
}

#[test]
fn list_shards_reports_all() {
    let mut cluster = controller();
    cluster
        .open_shard(ShardInfo { id: 1, version: 5 }, tables_resp(1, 5))
        .unwrap();
    cluster
        .open_shard(ShardInfo { id: 2, version: 9 }, tables_resp(2, 9))
        .unwrap();
    let mut infos = cluster.list_shards();
    infos.sort_by_key(|i| i.id);
    assert_eq!(infos, vec![ShardInfo { id: 1, version: 5 }, ShardInfo { id: 2, version: 9 }]);
    assert_eq!(cluster.heartbeat_shard_infos().len(), 2);
}

#[test]
fn table_status_follows_shard_status() {
    let mut cluster = controller();
    cluster
        .open_shard(ShardInfo { id: 1, version: 1 }, tables_resp(1, 1))
        .unwrap();
    let schema = String::from("public");
    let name = String::from("cpu_metrics");
    assert_eq!(cluster.get_table_status(&schema, &name), Some(TableStatus::Opening));
    let missing = String::from("no_such_table");
    assert_eq!(cluster.get_table_status(&schema, &missing), None);
    let shard = cluster.get_shard_by_table_name(&schema, &name).unwrap();
    assert_eq!(shard.id, 1);
}

#[test]
fn compaction_offload_is_gated_by_role() {
    let cluster = controller();
    assert!(cluster.ensure_compaction_offload_allowed().is_ok());
    assert_eq!(cluster.cluster_type(), NodeType::HoraeDB);

    let mut config = test_config();
    config.node_type = NodeType::CompactionServer;
    let compaction_node =
        ClusterImpl::try_new(String::from("node2:8831"), ShardSet::new(), config).unwrap();
    assert_eq!(
        compaction_node.ensure_compaction_offload_allowed().err().unwrap(),
        Error::CompactionOffloadNotAllowed {
            node_type: NodeType::CompactionServer
        }
    );
}

#[test]
fn heartbeat_rhythm_follows_lease() {
    let cluster = controller();
    // Default lease: 10 s. Period 2/3 of it; error wait half of it.
    assert_eq!(cluster.heartbeat_interval_ms(), 6666);
    assert_eq!(cluster.error_wait_lease_ms(), 5000);
    assert_eq!(cluster.heartbeat_wait_ms(true), 6666);
    assert_eq!(cluster.heartbeat_wait_ms(false), 5000);
}

#[test]
fn topology_version_is_monotonic() {
    let mut topology = ClusterTopology::new();
    assert!(topology.maybe_update_nodes(Vec::new(), 1));
    assert!(!topology.maybe_update_nodes(Vec::new(), 1));
    assert!(!topology.maybe_update_nodes(Vec::new(), 0));
    assert!(topology.maybe_update_nodes(Vec::new(), 2));
    assert_eq!(topology.nodes().unwrap().version, 2);
}

#[test]
fn fetch_nodes_prefers_newer_cache() {
    let mut cluster = controller();
    assert!(cluster.cached_nodes().is_none());

    // An unusable first fetch: nothing cached, version zero.
    assert_eq!(
        cluster.apply_fetched_nodes(Vec::new(), 0).err().unwrap(),
        Error::ClusterNodesNotFound { version: 0 }
    );

    let node = NodeShard {
        endpoint: String::from("node1:8831"),
        shard_info: ShardInfo { id: 1, version: 1 },
    };
    let fresh = cluster.apply_fetched_nodes(vec![node], 5).unwrap();
    assert_eq!(fresh.cluster_topology_version, 5);
    assert_eq!(fresh.cluster_nodes.len(), 1);

    // A stale fetch loses to the cache.
    let stale = cluster.apply_fetched_nodes(Vec::new(), 4).unwrap();
    assert_eq!(stale.cluster_topology_version, 5);
    assert_eq!(stale.cluster_nodes.len(), 1);
    assert_eq!(cluster.cached_nodes().unwrap().cluster_topology_version, 5);
}

#[test]
fn etcd_config_validation() {
    let mut config = EtcdClientConfig::default();
    assert!(config.validate().is_ok());

    config.shard_lock_lease_ttl_sec = 14;
    assert_eq!(config.validate(), Err(ConfigError::LeaseTtlTooSmall));

    config.shard_lock_lease_ttl_sec = 15;
    config.shard_lock_lease_check_interval_ms = 15_000;
    assert_eq!(config.validate(), Err(ConfigError::LeaseCheckIntervalTooLarge));

    config.shard_lock_lease_check_interval_ms = 14_999;
    assert!(config.validate().is_ok());
}

#[test]
fn rpc_timeout_is_a_sixth_of_the_lease() {
    let config = EtcdClientConfig::default();
    assert_eq!(config.shard_lock_lease_ttl_sec, 30);
    assert_eq!(config.rpc_timeout_ms(), 5000);
}

#[test]
fn config_defaults() {
    let schema = SchemaConfig::default();
    assert_eq!(schema.default_engine_type, "analytic");
    assert_eq!(schema.default_timestamp_column_name, "timestamp");

    let tls = TlsConfig::default();
    assert!(!tls.enable);
    assert!(tls.domain.is_none());

    let etcd = EtcdClientConfig::default();
    assert_eq!(etcd.root_path, "/horaedb");
    assert_eq!(etcd.server_addrs, vec![String::from("127.0.0.1:2379")]);
    assert_eq!(etcd.connect_timeout_ms, 5000);
    assert!(!etcd.enable_shard_lock_fast_reacquire);

    let meta = MetaClientConfig::default();
    assert_eq!(meta.lease_ms, 10_000);

    let cluster = ClusterConfig::default();
    assert_eq!(cluster.node_type, NodeType::HoraeDB);
}

#[test]
fn invalid_config_is_rejected_at_start() {
    let mut config = test_config();
    config.etcd_client.shard_lock_lease_ttl_sec = 3;
    let refused = ClusterImpl::try_new(String::from("node1:8831"), ShardSet::new(), config);
    assert_eq!(
        refused.err().unwrap(),
        Error::InvalidArguments {
            reason: ConfigError::LeaseTtlTooSmall
        }
    );

    let mut config = test_config();
    config.meta_client.cluster_name = String::new();
    let refused = ClusterImpl::try_new(String::from("node1:8831"), ShardSet::new(), config);
    assert_eq!(
        refused.err().unwrap(),
        Error::InvalidArguments {
            reason: ConfigError::EmptyClusterName
        }
    );
}

#[test]
fn shard_lock_keys_are_decimal() {
    assert_eq!(u32_decimal(0), "0");
    assert_eq!(u32_decimal(7), "7");
    assert_eq!(u32_decimal(42), "42");
    assert_eq!(u32_decimal(1000), "1000");
    assert_eq!(u32_decimal(u32::MAX), "4294967295");

    let manager = ShardLockManager::new(ShardLockConfig {
        node_name: String::from("node1:8831"),
        lock_key_prefix: String::from("/horaedb/defaultCluster/shards"),
        lock_lease_ttl_sec: 30,
        lock_lease_check_interval_ms: 200,
        enable_fast_reacquire_lock: false,
        rpc_timeout_ms: 5000,
    });
    assert_eq!(manager.lock_key(17), "/horaedb/defaultCluster/shards/17");
    assert!(manager.lease_expired(1000, 1000));
    assert!(!manager.lease_expired(1001, 1000));
}

#[test]
fn lease_is_exclusive_per_shard() {
    // Two managers race for one shard: only one holds a live lease.
    let mut registry = LeaseRegistry::new();
    let node_a = String::from("node_a");
    let node_b = String::from("node_b");

    let granted = registry.try_acquire(1, &node_a, 0, 30_000);
    assert!(granted.is_some());
    // While the lease lives, the other node is refused.
    assert!(registry.try_acquire(1, &node_b, 10_000, 30_000).is_none());
    // Another shard is free.
    assert!(registry.try_acquire(2, &node_b, 10_000, 30_000).is_some());

    // The keepalive extends only the owner's lease.
    let lease_a = granted.unwrap();
    assert!(registry.renew(1, &node_a, lease_a, 20_000, 30_000));
    assert!(!registry.renew(1, &node_b, lease_a, 20_000, 30_000));

    // After expiry the key is reclaimable.
    assert!(registry.try_acquire(1, &node_b, 60_000, 30_000).is_some());

    // Release revokes only a lease the caller still owns.
    assert!(!registry.release(1, &node_a, lease_a));
    let lease_b2 = registry.try_acquire(3, &node_b, 0, 1000).unwrap();
    assert!(registry.release(3, &node_b, lease_b2));
    assert!(registry.try_acquire(3, &node_a, 0, 1000).is_some());
}

#[test]
fn lost_lease_freezes_the_shard() {
    let mut shards = ShardSet::new();
    let info = ShardInfo { id: 5, version: 1 };
    shards.insert(5, Shard::new(info, Vec::new()));
    assert!(freeze_shard(&mut shards, 5));
    assert_eq!(shards.get(5).unwrap().get_status(), ShardStatus::Frozen);
    assert!(!freeze_shard(&mut shards, 6));
}

#[test]
fn controller_freezes_on_lease_loss() {
    let mut cluster = controller();
    cluster
        .open_shard(ShardInfo { id: 8, version: 1 }, tables_resp(8, 1))
        .unwrap();
    assert!(cluster.freeze_shard(8));
    assert_eq!(cluster.shard(8).unwrap().get_status(), ShardStatus::Frozen);
    // The frozen shard keeps its identity, version and tables.
    let frozen = cluster.shard(8).unwrap();
    assert_eq!(frozen.version, 1);
    assert_eq!(frozen.tables.len(), 1);
    assert!(!cluster.freeze_shard(9));
}

#[test]
fn shard_set_overwrites_and_snapshots() {
    let mut shards = ShardSet::new();
    assert!(shards
        .insert(1, Shard::new(ShardInfo { id: 1, version: 1 }, Vec::new()))
        .is_none());
    let displaced = shards.insert(1, Shard::new(ShardInfo { id: 1, version: 2 }, Vec::new()));
    assert_eq!(displaced.unwrap().version, 1);
    assert_eq!(shards.get(1).unwrap().version, 2);
    assert_eq!(shards.all_shards().len(), 1);
    let removed = shards.remove(1).unwrap();
    assert_eq!(removed.version, 2);
    assert!(shards.remove(1).is_none());
}
