//! Cluster configuration: the coordinator client settings with their
//! validity rules, the meta client rhythm, and the schema defaults.
//!
//! Durations are carried as plain integers (milliseconds, or seconds where
//! the running system configures seconds), so every derived timeout is an
//! exact arithmetic fact.

use vstd::prelude::*;

use crate::errors::ConfigError;
use crate::errors::NodeType;

verus! {

/// The least lease the shard lock accepts, in seconds.
pub const MIN_SHARD_LOCK_LEASE_TTL_SEC: u64 = 15;

/// Defaults a schema hands to tables that do not name their own.
pub struct SchemaConfig {
    pub default_engine_type: String,
    pub default_timestamp_column_name: String,
}

impl SchemaConfig {
    /// The analytic engine with its timestamp column.
    pub fn default() -> (r: SchemaConfig)
        ensures
            r.default_engine_type@ == "analytic"@,
            r.default_timestamp_column_name@ == "timestamp"@,
    {
        SchemaConfig {
            default_engine_type: String::from_str("analytic"),
            default_timestamp_column_name: String::from_str("timestamp"),
        }
    }
}

/// TLS settings for reaching the coordinator.
pub struct TlsConfig {
    pub enable: bool,
    pub domain: Option<String>,
    pub ca_cert_path: String,
    pub client_key_path: String,
    pub client_cert_path: String,
}

impl TlsConfig {
    /// TLS off, no certificate paths.
    pub fn default() -> (r: TlsConfig)
        ensures
            r.enable == false,
            r.domain is None,
            r.ca_cert_path@ == Seq::<char>::empty(),
            r.client_key_path@ == Seq::<char>::empty(),
            r.client_cert_path@ == Seq::<char>::empty(),
    {
        TlsConfig {
            enable: false,
            domain: None,
            ca_cert_path: String::new(),
            client_key_path: String::new(),
            client_cert_path: String::new(),
        }
    }
}

/// Settings of the coordinator (etcd) client.
pub struct EtcdClientConfig {
    /// The coordinator endpoints.
    pub server_addrs: Vec<String>,
    /// KV namespace prefix used by the server; must start with `/`.
    pub root_path: String,
    /// Timeout to connect to the coordinator, in milliseconds.
    pub connect_timeout_ms: u64,
    /// TLS settings.
    pub tls: TlsConfig,
    /// The lease of the shard lock, in seconds. The RPC timeout to the
    /// coordinator is derived from it.
    pub shard_lock_lease_ttl_sec: u64,
    /// How often the watchdog checks whether the lease expired, in
    /// milliseconds; must stay below the lease.
    pub shard_lock_lease_check_interval_ms: u64,
    /// Whether a released lock may be reacquired the fast way.
    pub enable_shard_lock_fast_reacquire: bool,
}

impl EtcdClientConfig {
    /// Accepts the settings iff the lease is at least the minimum and the
    /// watchdog period lies strictly below the lease.
    pub fn validate(&self) -> (r: Result<(), ConfigError>)
        ensures
            self.shard_lock_lease_ttl_sec < MIN_SHARD_LOCK_LEASE_TTL_SEC ==> r == Err::<
                (),
                ConfigError,
            >(ConfigError::LeaseTtlTooSmall),
            self.shard_lock_lease_ttl_sec >= MIN_SHARD_LOCK_LEASE_TTL_SEC
                && self.shard_lock_lease_check_interval_ms >= self.shard_lock_lease_ttl_sec
                * 1000 ==> r == Err::<(), ConfigError>(ConfigError::LeaseCheckIntervalTooLarge),
            self.shard_lock_lease_ttl_sec >= MIN_SHARD_LOCK_LEASE_TTL_SEC
                && self.shard_lock_lease_check_interval_ms < self.shard_lock_lease_ttl_sec
                * 1000 ==> r == Ok::<(), ConfigError>(()),
    {
        if self.shard_lock_lease_ttl_sec < MIN_SHARD_LOCK_LEASE_TTL_SEC {
            return Err(ConfigError::LeaseTtlTooSmall);
        }
        // Compare in a wider type: the lease in milliseconds may not fit
        // sixty-four bits.
        let lease_ms: u128 = (self.shard_lock_lease_ttl_sec as u128) * 1000;
        if (self.shard_lock_lease_check_interval_ms as u128) >= lease_ms {
            return Err(ConfigError::LeaseCheckIntervalTooLarge);
        }
        Ok(())
    }

    /// The RPC timeout for coordinator calls: one sixth of the lock lease,
    /// in milliseconds.
    pub fn rpc_timeout_ms(&self) -> (r: u64)
        requires
            self.shard_lock_lease_ttl_sec * 1000 <= u64::MAX,
        ensures
            r == self.shard_lock_lease_ttl_sec * 1000 / 6,
    {
        self.shard_lock_lease_ttl_sec * 1000 / 6
    }

    /// A local coordinator, the stock namespace, a thirty-second lease
    /// checked five times a second.
    pub fn default() -> (r: EtcdClientConfig)
        ensures
            r.root_path@ == "/horaedb"@,
            r.connect_timeout_ms == 5000,
            r.shard_lock_lease_ttl_sec == 30,
            r.shard_lock_lease_check_interval_ms == 200,
            r.enable_shard_lock_fast_reacquire == false,
            r.server_addrs.deep_view() == seq!["127.0.0.1:2379"@],
            r.tls.enable == false,
    {
        let mut server_addrs: Vec<String> = Vec::new();
        server_addrs.push(String::from_str("127.0.0.1:2379"));
        proof {
            assert(server_addrs.deep_view() =~= seq!["127.0.0.1:2379"@]);
        }
        EtcdClientConfig {
            server_addrs,
            root_path: String::from_str("/horaedb"),
            connect_timeout_ms: 5000,
            tls: TlsConfig::default(),
            shard_lock_lease_ttl_sec: 30,
            shard_lock_lease_check_interval_ms: 200,
            enable_shard_lock_fast_reacquire: false,
        }
    }
}

/// Settings of the meta client: where the coordinator's RPC face lives
/// and the heartbeat lease.
pub struct MetaClientConfig {
    pub cluster_name: String,
    pub meta_addr: String,
    /// The heartbeat lease, in milliseconds; the heartbeat period is
    /// derived from it.
    pub lease_ms: u64,
}

impl MetaClientConfig {
    /// An unnamed cluster against a local meta endpoint, ten-second lease.
    pub fn default() -> (r: MetaClientConfig)
        ensures
            r.cluster_name@ == Seq::<char>::empty(),
            r.meta_addr@ == "127.0.0.1:8080"@,
            r.lease_ms == 10_000,
    {
        MetaClientConfig {
            cluster_name: String::new(),
            meta_addr: String::from_str("127.0.0.1:8080"),
            lease_ms: 10_000,
        }
    }
}

/// The whole cluster configuration.
pub struct ClusterConfig {
    pub cmd_channel_buffer_size: usize,
    pub node_type: NodeType,
    pub meta_client: MetaClientConfig,
    pub etcd_client: EtcdClientConfig,
}

impl ClusterConfig {
    /// A database node with stock client settings.
    pub fn default() -> (r: ClusterConfig)
        ensures
            r.cmd_channel_buffer_size == 0,
            r.node_type == NodeType::HoraeDB,
    {
        ClusterConfig {
            cmd_channel_buffer_size: 0,
            node_type: NodeType::HoraeDB,
            meta_client: MetaClientConfig::default(),
            etcd_client: EtcdClientConfig::default(),
        }
    }
}

} // verus!
