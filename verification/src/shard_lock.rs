//! Exclusive, leased ownership of shards through the coordinator's
//! key-value store.
//!
//! Each shard has one key, `<prefix>/<shard_id>`, bound to a lease with a
//! TTL. Acquisition is a compare-and-set that fails while a live lease
//! holds the key, so at most one node owns a shard at any time; a
//! keepalive refreshes the lease and a watchdog freezes the shard when the
//! lease is lost. The lease table here is the model of the coordinator's
//! state for the lock prefix: the running system reaches it over RPC, and
//! every transition the protocol performs on it is specified below.

use vstd::prelude::*;

use crate::shard_set::ShardSet;
use crate::shard_set::ShardStatus;
use crate::shard_set::spec_get;

verus! {

/// One digit as text.
pub open spec fn digit_seq(d: int) -> Seq<char> {
    if d == 0 {
        "0"@
    } else if d == 1 {
        "1"@
    } else if d == 2 {
        "2"@
    } else if d == 3 {
        "3"@
    } else if d == 4 {
        "4"@
    } else if d == 5 {
        "5"@
    } else if d == 6 {
        "6"@
    } else if d == 7 {
        "7"@
    } else if d == 8 {
        "8"@
    } else {
        "9"@
    }
}

/// A number in decimal, most significant digit first.
pub open spec fn decimal_seq(n: int) -> Seq<char>
    decreases n,
{
    if n < 10 {
        digit_seq(n)
    } else {
        decimal_seq(n / 10) + digit_seq(n % 10)
    }
}

/// One digit as a string slice.
fn digit_str(d: u32) -> (r: &'static str)
    requires
        d < 10,
    ensures
        r@ == digit_seq(d as int),
{
    match d {
        0 => "0",
        1 => "1",
        2 => "2",
        3 => "3",
        4 => "4",
        5 => "5",
        6 => "6",
        7 => "7",
        8 => "8",
        _ => "9",
    }
}

/// A shard id in decimal, for the lock key.
pub fn u32_decimal(n: u32) -> (r: String)
    ensures
        r@ == decimal_seq(n as int),
    decreases n,
{
    if n < 10 {
        String::from_str(digit_str(n))
    } else {
        let mut s = u32_decimal(n / 10);
        s.append(digit_str(n % 10));
        s
    }
}

/// Settings of the shard lock manager.
pub struct ShardLockConfig {
    /// This node's identity, as written into the lock value.
    pub node_name: String,
    /// The key prefix all shard locks live under.
    pub lock_key_prefix: String,
    /// Lease TTL, in seconds.
    pub lock_lease_ttl_sec: u64,
    /// Watchdog period, in milliseconds; below the TTL.
    pub lock_lease_check_interval_ms: u64,
    /// Whether release hands the lease off for fast reacquisition.
    pub enable_fast_reacquire_lock: bool,
    /// Timeout of each coordinator call, in milliseconds.
    pub rpc_timeout_ms: u64,
}

/// One live or expired lock lease in the coordinator: which shard, whose
/// node, under which lease, and until when.
pub struct LockLease {
    pub shard_id: u32,
    pub node_name: String,
    pub lease_id: u64,
    pub expires_at_ms: u64,
}

/// Spec-level image of a [`LockLease`].
#[verifier::ext_equal]
pub struct LockLeaseV {
    pub shard_id: u32,
    pub node_name: Seq<char>,
    pub lease_id: u64,
    pub expires_at_ms: u64,
}

impl View for LockLease {
    type V = LockLeaseV;

    open spec fn view(&self) -> LockLeaseV {
        LockLeaseV {
            shard_id: self.shard_id,
            node_name: self.node_name@,
            lease_id: self.lease_id,
            expires_at_ms: self.expires_at_ms,
        }
    }
}

impl DeepView for LockLease {
    type V = LockLeaseV;

    open spec fn deep_view(&self) -> LockLeaseV {
        self@
    }
}

impl Clone for LockLease {
    fn clone(&self) -> (r: Self)
        ensures
            r@ == self@,
    {
        LockLease {
            shard_id: self.shard_id,
            node_name: self.node_name.clone(),
            lease_id: self.lease_id,
            expires_at_ms: self.expires_at_ms,
        }
    }
}

/// True iff the lease still holds at this clock reading.
pub open spec fn lease_live(l: LockLeaseV, now_ms: u64) -> bool {
    l.expires_at_ms > now_ms
}

/// First position of the lease on this shard, or none: one key per shard.
pub open spec fn lease_idx(leases: Seq<LockLeaseV>, shard_id: u32) -> int
    decreases leases.len(),
{
    if leases.len() == 0 {
        -1
    } else if leases[0].shard_id == shard_id {
        0
    } else {
        let r = lease_idx(leases.drop_first(), shard_id);
        if r < 0 {
            -1
        } else {
            r + 1
        }
    }
}

/// The lease on this shard, if any.
pub open spec fn lease_of(leases: Seq<LockLeaseV>, shard_id: u32) -> Option<LockLeaseV> {
    let i = lease_idx(leases, shard_id);
    if i >= 0 {
        Some(leases[i])
    } else {
        None
    }
}

/// True iff this node owns a live lease on the shard.
pub open spec fn holds_live_lease(
    leases: Seq<LockLeaseV>,
    shard_id: u32,
    node_name: Seq<char>,
    now_ms: u64,
) -> bool {
    match lease_of(leases, shard_id) {
        Some(l) => l.node_name == node_name && lease_live(l, now_ms),
        None => false,
    }
}

/// Lease exclusivity: no two nodes hold live leases on one shard at one
/// time, because a shard has one lock key and so one lease.
pub proof fn lemma_lease_exclusive(
    leases: Seq<LockLeaseV>,
    shard_id: u32,
    node_a: Seq<char>,
    node_b: Seq<char>,
    now_ms: u64,
)
    requires
        holds_live_lease(leases, shard_id, node_a, now_ms),
        holds_live_lease(leases, shard_id, node_b, now_ms),
    ensures
        node_a == node_b,
{
}

/// The found position is in bounds and holds the shard looked for.
pub proof fn lemma_lease_idx_valid(leases: Seq<LockLeaseV>, shard_id: u32)
    ensures
        lease_idx(leases, shard_id) >= 0 ==> 0 <= lease_idx(leases, shard_id) < leases.len()
            && leases[lease_idx(leases, shard_id)].shard_id == shard_id,
        lease_idx(leases, shard_id) < 0 ==> forall|i: int|
            0 <= i < leases.len() ==> (#[trigger] leases[i]).shard_id != shard_id,
    decreases leases.len(),
{
    if leases.len() > 0 {
        lemma_lease_idx_valid(leases.drop_first(), shard_id);
        if lease_idx(leases, shard_id) < 0 {
            assert forall|i: int| 0 <= i < leases.len() implies (#[trigger] leases[i]).shard_id
                != shard_id by {
                if i > 0 {
                    assert(leases.drop_first()[i - 1] == leases[i]);
                }
            }
        }
    }
}

/// The coordinator's lease table for the lock prefix.
pub struct LeaseRegistry {
    leases: Vec<LockLease>,
    next_lease_id: u64,
}

impl View for LeaseRegistry {
    type V = Seq<LockLeaseV>;

    closed spec fn view(&self) -> Seq<LockLeaseV> {
        self.leases.deep_view()
    }
}

/// One lease per shard: no two slots share a shard id.
pub open spec fn lease_shards_unique(leases: Seq<LockLeaseV>) -> bool {
    forall|p: int, q: int| 0 <= p < q < leases.len() ==> leases[p].shard_id != leases[q].shard_id
}

impl LeaseRegistry {
    /// The table invariant every operation preserves.
    pub open spec fn wf(&self) -> bool {
        lease_shards_unique(self@)
    }

    /// An empty lease table.
    pub fn new() -> (r: LeaseRegistry)
        ensures
            r@ == Seq::<LockLeaseV>::empty(),
            r.wf(),
    {
        let r = LeaseRegistry { leases: Vec::new(), next_lease_id: 1 };
        proof {
            assert(r@ =~= Seq::<LockLeaseV>::empty());
        }
        r
    }

    /// First position of the lease on this shard, if any.
    #[verifier::loop_isolation(false)]
    fn find_idx(&self, shard_id: u32) -> (r: Option<usize>)
        ensures
            match r {
                Some(i) => lease_idx(self@, shard_id) == i,
                None => lease_idx(self@, shard_id) < 0,
            },
    {
        let mut i: usize = 0;
        while i < self.leases.len()
            invariant
                i <= self@.len(),
                lease_idx(self@.subrange(0, i as int), shard_id) < 0,
            decreases self@.len() - i,
        {
            let ghost prefix = self@.subrange(0, i as int);
            proof {
                assert(self@.subrange(0, i + 1) =~= prefix.push(self@[i as int]));
                lemma_lease_idx_push(prefix, self@[i as int], shard_id);
            }
            if self.leases[i].shard_id == shard_id {
                proof {
                    lemma_lease_idx_prefix(self@, i as int, shard_id);
                }
                return Some(i);
            }
            i = i + 1;
        }
        proof {
            assert(self@.subrange(0, self@.len() as int) =~= self@);
        }
        None
    }

    /// The compare-and-set acquisition: grants a fresh lease bound to the
    /// shard's key unless a live lease already holds it. An expired lease
    /// on the key is displaced, as the coordinator reclaims expired
    /// leases.
    #[verifier::rlimit(30)]
    pub fn try_acquire(&mut self, shard_id: u32, node_name: &String, now_ms: u64, ttl_ms: u64)
        -> (r: Option<u64>)
        requires
            old(self).wf(),
            now_ms + ttl_ms <= u64::MAX,
            old(self).next_id_spec() < u64::MAX,
        ensures
            final(self).wf(),
            final(self).next_id_spec() >= old(self).next_id_spec(),
            match r {
                Some(lease_id) => {
                    &&& match lease_of(old(self)@, shard_id) {
                        Some(l) => !lease_live(l, now_ms),
                        None => true,
                    }
                    &&& lease_of(final(self)@, shard_id) == Some(LockLeaseV {
                        shard_id,
                        node_name: node_name@,
                        lease_id,
                        expires_at_ms: (now_ms + ttl_ms) as u64,
                    })
                    &&& forall|other: u32|
                        other != shard_id ==> lease_of(final(self)@, other) == lease_of(
                            old(self)@,
                            other,
                        )
                },
                None => {
                    &&& lease_of(old(self)@, shard_id) matches Some(l) && lease_live(l, now_ms)
                    &&& final(self)@ == old(self)@
                },
            },
    {
        let found = self.find_idx(shard_id);
        let lease_id = self.next_lease_id;
        let fresh = LockLease {
            shard_id,
            node_name: node_name.clone(),
            lease_id,
            expires_at_ms: now_ms + ttl_ms,
        };
        proof {
            lemma_lease_idx_valid(self@, shard_id);
        }
        match found {
            Some(i) => {
                if self.leases[i].expires_at_ms > now_ms {
                    return None;
                }
                let ghost pre = self@;
                let ghost pres = self.leases@;
                self.leases.set(i, fresh);
                self.next_lease_id = lease_id + 1;
                proof {
                    assert forall|j: int| 0 <= j < self@.len() implies self@[j] == pre.update(
                        i as int,
                        fresh@,
                    )[j] by {
                        if j != i as int {
                            assert(self.leases@[j] == pres[j]);
                        }
                    }
                    assert(self@ =~= pre.update(i as int, fresh@));
                    lemma_lease_idx_update(pre, i as int, fresh@, shard_id);
                    assert forall|p: int, q: int|
                        0 <= p < q < self@.len() implies self@[p].shard_id
                        != self@[q].shard_id by {
                        assert(pre[p].shard_id != pre[q].shard_id);
                    }
                }
                Some(lease_id)
            },
            None => {
                let ghost pre = self@;
                let ghost pres = self.leases@;
                self.leases.push(fresh);
                self.next_lease_id = lease_id + 1;
                proof {
                    assert forall|j: int| 0 <= j < self@.len() implies self@[j] == pre.push(
                        fresh@,
                    )[j] by {
                        if j < pre.len() {
                            assert(self.leases@[j] == pres[j]);
                        }
                    }
                    assert(self@ =~= pre.push(fresh@));
                    lemma_lease_idx_push(pre, fresh@, shard_id);
                    lemma_lease_idx_valid(pre, shard_id);
                    assert forall|p: int, q: int|
                        0 <= p < q < self@.len() implies self@[p].shard_id
                        != self@[q].shard_id by {
                        if q < pre.len() {
                            assert(pre[p].shard_id != pre[q].shard_id);
                        } else {
                            assert(self@[q] == fresh@);
                            assert(pre[p].shard_id != shard_id);
                        }
                    }
                    assert forall|other: u32| other != shard_id implies lease_of(
                        self@,
                        other,
                    ) == lease_of(pre, other) by {
                        lemma_lease_idx_append_other(pre, fresh@, other);
                    }
                }
                Some(lease_id)
            },
        }
    }

    /// The keepalive: extends the lease while this node still owns it.
    #[verifier::rlimit(30)]
    pub fn renew(&mut self, shard_id: u32, node_name: &String, lease_id: u64, now_ms: u64, ttl_ms: u64)
        -> (r: bool)
        requires
            old(self).wf(),
            now_ms + ttl_ms <= u64::MAX,
        ensures
            final(self).wf(),
            r == (lease_of(old(self)@, shard_id) matches Some(l) && l.node_name == node_name@
                && l.lease_id == lease_id),
            r ==> lease_of(final(self)@, shard_id) == Some(LockLeaseV {
                shard_id,
                node_name: node_name@,
                lease_id,
                expires_at_ms: (now_ms + ttl_ms) as u64,
            }),
            r ==> forall|other: u32|
                other != shard_id ==> lease_of(final(self)@, other) == lease_of(
                    old(self)@,
                    other,
                ),
            !r ==> final(self)@ == old(self)@,
    {
        let found = self.find_idx(shard_id);
        proof {
            lemma_lease_idx_valid(self@, shard_id);
        }
        match found {
            Some(i) => {
                let matches_owner = self.leases[i].node_name == *node_name
                    && self.leases[i].lease_id == lease_id;
                if !matches_owner {
                    return false;
                }
                let renewed = LockLease {
                    shard_id,
                    node_name: node_name.clone(),
                    lease_id,
                    expires_at_ms: now_ms + ttl_ms,
                };
                let ghost pre = self@;
                let ghost pres = self.leases@;
                self.leases.set(i, renewed);
                proof {
                    assert forall|j: int| 0 <= j < self@.len() implies self@[j] == pre.update(
                        i as int,
                        renewed@,
                    )[j] by {
                        if j != i as int {
                            assert(self.leases@[j] == pres[j]);
                        }
                    }
                    assert(self@ =~= pre.update(i as int, renewed@));
                    lemma_lease_idx_update(pre, i as int, renewed@, shard_id);
                    assert forall|p: int, q: int|
                        0 <= p < q < self@.len() implies self@[p].shard_id
                        != self@[q].shard_id by {
                        assert(pre[p].shard_id != pre[q].shard_id);
                    }
                }
                true
            },
            None => false,
        }
    }

    /// The release on shutdown: revokes the lease if this node still owns
    /// it.
    #[verifier::rlimit(30)]
    pub fn release(&mut self, shard_id: u32, node_name: &String, lease_id: u64) -> (r: bool)
        requires
            old(self).wf(),
        ensures
            final(self).wf(),
            r == (lease_of(old(self)@, shard_id) matches Some(l) && l.node_name == node_name@
                && l.lease_id == lease_id),
            r ==> lease_of(final(self)@, shard_id) is None,
            r ==> forall|other: u32|
                other != shard_id ==> lease_of(final(self)@, other) == lease_of(
                    old(self)@,
                    other,
                ),
            !r ==> final(self)@ == old(self)@,
    {
        let found = self.find_idx(shard_id);
        proof {
            lemma_lease_idx_valid(self@, shard_id);
        }
        match found {
            Some(i) => {
                let matches_owner = self.leases[i].node_name == *node_name
                    && self.leases[i].lease_id == lease_id;
                if !matches_owner {
                    return false;
                }
                let ghost pre = self@;
                let ghost pres = self.leases@;
                let _ = self.leases.remove(i);
                proof {
                    assert forall|j: int| 0 <= j < self@.len() implies self@[j] == pre.remove(
                        i as int,
                    )[j] by {
                        if j < i as int {
                            assert(self.leases@[j] == pres[j]);
                        } else {
                            assert(self.leases@[j] == pres[j + 1]);
                        }
                    }
                    assert(self@ =~= pre.remove(i as int));
                    assert forall|j: int|
                        0 <= j < pre.len() && j != i as int implies (
                    #[trigger] pre[j]).shard_id != shard_id by {
                        if j < i as int {
                            assert(pre[j].shard_id != pre[i as int].shard_id);
                        }
                    }
                    lemma_lease_idx_remove(pre, i as int, shard_id);
                    assert forall|p: int, q: int|
                        0 <= p < q < self@.len() implies self@[p].shard_id
                        != self@[q].shard_id by {
                        let po = if p < i as int { p } else { p + 1 };
                        let qo = if q < i as int { q } else { q + 1 };
                        assert(self@[p] == pre[po]);
                        assert(self@[q] == pre[qo]);
                    }
                }
                true
            },
            None => false,
        }
    }

    /// The next lease id the coordinator will assign.
    pub closed spec fn next_id_spec(&self) -> u64 {
        self.next_lease_id
    }
}

/// The shard lock manager of one node: key formatting and the watchdog's
/// decisions. The coordinator calls themselves go over the wire.
pub struct ShardLockManager {
    pub config: ShardLockConfig,
}

impl ShardLockManager {
    /// A manager with these settings.
    pub fn new(config: ShardLockConfig) -> (r: ShardLockManager)
        ensures
            r.config.node_name@ == config.node_name@,
            r.config.lock_key_prefix@ == config.lock_key_prefix@,
            r.config.lock_lease_ttl_sec == config.lock_lease_ttl_sec,
            r.config.lock_lease_check_interval_ms == config.lock_lease_check_interval_ms,
            r.config.enable_fast_reacquire_lock == config.enable_fast_reacquire_lock,
            r.config.rpc_timeout_ms == config.rpc_timeout_ms,
    {
        ShardLockManager { config }
    }

    /// The lock key of one shard: `<prefix>/<shard_id>`.
    pub fn lock_key(&self, shard_id: u32) -> (r: String)
        ensures
            r@ == self.config.lock_key_prefix@ + "/"@ + decimal_seq(shard_id as int),
    {
        let mut key = self.config.lock_key_prefix.clone();
        key.append("/");
        let digits = u32_decimal(shard_id);
        key.append(digits.as_str());
        key
    }

    /// The watchdog's test: has the lease run out at this clock reading?
    /// Agrees with [`lease_live`]: a lease is expired exactly when it is
    /// no longer live.
    pub fn lease_expired(&self, expires_at_ms: u64, now_ms: u64) -> (r: bool)
        ensures
            r == (expires_at_ms <= now_ms),
            forall|l: LockLeaseV| l.expires_at_ms == expires_at_ms ==> r == !lease_live(l, now_ms),
    {
        expires_at_ms <= now_ms
    }
}

/// What the watchdog does on lease loss: the shard is fenced off as
/// frozen, so no writes are taken on a shard this node no longer owns.
pub fn freeze_shard(shard_set: &mut ShardSet, shard_id: u32) -> (r: bool)
    requires
        old(shard_set).wf(),
    ensures
        final(shard_set).wf(),
        r == (spec_get(old(shard_set)@, shard_id) is Some),
        r ==> (spec_get(final(shard_set)@, shard_id) matches Some(s)
            && spec_get(old(shard_set)@, shard_id) matches Some(s0) && s == (
        crate::shard_set::ShardV { status: ShardStatus::Frozen, ..s0 })),
        forall|other: u32|
            other != shard_id ==> spec_get(final(shard_set)@, other) == spec_get(
                old(shard_set)@,
                other,
            ),
        !r ==> spec_get(final(shard_set)@, shard_id) is None,
    {
    let found = shard_set.get(shard_id);
    match found {
        Some(shard) => {
            proof {
                crate::shard_set::lemma_shard_idx_valid(old(shard_set)@, shard_id);
            }
            let mut frozen = shard;
            frozen.status = ShardStatus::Frozen;
            let _ = shard_set.insert(shard_id, frozen);
            true
        },
        None => false,
    }
}

/// Appending a lease of another shard leaves a lookup alone; appending
/// the shard looked for finds it at the end of a table that lacked it.
proof fn lemma_lease_idx_push(leases: Seq<LockLeaseV>, lease: LockLeaseV, shard_id: u32)
    requires
        lease_idx(leases, shard_id) < 0,
    ensures
        lease_idx(leases.push(lease), shard_id) == if lease.shard_id == shard_id {
            leases.len() as int
        } else {
            -1
        },
    decreases leases.len(),
{
    if leases.len() == 0 {
        assert(leases.push(lease).drop_first() =~= Seq::<LockLeaseV>::empty());
        assert(lease_idx(Seq::<LockLeaseV>::empty(), shard_id) == -1);
        assert(leases.push(lease)[0] == lease);
    } else {
        assert(leases.push(lease)[0] == leases[0]);
        assert(leases.push(lease).drop_first() =~= leases.drop_first().push(lease));
        lemma_lease_idx_push(leases.drop_first(), lease, shard_id);
    }
}

/// A match at `i` after a miss on everything before it is the first match.
proof fn lemma_lease_idx_prefix(leases: Seq<LockLeaseV>, i: int, shard_id: u32)
    requires
        0 <= i < leases.len(),
        lease_idx(leases.subrange(0, i), shard_id) < 0,
        leases[i].shard_id == shard_id,
    ensures
        lease_idx(leases, shard_id) == i,
    decreases i,
{
    if i == 0 {
    } else {
        assert(leases.subrange(0, i).drop_first() =~= leases.drop_first().subrange(0, i - 1));
        lemma_lease_idx_prefix(leases.drop_first(), i - 1, shard_id);
    }
}

/// Overwriting the slot a shard's lease sits in moves that shard's lookup
/// to the new lease and leaves every other shard alone.
proof fn lemma_lease_idx_update(leases: Seq<LockLeaseV>, i: int, lease: LockLeaseV, shard_id: u32)
    requires
        0 <= i < leases.len(),
        leases[i].shard_id == shard_id,
        lease.shard_id == shard_id,
        lease_idx(leases, shard_id) == i,
    ensures
        lease_of(leases.update(i, lease), shard_id) == Some(lease),
        forall|other: u32|
            other != shard_id ==> lease_of(leases.update(i, lease), other) == lease_of(
                leases,
                other,
            ),
    decreases i,
{
    let upd = leases.update(i, lease);
    lemma_lease_idx_same_find(leases, upd, shard_id, i);
    lemma_lease_idx_valid(upd, shard_id);
    assert forall|other: u32| other != shard_id implies lease_of(upd, other) == lease_of(
        leases,
        other,
    ) by {
        lemma_lease_idx_agree(leases, upd, other);
    }
}

/// Removing the slot a shard's lease sits in empties that shard's lookup
/// and leaves every other shard alone. One lease per shard: the removed
/// slot was the only one.
proof fn lemma_lease_idx_remove(leases: Seq<LockLeaseV>, i: int, shard_id: u32)
    requires
        0 <= i < leases.len(),
        leases[i].shard_id == shard_id,
        lease_idx(leases, shard_id) == i,
        forall|j: int|
            0 <= j < leases.len() && j != i ==> (#[trigger] leases[j]).shard_id != shard_id,
    ensures
        lease_of(leases.remove(i), shard_id) is None,
        forall|other: u32|
            other != shard_id ==> lease_of(leases.remove(i), other) == lease_of(leases, other),
{
    let rem = leases.remove(i);
    assert forall|j: int| 0 <= j < rem.len() implies (#[trigger] rem[j]).shard_id
        != shard_id by {
        let jo = if j < i {
            j
        } else {
            j + 1
        };
        assert(rem[j] == leases[jo]);
    }
    lemma_lease_idx_nowhere(rem, shard_id);
    assert forall|other: u32| other != shard_id implies lease_of(rem, other) == lease_of(
        leases,
        other,
    ) by {
        lemma_lease_idx_remove_other(leases, i, other);
    }
}

/// A lookup misses a table in which its shard is nowhere.
proof fn lemma_lease_idx_nowhere(leases: Seq<LockLeaseV>, shard_id: u32)
    requires
        forall|j: int| 0 <= j < leases.len() ==> (#[trigger] leases[j]).shard_id != shard_id,
    ensures
        lease_idx(leases, shard_id) < 0,
    decreases leases.len(),
{
    if leases.len() > 0 {
        assert forall|j: int| 0 <= j < leases.drop_first().len() implies (
        #[trigger] leases.drop_first()[j]).shard_id != shard_id by {
            assert(leases.drop_first()[j] == leases[j + 1]);
        }
        lemma_lease_idx_nowhere(leases.drop_first(), shard_id);
    }
}

/// Appending a lease leaves lookups of other shards alone.
proof fn lemma_lease_idx_append_other(leases: Seq<LockLeaseV>, lease: LockLeaseV, other: u32)
    requires
        lease.shard_id != other,
    ensures
        lease_of(leases.push(lease), other) == lease_of(leases, other),
    decreases leases.len(),
{
    lemma_lease_idx_valid(leases, other);
    if lease_idx(leases, other) < 0 {
        lemma_lease_idx_push(leases, lease, other);
        lemma_lease_idx_valid(leases.push(lease), other);
    } else {
        lemma_lease_idx_hit_append(leases, lease, other);
    }
}

/// Appending never moves a lookup that already hit.
proof fn lemma_lease_idx_hit_append(leases: Seq<LockLeaseV>, lease: LockLeaseV, shard_id: u32)
    requires
        lease_idx(leases, shard_id) >= 0,
    ensures
        lease_idx(leases.push(lease), shard_id) == lease_idx(leases, shard_id),
    decreases leases.len(),
{
    if leases.len() > 0 {
        assert(leases.push(lease)[0] == leases[0]);
        assert(leases.push(lease).drop_first() =~= leases.drop_first().push(lease));
        if leases[0].shard_id != shard_id {
            lemma_lease_idx_hit_append(leases.drop_first(), lease, shard_id);
        }
    }
}

/// Removing a slot of another shard leaves a lookup alone.
proof fn lemma_lease_idx_remove_other(leases: Seq<LockLeaseV>, i: int, other: u32)
    requires
        0 <= i < leases.len(),
        leases[i].shard_id != other,
    ensures
        lease_of(leases.remove(i), other) == lease_of(leases, other),
    decreases leases.len(),
{
    let rem = leases.remove(i);
    if i == 0 {
        assert(rem =~= leases.drop_first());
        lemma_lease_idx_valid(leases.drop_first(), other);
        lemma_lease_idx_valid(leases, other);
    } else {
        if leases[0].shard_id == other {
            assert(rem[0] == leases[0]);
        } else {
            assert(rem[0] == leases[0]);
            assert(rem.drop_first() =~= leases.drop_first().remove(i - 1));
            lemma_lease_idx_remove_other(leases.drop_first(), i - 1, other);
            lemma_lease_idx_valid(leases.drop_first(), other);
            lemma_lease_idx_valid(leases.drop_first().remove(i - 1), other);
            lemma_lease_idx_valid(leases, other);
            lemma_lease_idx_valid(rem, other);
        }
    }
}

/// Two equally long tables agreeing wherever either holds a shard look
/// that shard up alike.
proof fn lemma_lease_idx_agree(a: Seq<LockLeaseV>, b: Seq<LockLeaseV>, shard_id: u32)
    requires
        a.len() == b.len(),
        forall|j: int|
            0 <= j < a.len() ==> ((#[trigger] a[j]).shard_id == shard_id <==> (
            #[trigger] b[j]).shard_id == shard_id),
        forall|j: int| 0 <= j < a.len() && a[j].shard_id == shard_id ==> a[j] == b[j],
    ensures
        lease_of(a, shard_id) == lease_of(b, shard_id),
    decreases a.len(),
{
    if a.len() > 0 {
        assert forall|j: int|
            0 <= j < a.drop_first().len() implies ((#[trigger] a.drop_first()[j]).shard_id
            == shard_id <==> (#[trigger] b.drop_first()[j]).shard_id == shard_id) && (
        a.drop_first()[j].shard_id == shard_id ==> a.drop_first()[j] == b.drop_first()[j]) by {
            assert(a.drop_first()[j] == a[j + 1]);
            assert(b.drop_first()[j] == b[j + 1]);
        }
        lemma_lease_idx_agree(a.drop_first(), b.drop_first(), shard_id);
        lemma_lease_idx_valid(a, shard_id);
        lemma_lease_idx_valid(b, shard_id);
    }
}

/// An update at the slot where the lookup already lands keeps the lookup
/// landing there.
proof fn lemma_lease_idx_same_find(a: Seq<LockLeaseV>, b: Seq<LockLeaseV>, shard_id: u32, i: int)
    requires
        a.len() == b.len(),
        0 <= i < a.len(),
        lease_idx(a, shard_id) == i,
        b[i].shard_id == shard_id,
        forall|j: int| 0 <= j < i ==> a[j] == b[j],
    ensures
        lease_idx(b, shard_id) == i,
    decreases i,
{
    lemma_lease_idx_valid(a, shard_id);
    if i == 0 {
    } else {
        assert(a[0].shard_id != shard_id) by {
            if a[0].shard_id == shard_id {
                assert(lease_idx(a, shard_id) == 0);
            }
        }
        assert(b[0] == a[0]);
        assert forall|j: int| 0 <= j < i - 1 implies a.drop_first()[j]
            == b.drop_first()[j] by {
            assert(a.drop_first()[j] == a[j + 1]);
            assert(b.drop_first()[j] == b[j + 1]);
        }
        assert(lease_idx(a, shard_id) == lease_idx(a.drop_first(), shard_id) + 1);
        assert(b.drop_first()[i - 1] == b[i]);
        lemma_lease_idx_same_find(a.drop_first(), b.drop_first(), shard_id, i - 1);
    }
}

} // verus!
