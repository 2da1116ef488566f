//! The process-wide registry of owned shards and their tables.
//!
//! A shard is a unit of ownership: identity, a monotonic version, a status,
//! and its member tables. The registry is keyed by shard id; a shard is
//! mutated only by the holder of its distributed lock.

use vstd::prelude::*;

verus! {

/// Where a shard stands in its lifecycle.
#[derive(Clone, Copy, Debug, PartialEq, Eq, Structural)]
pub enum ShardStatus {
    /// Created, tables not yet fully restored.
    Opening,
    /// Serving reads and writes.
    Ready,
    /// Its lease was lost; writes are fenced off.
    Frozen,
    /// Being removed from this node.
    Closing,
}

/// What a table lookup reports about the shard that serves the table.
#[derive(Clone, Copy, Debug, PartialEq, Eq, Structural)]
pub enum TableStatus {
    Opening,
    Ready,
    Frozen,
    Closing,
}

/// The table status a shard status maps to.
pub open spec fn table_status_of(s: ShardStatus) -> TableStatus {
    match s {
        ShardStatus::Opening => TableStatus::Opening,
        ShardStatus::Ready => TableStatus::Ready,
        ShardStatus::Frozen => TableStatus::Frozen,
        ShardStatus::Closing => TableStatus::Closing,
    }
}

/// Identity and version of a shard, as the coordinator speaks of it.
#[derive(Clone, Copy, Debug, PartialEq, Eq, Structural)]
pub struct ShardInfo {
    pub id: u32,
    pub version: u64,
}

/// One table as listed in a shard: identity, name, and the schema it
/// belongs to.
pub struct TableInfo {
    pub id: u64,
    pub name: String,
    pub schema_name: String,
}

/// Spec-level image of a [`TableInfo`].
#[verifier::ext_equal]
pub struct TableInfoV {
    pub id: u64,
    pub name: Seq<char>,
    pub schema_name: Seq<char>,
}

impl View for TableInfo {
    type V = TableInfoV;

    open spec fn view(&self) -> TableInfoV {
        TableInfoV { id: self.id, name: self.name@, schema_name: self.schema_name@ }
    }
}

impl DeepView for TableInfo {
    type V = TableInfoV;

    open spec fn deep_view(&self) -> TableInfoV {
        self@
    }
}

impl Clone for TableInfo {
    fn clone(&self) -> (r: Self)
        ensures
            r@ == self@,
    {
        TableInfo {
            id: self.id,
            name: self.name.clone(),
            schema_name: self.schema_name.clone(),
        }
    }
}

/// One owned shard.
pub struct Shard {
    pub id: u32,
    pub version: u64,
    pub status: ShardStatus,
    pub tables: Vec<TableInfo>,
}

/// Spec-level image of a [`Shard`].
#[verifier::ext_equal]
pub struct ShardV {
    pub id: u32,
    pub version: u64,
    pub status: ShardStatus,
    pub tables: Seq<TableInfoV>,
}

impl View for Shard {
    type V = ShardV;

    open spec fn view(&self) -> ShardV {
        ShardV {
            id: self.id,
            version: self.version,
            status: self.status,
            tables: self.tables.deep_view(),
        }
    }
}

impl DeepView for Shard {
    type V = ShardV;

    open spec fn deep_view(&self) -> ShardV {
        self@
    }
}

impl Clone for Shard {
    #[verifier::loop_isolation(false)]
    fn clone(&self) -> (r: Self)
        ensures
            r@ == self@,
    {
        let mut tables: Vec<TableInfo> = Vec::new();
        let mut i: usize = 0;
        while i < self.tables.len()
            invariant
                i <= self.tables@.len(),
                tables.deep_view() == self.tables.deep_view().subrange(0, i as int),
            decreases self.tables@.len() - i,
        {
            tables.push(self.tables[i].clone());
            proof {
                assert(tables.deep_view() =~= self.tables.deep_view().subrange(0, i + 1));
            }
            i = i + 1;
        }
        proof {
            assert(self.tables.deep_view().subrange(0, self.tables@.len() as int) =~= self
                .tables.deep_view());
        }
        Shard { id: self.id, version: self.version, status: self.status, tables }
    }
}

impl Shard {
    /// A fresh shard as the controller materializes it on open: the
    /// coordinator's identity and version, its member tables, opening.
    pub fn new(info: ShardInfo, tables: Vec<TableInfo>) -> (r: Shard)
        ensures
            r@.id == info.id,
            r@.version == info.version,
            r@.status == ShardStatus::Opening,
            r@.tables == tables.deep_view(),
    {
        Shard { id: info.id, version: info.version, status: ShardStatus::Opening, tables }
    }

    /// Identity and version, as reported in heartbeats.
    pub fn shard_info(&self) -> (r: ShardInfo)
        ensures
            r == (ShardInfo { id: self@.id, version: self@.version }),
    {
        ShardInfo { id: self.id, version: self.version }
    }

    /// The shard's lifecycle status.
    pub fn get_status(&self) -> (r: ShardStatus)
        ensures
            r == self@.status,
    {
        self.status
    }

    /// The first member table with this schema and name, if any.
    #[verifier::loop_isolation(false)]
    pub fn find_table(&self, schema_name: &String, table_name: &String) -> (r: Option<TableInfo>)
        ensures
            match r {
                Some(t) => exists|i: int|
                    0 <= i < self@.tables.len() && #[trigger] self@.tables[i] == t@
                        && t@.schema_name == schema_name@ && t@.name == table_name@,
                None => forall|i: int|
                    0 <= i < self@.tables.len() ==> !((#[trigger] self@.tables[i]).schema_name
                        == schema_name@ && self@.tables[i].name == table_name@),
            },
    {
        let mut i: usize = 0;
        while i < self.tables.len()
            invariant
                i <= self.tables@.len(),
                forall|j: int|
                    0 <= j < i ==> !((#[trigger] self@.tables[j]).schema_name == schema_name@
                        && self@.tables[j].name == table_name@),
            decreases self.tables@.len() - i,
        {
            let t = &self.tables[i];
            if t.schema_name == *schema_name && t.name == *table_name {
                let found = t.clone();
                proof {
                    assert(self@.tables[i as int] == found@);
                }
                return Some(found);
            }
            i = i + 1;
        }
        None
    }
}

/// First position of the shard with this id, or none.
pub open spec fn shard_idx(shards: Seq<ShardV>, shard_id: u32) -> int
    decreases shards.len(),
{
    if shards.len() == 0 {
        -1
    } else if shards[0].id == shard_id {
        0
    } else {
        let r = shard_idx(shards.drop_first(), shard_id);
        if r < 0 {
            -1
        } else {
            r + 1
        }
    }
}

/// The shard stored under this id, if any.
pub open spec fn spec_get(shards: Seq<ShardV>, shard_id: u32) -> Option<ShardV> {
    let i = shard_idx(shards, shard_id);
    if i >= 0 {
        Some(shards[i])
    } else {
        None
    }
}

/// The found position is in bounds and holds the id looked for; a missing
/// id is nowhere.
pub proof fn lemma_shard_idx_valid(shards: Seq<ShardV>, shard_id: u32)
    ensures
        shard_idx(shards, shard_id) >= 0 ==> 0 <= shard_idx(shards, shard_id) < shards.len()
            && shards[shard_idx(shards, shard_id)].id == shard_id,
        shard_idx(shards, shard_id) < 0 ==> forall|i: int|
            0 <= i < shards.len() ==> (#[trigger] shards[i]).id != shard_id,
    decreases shards.len(),
{
    if shards.len() > 0 {
        lemma_shard_idx_valid(shards.drop_first(), shard_id);
        if shard_idx(shards, shard_id) < 0 {
            assert forall|i: int| 0 <= i < shards.len() implies (#[trigger] shards[i]).id
                != shard_id by {
                if i > 0 {
                    assert(shards.drop_first()[i - 1] == shards[i]);
                }
            }
        }
    }
}

/// The registry of owned shards, keyed by shard id.
pub struct ShardSet {
    shards: Vec<Shard>,
}

impl View for ShardSet {
    type V = Seq<ShardV>;

    closed spec fn view(&self) -> Seq<ShardV> {
        self.shards.deep_view()
    }
}

/// No two stored shards share an id.
pub open spec fn shard_ids_unique(shards: Seq<ShardV>) -> bool {
    forall|p: int, q: int| 0 <= p < q < shards.len() ==> shards[p].id != shards[q].id
}

impl ShardSet {
    /// The registry invariant every operation preserves.
    pub open spec fn wf(&self) -> bool {
        shard_ids_unique(self@)
    }

    /// An empty registry.
    pub fn new() -> (r: ShardSet)
        ensures
            r@ == Seq::<ShardV>::empty(),
            r.wf(),
    {
        let r = ShardSet { shards: Vec::new() };
        proof {
            assert(r@ =~= Seq::<ShardV>::empty());
        }
        r
    }

    /// First position of the shard with this id, if present.
    #[verifier::loop_isolation(false)]
    fn find_idx(&self, shard_id: u32) -> (r: Option<usize>)
        ensures
            match r {
                Some(i) => shard_idx(self@, shard_id) == i,
                None => shard_idx(self@, shard_id) < 0,
            },
    {
        let mut i: usize = 0;
        while i < self.shards.len()
            invariant
                i <= self@.len(),
                shard_idx(self@.subrange(0, i as int), shard_id) < 0,
            decreases self@.len() - i,
        {
            let ghost prefix = self@.subrange(0, i as int);
            proof {
                assert(self@.subrange(0, i + 1) =~= prefix.push(self@[i as int]));
                lemma_shard_idx_push(prefix, self@[i as int], shard_id);
            }
            if self.shards[i].id == shard_id {
                proof {
                    lemma_shard_idx_prefix(self@, i as int, shard_id);
                }
                return Some(i);
            }
            i = i + 1;
        }
        proof {
            assert(self@.subrange(0, self@.len() as int) =~= self@);
        }
        None
    }

    /// Stores a shard under its id, returning any displaced shard so the
    /// caller can log the overwrite.
    #[verifier::rlimit(30)]
    pub fn insert(&mut self, shard_id: u32, shard: Shard) -> (r: Option<Shard>)
        requires
            old(self).wf(),
            shard@.id == shard_id,
        ensures
            final(self).wf(),
            spec_get(final(self)@, shard_id) == Some(shard@),
            forall|other: u32|
                other != shard_id ==> spec_get(final(self)@, other) == spec_get(
                    old(self)@,
                    other,
                ),
            r matches Some(d) ==> spec_get(old(self)@, shard_id) == Some(d@),
            r is None ==> spec_get(old(self)@, shard_id) is None,
    {
        proof {
            lemma_shard_idx_valid(self@, shard_id);
        }
        let found = self.find_idx(shard_id);
        match found {
            Some(i) => {
                let ghost pre = self@;
                let ghost pres = self.shards@;
                let displaced = self.shards[i].clone();
                self.shards.set(i, shard);
                proof {
                    assert forall|j: int| 0 <= j < self@.len() implies self@[j] == pre.update(
                        i as int,
                        shard@,
                    )[j] by {
                        if j != i as int {
                            assert(self.shards@[j] == pres[j]);
                        }
                    }
                    assert(self@ =~= pre.update(i as int, shard@));
                    lemma_shard_idx_update(pre, i as int, shard@, shard_id);
                }
                Some(displaced)
            },
            None => {
                let ghost pre = self@;
                let ghost pres = self.shards@;
                self.shards.push(shard);
                proof {
                    assert forall|j: int| 0 <= j < self@.len() implies self@[j] == pre.push(
                        shard@,
                    )[j] by {
                        if j < pre.len() {
                            assert(self.shards@[j] == pres[j]);
                        }
                    }
                    assert(self@ =~= pre.push(shard@));
                    lemma_shard_idx_valid(pre, shard_id);
                    lemma_shard_idx_append(pre, shard@, shard_id);
                    assert forall|other: u32| other != shard_id implies spec_get(
                        self@,
                        other,
                    ) == spec_get(pre, other) by {
                        lemma_shard_idx_append(pre, shard@, other);
                        lemma_shard_idx_valid(pre, other);
                    }
                }
                None
            },
        }
    }

    /// The shard stored under this id, as a snapshot.
    pub fn get(&self, shard_id: u32) -> (r: Option<Shard>)
        ensures
            match r {
                Some(s) => spec_get(self@, shard_id) == Some(s@),
                None => spec_get(self@, shard_id) is None,
            },
    {
        proof {
            lemma_shard_idx_valid(self@, shard_id);
        }
        let found = self.find_idx(shard_id);
        match found {
            Some(i) => Some(self.shards[i].clone()),
            None => None,
        }
    }

    /// Removes and returns the shard stored under this id.
    #[verifier::rlimit(30)]
    pub fn remove(&mut self, shard_id: u32) -> (r: Option<Shard>)
        requires
            old(self).wf(),
        ensures
            final(self).wf(),
            spec_get(final(self)@, shard_id) is None,
            forall|other: u32|
                other != shard_id ==> spec_get(final(self)@, other) == spec_get(
                    old(self)@,
                    other,
                ),
            r matches Some(d) ==> spec_get(old(self)@, shard_id) == Some(d@),
            r is None ==> spec_get(old(self)@, shard_id) is None && final(self)@ == old(self)@,
    {
        proof {
            lemma_shard_idx_valid(self@, shard_id);
        }
        let found = self.find_idx(shard_id);
        match found {
            Some(i) => {
                let ghost pre = self@;
                let ghost pres = self.shards@;
                let removed = self.shards.remove(i);
                proof {
                    assert forall|j: int| 0 <= j < self@.len() implies self@[j] == pre.remove(
                        i as int,
                    )[j] by {
                        if j < i as int {
                            assert(self.shards@[j] == pres[j]);
                        } else {
                            assert(self.shards@[j] == pres[j + 1]);
                        }
                    }
                    assert(self@ =~= pre.remove(i as int));
                    lemma_shard_idx_remove(pre, i as int, shard_id);
                }
                Some(removed)
            },
            None => None,
        }
    }

    /// A consistent point-in-time copy of all owned shards, for heartbeat
    /// and routing.
    #[verifier::loop_isolation(false)]
    pub fn all_shards(&self) -> (r: Vec<Shard>)
        ensures
            r.deep_view() == self@,
    {
        let mut out: Vec<Shard> = Vec::new();
        let mut i: usize = 0;
        while i < self.shards.len()
            invariant
                i <= self@.len(),
                out.deep_view() == self@.subrange(0, i as int),
            decreases self@.len() - i,
        {
            out.push(self.shards[i].clone());
            proof {
                assert(out.deep_view() =~= self@.subrange(0, i + 1));
            }
            i = i + 1;
        }
        proof {
            assert(self@.subrange(0, self@.len() as int) =~= self@);
        }
        out
    }
}

/// Appending a shard of another id leaves a lookup alone; appending the id
/// looked for finds it at the end of a list that lacked it.
proof fn lemma_shard_idx_push(shards: Seq<ShardV>, shard: ShardV, shard_id: u32)
    requires
        shard_idx(shards, shard_id) < 0,
    ensures
        shard_idx(shards.push(shard), shard_id) == if shard.id == shard_id {
            shards.len() as int
        } else {
            -1
        },
    decreases shards.len(),
{
    if shards.len() == 0 {
        assert(shards.push(shard).drop_first() =~= Seq::<ShardV>::empty());
        assert(shard_idx(Seq::<ShardV>::empty(), shard_id) == -1);
        assert(shards.push(shard)[0] == shard);
    } else {
        assert(shards.push(shard)[0] == shards[0]);
        assert(shards.push(shard).drop_first() =~= shards.drop_first().push(shard));
        lemma_shard_idx_push(shards.drop_first(), shard, shard_id);
    }
}

/// A match at `i` after a miss on everything before it is the first match.
proof fn lemma_shard_idx_prefix(shards: Seq<ShardV>, i: int, shard_id: u32)
    requires
        0 <= i < shards.len(),
        shard_idx(shards.subrange(0, i), shard_id) < 0,
        shards[i].id == shard_id,
    ensures
        shard_idx(shards, shard_id) == i,
    decreases i,
{
    if i == 0 {
    } else {
        assert(shards.subrange(0, i).drop_first() =~= shards.drop_first().subrange(0, i - 1));
        lemma_shard_idx_prefix(shards.drop_first(), i - 1, shard_id);
    }
}

/// Overwriting the slot an id sits in moves lookups of that id to the new
/// shard and leaves every other id alone.
proof fn lemma_shard_idx_update(shards: Seq<ShardV>, i: int, shard: ShardV, shard_id: u32)
    requires
        shard_ids_unique(shards),
        0 <= i < shards.len(),
        shards[i].id == shard_id,
        shard.id == shard_id,
        shard_idx(shards, shard_id) == i,
    ensures
        shard_ids_unique(shards.update(i, shard)),
        spec_get(shards.update(i, shard), shard_id) == Some(shard),
        forall|other: u32|
            other != shard_id ==> spec_get(shards.update(i, shard), other) == spec_get(
                shards,
                other,
            ),
{
    let upd = shards.update(i, shard);
    assert forall|other: u32| other != shard_id implies spec_get(upd, other) == spec_get(
        shards,
        other,
    ) by {
        lemma_shard_idx_same(shards, upd, other);
    }
    lemma_shard_idx_same_find(shards, upd, shard_id, i);
}

/// Removing the slot an id sits in empties lookups of that id and leaves
/// every other id alone.
proof fn lemma_shard_idx_remove(shards: Seq<ShardV>, i: int, shard_id: u32)
    requires
        shard_ids_unique(shards),
        0 <= i < shards.len(),
        shards[i].id == shard_id,
    ensures
        shard_ids_unique(shards.remove(i)),
        spec_get(shards.remove(i), shard_id) is None,
        forall|other: u32|
            other != shard_id ==> spec_get(shards.remove(i), other) == spec_get(shards, other),
{
    let rem = shards.remove(i);
    assert forall|p: int, q: int| 0 <= p < q < rem.len() implies rem[p].id != rem[q].id by {
        let po = if p < i {
            p
        } else {
            p + 1
        };
        let qo = if q < i {
            q
        } else {
            q + 1
        };
        assert(rem[p] == shards[po]);
        assert(rem[q] == shards[qo]);
    }
    assert forall|j: int| 0 <= j < rem.len() implies (#[trigger] rem[j]).id != shard_id by {
        let jo = if j < i {
            j
        } else {
            j + 1
        };
        assert(rem[j] == shards[jo]);
    }
    lemma_shard_idx_none(rem, shard_id);
    assert forall|other: u32| other != shard_id implies spec_get(rem, other) == spec_get(
        shards,
        other,
    ) by {
        lemma_shard_idx_remove_other(shards, i, other);
    }
}

/// Removing a slot of another id leaves a lookup alone.
proof fn lemma_shard_idx_remove_other(shards: Seq<ShardV>, i: int, other: u32)
    requires
        0 <= i < shards.len(),
        shards[i].id != other,
    ensures
        spec_get(shards.remove(i), other) == spec_get(shards, other),
    decreases shards.len(),
{
    let rem = shards.remove(i);
    if i == 0 {
        assert(rem =~= shards.drop_first());
        lemma_shard_idx_valid(shards.drop_first(), other);
        lemma_shard_idx_valid(shards, other);
    } else {
        if shards[0].id == other {
            lemma_shard_idx_prefix_zero(shards, other);
            assert(rem[0] == shards[0]);
            lemma_shard_idx_prefix_zero(rem, other);
        } else {
            assert(rem[0] == shards[0]);
            assert(rem.drop_first() =~= shards.drop_first().remove(i - 1));
            lemma_shard_idx_remove_other(shards.drop_first(), i - 1, other);
            lemma_shard_idx_valid(shards.drop_first(), other);
            lemma_shard_idx_valid(shards.drop_first().remove(i - 1), other);
            lemma_shard_idx_valid(shards, other);
            lemma_shard_idx_valid(rem, other);
        }
    }
}

/// A lookup misses a list in which its id is nowhere.
proof fn lemma_shard_idx_none(shards: Seq<ShardV>, shard_id: u32)
    requires
        forall|j: int| 0 <= j < shards.len() ==> (#[trigger] shards[j]).id != shard_id,
    ensures
        shard_idx(shards, shard_id) < 0,
    decreases shards.len(),
{
    if shards.len() > 0 {
        assert forall|j: int| 0 <= j < shards.drop_first().len() implies (
        #[trigger] shards.drop_first()[j]).id != shard_id by {
            assert(shards.drop_first()[j] == shards[j + 1]);
        }
        lemma_shard_idx_none(shards.drop_first(), shard_id);
    }
}

/// Appending to a list changes no lookup that already hit, and a miss
/// stays a miss unless the appended shard matches.
proof fn lemma_shard_idx_append(shards: Seq<ShardV>, shard: ShardV, shard_id: u32)
    ensures
        shard_idx(shards, shard_id) >= 0 ==> shard_idx(shards.push(shard), shard_id)
            == shard_idx(shards, shard_id),
        shard_idx(shards, shard_id) < 0 ==> shard_idx(shards.push(shard), shard_id) == if shard.id
            == shard_id {
            shards.len() as int
        } else {
            -1
        },
    decreases shards.len(),
{
    if shards.len() == 0 {
        lemma_shard_idx_push(shards, shard, shard_id);
    } else {
        assert(shards.push(shard)[0] == shards[0]);
        assert(shards.push(shard).drop_first() =~= shards.drop_first().push(shard));
        lemma_shard_idx_append(shards.drop_first(), shard, shard_id);
    }
}

/// Two lists agreeing on every slot where either holds `shard_id` — in
/// particular, agreeing everywhere — look up `shard_id` alike.
proof fn lemma_shard_idx_same(a: Seq<ShardV>, b: Seq<ShardV>, shard_id: u32)
    requires
        a.len() == b.len(),
        forall|j: int|
            0 <= j < a.len() ==> ((#[trigger] a[j]).id == shard_id <==> (#[trigger] b[j]).id
                == shard_id),
        forall|j: int| 0 <= j < a.len() && a[j].id == shard_id ==> a[j] == b[j],
    ensures
        spec_get(a, shard_id) == spec_get(b, shard_id),
    decreases a.len(),
{
    if a.len() > 0 {
        assert forall|j: int|
            0 <= j < a.drop_first().len() implies ((#[trigger] a.drop_first()[j]).id == shard_id
            <==> (#[trigger] b.drop_first()[j]).id == shard_id) && (a.drop_first()[j].id
            == shard_id ==> a.drop_first()[j] == b.drop_first()[j]) by {
            assert(a.drop_first()[j] == a[j + 1]);
            assert(b.drop_first()[j] == b[j + 1]);
        }
        lemma_shard_idx_same(a.drop_first(), b.drop_first(), shard_id);
        lemma_shard_idx_valid(a, shard_id);
        lemma_shard_idx_valid(b, shard_id);
    }
}

/// An update at the slot where the lookup already lands keeps the lookup
/// landing there.
proof fn lemma_shard_idx_same_find(a: Seq<ShardV>, b: Seq<ShardV>, shard_id: u32, i: int)
    requires
        a.len() == b.len(),
        0 <= i < a.len(),
        shard_idx(a, shard_id) == i,
        b[i].id == shard_id,
        forall|j: int| 0 <= j < i ==> a[j] == b[j],
    ensures
        shard_idx(b, shard_id) == i,
    decreases i,
{
    lemma_shard_idx_valid(a, shard_id);
    if i == 0 {
    } else {
        assert(a[0].id != shard_id) by {
            if a[0].id == shard_id {
                lemma_shard_idx_prefix_zero(a, shard_id);
            }
        }
        assert(b[0] == a[0]);
        assert forall|j: int| 0 <= j < i - 1 implies a.drop_first()[j]
            == b.drop_first()[j] by {
            assert(a.drop_first()[j] == a[j + 1]);
            assert(b.drop_first()[j] == b[j + 1]);
        }
        assert(shard_idx(a, shard_id) == shard_idx(a.drop_first(), shard_id) + 1);
        assert(b.drop_first()[i - 1] == b[i]);
        lemma_shard_idx_same_find(a.drop_first(), b.drop_first(), shard_id, i - 1);
    }
}

/// A list whose head matches looks up slot zero.
proof fn lemma_shard_idx_prefix_zero(a: Seq<ShardV>, shard_id: u32)
    requires
        a.len() > 0,
        a[0].id == shard_id,
    ensures
        shard_idx(a, shard_id) == 0,
{
}

} // verus!
