//! A table of searched positions. It has a fixed number of clusters, each of
//! at most two entries, and is emptied in one step by starting a new epoch.

use crate::chess::Move;
use vstd::arithmetic::power2::is_pow2;
use vstd::prelude::*;

verus! {

pub const CLUSTER_SIZE: usize = 2;

pub const EXACT_BONUS: i64 = 2;

/// How many bytes of the requested memory a cluster is counted with.
pub const LEGACY_BUCKET_SIZE: usize = 64;

#[derive(Clone, Copy, Debug, PartialEq, Eq, Structural)]
pub enum TTNodeType {
    EXACT,
    LOWER,
    UPPER,
}

#[derive(Clone, Copy, Debug, PartialEq, Eq, Structural)]
pub struct TableEntry {
    pub key: u64,
    pub score: i32,
    pub depth: i32,
    pub node_type: TTNodeType,
    pub best_move: Option<Move>,
}

/// A cluster. Its entries count only in the epoch in which it was last used.
#[derive(Clone, Copy, Debug)]
pub struct TableBucket {
    pub epoch: u32,
    pub len: u8,
    pub slots: [TableEntry; 2],
}

pub struct Table {
    pub epoch: u32,
    pub buckets: Vec<TableBucket>,
}

/// The place of the first entry with a key, from a place on.
pub open spec fn place_of(cluster: Seq<TableEntry>, key: u64, from: int) -> Option<int>
    decreases cluster.len() - from,
{
    if from < 0 || from >= cluster.len() {
        None
    } else if cluster[from].key == key {
        Some(from)
    } else {
        place_of(cluster, key, from + 1)
    }
}

/// What an entry is worth keeping: its depth, and a little more where its
/// score is exact.
pub open spec fn worth(entry: TableEntry) -> int {
    entry.depth + if entry.node_type == TTNodeType::EXACT {
        EXACT_BONUS as int
    } else {
        0
    }
}

/// Whether a new entry for a key replaces the one that is there.
pub open spec fn supersedes(entry: TableEntry, current: TableEntry) -> bool {
    entry.depth >= current.depth - 2 || (entry.node_type == TTNodeType::EXACT && current.node_type
        != TTNodeType::EXACT)
}

/// A cluster after an entry for a key was offered to it. An entry that is
/// there for the key may stay; a new key always gets in, in place of the
/// entry that is worth less where the cluster is full.
pub open spec fn cluster_with(
    cluster: Seq<TableEntry>,
    key: u64,
    entry: TableEntry,
) -> Seq<TableEntry> {
    match place_of(cluster, key, 0) {
        Some(i) => if supersedes(entry, cluster[i]) {
            cluster.update(i, entry)
        } else {
            cluster
        },
        None => if cluster.len() < CLUSTER_SIZE {
            cluster.push(entry)
        } else if worth(cluster[0]) <= worth(cluster[1]) {
            cluster.update(0, entry)
        } else {
            cluster.update(1, entry)
        },
    }
}

/// The cluster in which a key's entries are kept.
pub open spec fn cluster_index(size: int, key: u64) -> int {
    key as int % size
}

/// The entry for a key, in a table of clusters.
pub open spec fn lookup(table: Seq<Seq<TableEntry>>, key: u64) -> Option<TableEntry> {
    let cluster = table[cluster_index(table.len() as int, key)];
    match place_of(cluster, key, 0) {
        Some(i) => Some(cluster[i]),
        None => None,
    }
}

/// A table of clusters after an entry for a key was offered to it.
pub open spec fn stored(
    table: Seq<Seq<TableEntry>>,
    key: u64,
    entry: TableEntry,
) -> Seq<Seq<TableEntry>> {
    let i = cluster_index(table.len() as int, key);
    table.update(i, cluster_with(table[i], key, entry))
}

/// How many clusters fit into so many megabytes, of which there is at least
/// one.
pub open spec fn clusters_for_mb(megabytes: u64) -> int {
    let room = if megabytes > 1 {
        megabytes * 16384
    } else {
        16384
    };
    if room < usize::MAX {
        room
    } else {
        usize::MAX as int
    }
}

/// A table of empty clusters.
pub open spec fn empty_table(size: nat) -> Seq<Seq<TableEntry>> {
    Seq::new(size, |i: int| Seq::<TableEntry>::empty())
}

impl TableBucket {
    /// The entries that count in an epoch.
    pub open spec fn entries(self, epoch: u32) -> Seq<TableEntry> {
        if self.epoch == epoch {
            self.slots@.take(self.len as int)
        } else {
            Seq::empty()
        }
    }
}

/// What stands in a place of a cluster that was never used.
pub open spec fn unused_entry() -> TableEntry {
    TableEntry { key: 0, score: 0, depth: 0, node_type: TTNodeType::UPPER, best_move: None }
}

fn empty_bucket() -> (r: TableBucket)
    ensures
        r.epoch == 0,
        r.len == 0,
        r.slots@ == seq![unused_entry(), unused_entry()],
{
    let slot = TableEntry {
        key: 0,
        score: 0,
        depth: 0,
        node_type: TTNodeType::UPPER,
        best_move: None,
    };
    TableBucket { epoch: 0, len: 0, slots: [slot, slot] }
}

impl View for Table {
    type V = Seq<Seq<TableEntry>>;

    open spec fn view(&self) -> Seq<Seq<TableEntry>> {
        Seq::new(self.buckets@.len(), |i: int| self.buckets@[i].entries(self.epoch))
    }
}

impl Table {
    pub open spec fn wf(self) -> bool {
        &&& is_pow2(self.buckets@.len() as int)
        &&& self.buckets@.len() > 0
        &&& self.epoch > 0
        &&& forall|i: int|
            0 <= i < self.buckets@.len() ==> (#[trigger] self.buckets@[i]).len <= CLUSTER_SIZE
                && self.buckets@[i].epoch <= self.epoch
    }

    /// An empty table of `size` clusters.
    pub fn new(size: usize) -> (r: Table)
        requires
            size > 0,
            is_pow2(size as int),
        ensures
            r.wf(),
            r@ == empty_table(size as nat),
    {
        let table = Table { epoch: 1, buckets: vec![empty_bucket(); size] };
        assert(table@ =~= empty_table(size as nat));
        table
    }

    /// An empty table with as many clusters as fit into so many megabytes,
    /// down to a power of two. Nothing less than one megabyte is asked for.
    pub fn new_for_mb(megabytes: u64) -> (r: Table)
        ensures
            r.wf(),
            r@.len() <= clusters_for_mb(megabytes) < 2 * r@.len(),
            r@ == empty_table(r@.len()),
    {
        let megabytes: u64 = if megabytes > 1 {
            megabytes
        } else {
            1
        };
        let bytes: u128 = megabytes as u128 * 1024 * 1024;
        let size: u128 = LEGACY_BUCKET_SIZE as u128;
        let room: u128 = bytes / size;
        assert(size == 64 && room == bytes / 64);
        let most: usize = if room < usize::MAX as u128 {
            room as usize
        } else {
            usize::MAX
        };
        Table::new(largest_power_of_two(most))
    }

    /// Empties the table.
    pub fn clear(&mut self)
        requires
            old(self).wf(),
        ensures
            final(self).wf(),
            final(self)@ == empty_table(old(self)@.len()),
    {
        if self.epoch < u32::MAX {
            self.epoch = self.epoch + 1;
        } else {
            let mut i: usize = 0;
            while i < self.buckets.len()
                invariant
                    i <= self.buckets@.len(),
                    self.buckets@.len() == old(self).buckets@.len(),
                    forall|j: int|
                        0 <= j < i ==> (#[trigger] self.buckets@[j]).len == 0
                            && self.buckets@[j].epoch == 0,
                decreases self.buckets@.len() - i,
            {
                self.buckets[i] = empty_bucket();
                i = i + 1;
            }
            self.epoch = 1;
        }
        assert(self@ =~= empty_table(old(self)@.len()));
    }

    fn index(&self, key: u64) -> (r: usize)
        requires
            self.wf(),
        ensures
            r == cluster_index(self@.len() as int, key),
            r < self.buckets@.len(),
    {
        (key % (self.buckets.len() as u64)) as usize
    }

    /// The entry for a key.
    pub fn get(&self, key: u64) -> (r: Option<TableEntry>)
        requires
            self.wf(),
        ensures
            r == lookup(self@, key),
    {
        let place: usize = self.index(key);
        let bucket: &TableBucket = &self.buckets[place];
        let ghost cluster = self@[place as int];
        if bucket.epoch != self.epoch {
            return None;
        }
        let mut i: usize = 0;
        while i < bucket.len as usize
            invariant
                i <= bucket.len <= CLUSTER_SIZE,
                cluster == self@[cluster_index(self@.len() as int, key)],
                cluster == bucket.slots@.take(bucket.len as int),
                place_of(cluster, key, 0) == place_of(cluster, key, i as int),
            decreases bucket.len - i,
        {
            let entry: TableEntry = bucket.slots[i];
            if entry.key == key {
                assert(cluster[i as int] == entry);
                return Some(entry);
            }
            i = i + 1;
        }
        None
    }

    /// Offers an entry for a key.
    pub fn insert(&mut self, key: u64, entry: TableEntry)
        requires
            old(self).wf(),
        ensures
            final(self).wf(),
            final(self)@ == stored(old(self)@, key, entry),
    {
        let place: usize = self.index(key);
        let ghost before = self@;
        let ghost cluster = self@[place as int];
        let mut bucket: TableBucket = self.buckets[place];
        if bucket.epoch != self.epoch {
            bucket.epoch = self.epoch;
            bucket.len = 0;
        }
        assert(bucket.slots@.take(bucket.len as int) =~= cluster);
        let mut i: usize = 0;
        while i < bucket.len as usize && bucket.slots[i].key != key
            invariant
                i <= bucket.len <= CLUSTER_SIZE,
                cluster == bucket.slots@.take(bucket.len as int),
                place_of(cluster, key, 0) == place_of(cluster, key, i as int),
            decreases bucket.len - i,
        {
            i = i + 1;
        }
        if i < bucket.len as usize {
            let current: TableEntry = bucket.slots[i];
            assert(place_of(cluster, key, 0) == Some(i as int));
            if entry.depth as i64 >= current.depth as i64 - 2 || (entry.node_type
                == TTNodeType::EXACT && current.node_type != TTNodeType::EXACT) {
                bucket.slots[i] = entry;
            }
        } else if (bucket.len as usize) < CLUSTER_SIZE {
            bucket.slots[bucket.len as usize] = entry;
            bucket.len = bucket.len + 1;
        } else if entry_value(bucket.slots[0]) <= entry_value(bucket.slots[1]) {
            bucket.slots[0] = entry;
        } else {
            bucket.slots[1] = entry;
        }
        assert(bucket.entries(self.epoch) =~= cluster_with(cluster, key, entry));
        self.buckets[place] = bucket;
        assert(self@ =~= stored(before, key, entry));
    }
}

fn entry_value(entry: TableEntry) -> (r: i64)
    ensures
        r == worth(entry),
{
    entry.depth as i64 + if entry.node_type == TTNodeType::EXACT {
        EXACT_BONUS
    } else {
        0
    }
}

proof fn lemma_one()
    ensures
        is_pow2(1),
{
    reveal(is_pow2);
}

proof fn lemma_doubled(n: int)
    requires
        is_pow2(n),
    ensures
        is_pow2(n * 2),
{
    reveal(is_pow2);
    let twice = n * 2;
    assert(n > 0);
    assert(twice > 1 && twice % 2 == 0 && twice / 2 == n);
}

/// The largest power of two that is at most `value`.
pub fn largest_power_of_two(value: usize) -> (r: usize)
    requires
        value > 0,
    ensures
        is_pow2(r as int),
        0 < r <= value < 2 * r,
{
    let mut power: usize = 1;
    proof {
        lemma_one();
    }
    while power <= value / 2
        invariant
            is_pow2(power as int),
            0 < power <= value,
        decreases value - power,
    {
        proof {
            lemma_doubled(power as int);
        }
        power = power * 2;
    }
    power
}

/// Where an entry with a key is found, it has the key.
pub proof fn lemma_place(cluster: Seq<TableEntry>, key: u64, from: int)
    requires
        0 <= from,
    ensures
        place_of(cluster, key, from) matches Some(i) ==> from <= i < cluster.len()
            && cluster[i].key == key,
    decreases cluster.len() - from,
{
    if from < cluster.len() && cluster[from].key != key {
        lemma_place(cluster, key, from + 1);
    }
}

/// What is stored is there to be read: a lookup finds the new entry, or, for
/// a key that had one which the new entry does not supersede, the one it had.
pub proof fn stored_entry_is_found(table: Seq<Seq<TableEntry>>, key: u64, entry: TableEntry)
    requires
        table.len() > 0,
        entry.key == key,
        forall|i: int| 0 <= i < table.len() ==> (#[trigger] table[i]).len() <= CLUSTER_SIZE,
    ensures
        lookup(stored(table, key, entry), key) == match lookup(table, key) {
            Some(current) if !supersedes(entry, current) => Some(current),
            _ => Some(entry),
        },
{
    let i = cluster_index(table.len() as int, key);
    let cluster = table[i];
    reveal_with_fuel(place_of, 3);
    assert(stored(table, key, entry)[i] == cluster_with(cluster, key, entry));
}

/// A stored entry leaves every other cluster as it was.
pub proof fn stored_entry_keeps_other_clusters(
    table: Seq<Seq<TableEntry>>,
    key: u64,
    entry: TableEntry,
    other: u64,
)
    requires
        table.len() > 0,
        cluster_index(table.len() as int, key) != cluster_index(table.len() as int, other),
    ensures
        lookup(stored(table, key, entry), other) == lookup(table, other),
{
}

/// An empty table has no entry for any key.
pub proof fn empty_table_finds_nothing(size: nat, key: u64)
    requires
        size > 0,
    ensures
        lookup(empty_table(size), key) is None,
{
}

/// Whether a table is one that is filled with entries under their own keys:
/// each is in the cluster of its key, and none shares its key with another.
pub open spec fn consistent(table: Seq<Seq<TableEntry>>) -> bool {
    forall|i: int|
        0 <= i < table.len() ==> consistent_cluster(table.len() as int, i, #[trigger] table[i])
}

/// Whether a cluster of a table is such a one.
pub open spec fn consistent_cluster(size: int, place: int, cluster: Seq<TableEntry>) -> bool {
    &&& cluster.len() <= CLUSTER_SIZE
    &&& cluster.len() >= 1 ==> cluster_index(size, cluster[0].key) == place
    &&& cluster.len() >= 2 ==> cluster_index(size, cluster[1].key) == place && cluster[0].key
        != cluster[1].key
}

/// The entry that gives way to a new key in a full cluster: the one that is
/// worth less, the first where both are worth the same.
pub open spec fn least(cluster: Seq<TableEntry>) -> TableEntry {
    if worth(cluster[0]) <= worth(cluster[1]) {
        cluster[0]
    } else {
        cluster[1]
    }
}

/// A new key always gets in. While its cluster has room nothing else changes;
/// in a full cluster the entry that is worth less is lost, and no other.
pub proof fn a_new_key_takes_at_most_one_place(
    table: Seq<Seq<TableEntry>>,
    key: u64,
    entry: TableEntry,
)
    requires
        table.len() > 0,
        consistent(table),
        entry.key == key,
        lookup(table, key) is None,
    ensures
        lookup(stored(table, key, entry), key) == Some(entry),
        ({
            let cluster = table[cluster_index(table.len() as int, key)];
            if cluster.len() < CLUSTER_SIZE {
                forall|other: u64|
                    other != key ==> #[trigger] lookup(stored(table, key, entry), other) == lookup(
                        table,
                        other,
                    )
            } else {
                let lost = least(cluster);
                &&& lookup(table, lost.key) == Some(lost)
                &&& lookup(stored(table, key, entry), lost.key) is None
                &&& forall|other: u64|
                    other != key && other != lost.key ==> #[trigger] lookup(
                        stored(table, key, entry),
                        other,
                    ) == lookup(table, other)
            }
        }),
{
    let i = cluster_index(table.len() as int, key);
    let cluster = table[i];
    assert(consistent_cluster(table.len() as int, i, cluster));
    reveal_with_fuel(place_of, 3);
    assert(stored(table, key, entry)[i] == cluster_with(cluster, key, entry));
}

/// An entry that is offered for a key which has one changes no other key.
pub proof fn a_known_key_keeps_the_others(
    table: Seq<Seq<TableEntry>>,
    key: u64,
    entry: TableEntry,
    other: u64,
)
    requires
        table.len() > 0,
        consistent(table),
        entry.key == key,
        lookup(table, key) is Some,
        other != key,
    ensures
        lookup(stored(table, key, entry), other) == lookup(table, other),
{
    let i = cluster_index(table.len() as int, key);
    let cluster = table[i];
    assert(consistent_cluster(table.len() as int, i, cluster));
    reveal_with_fuel(place_of, 3);
    assert(stored(table, key, entry)[i] == cluster_with(cluster, key, entry));
}

/// A change of a table: an entry is offered for a key, or all are dropped.
pub enum Change {
    Insert(u64, TableEntry),
    Clear,
}

/// A table after changes.
pub open spec fn changed(table: Seq<Seq<TableEntry>>, changes: Seq<Change>) -> Seq<Seq<TableEntry>>
    decreases changes.len(),
{
    if changes.len() == 0 {
        table
    } else {
        let before = changed(table, changes.drop_last());
        match changes.last() {
            Change::Insert(key, entry) => stored(before, key, entry),
            Change::Clear => empty_table(before.len()),
        }
    }
}

/// Whether entries are offered under their own keys.
pub open spec fn under_own_keys(changes: Seq<Change>) -> bool {
    forall|i: int|
        0 <= i < changes.len() ==> match #[trigger] changes[i] {
            Change::Insert(key, entry) => entry.key == key,
            Change::Clear => true,
        }
}

/// Whether a change offered an entry for a key, and nothing was dropped since.
pub open spec fn offered_at(changes: Seq<Change>, i: int, key: u64, entry: TableEntry) -> bool {
    &&& 0 <= i < changes.len()
    &&& changes[i] == Change::Insert(key, entry)
    &&& forall|j: int| i < j < changes.len() ==> (#[trigger] changes[j]) is Insert
}

/// What was offered for a key since everything was last dropped.
pub open spec fn offered(changes: Seq<Change>, key: u64, entry: TableEntry) -> bool {
    exists|i: int| #[trigger] offered_at(changes, i, key, entry)
}

/// A table that starts empty stays consistent, whatever is offered to it.
pub proof fn every_table_is_consistent(size: nat, changes: Seq<Change>)
    requires
        size > 0,
        under_own_keys(changes),
    ensures
        changed(empty_table(size), changes).len() == size,
        consistent(changed(empty_table(size), changes)),
    decreases changes.len(),
{
    if changes.len() > 0 {
        let prior = changes.drop_last();
        assert forall|i: int| 0 <= i < prior.len() implies match #[trigger] prior[i] {
            Change::Insert(key, entry) => entry.key == key,
            Change::Clear => true,
        } by {
            assert(prior[i] == changes[i]);
        }
        every_table_is_consistent(size, prior);
        let before = changed(empty_table(size), prior);
        let after = changed(empty_table(size), changes);
        match changes.last() {
            Change::Insert(key, entry) => {
                let n = cluster_index(size as int, key);
                assert(changes[changes.len() - 1] == changes.last());
                assert forall|i: int| 0 <= i < size implies consistent_cluster(
                    size as int,
                    i,
                    #[trigger] after[i],
                ) by {
                    assert(consistent_cluster(size as int, i, before[i]));
                    reveal_with_fuel(place_of, 3);
                    if i == n {
                        assert(after[i] == cluster_with(before[i], key, entry));
                    } else {
                        assert(after[i] == before[i]);
                    }
                }
            },
            Change::Clear => {},
        }
    }
}

/// What a table returns for a key was offered to it for that key, since it was
/// last cleared. So a key for which nothing was offered has no entry.
pub proof fn a_found_entry_was_offered(size: nat, changes: Seq<Change>, key: u64)
    requires
        size > 0,
        under_own_keys(changes),
    ensures
        lookup(changed(empty_table(size), changes), key) matches Some(entry) ==> offered(
            changes,
            key,
            entry,
        ),
    decreases changes.len(),
{
    if changes.len() > 0 {
        let prior = changes.drop_last();
        assert forall|i: int| 0 <= i < prior.len() implies match #[trigger] prior[i] {
            Change::Insert(key, entry) => entry.key == key,
            Change::Clear => true,
        } by {
            assert(prior[i] == changes[i]);
        }
        every_table_is_consistent(size, prior);
        a_found_entry_was_offered(size, prior, key);
        let before = changed(empty_table(size), prior);
        let after = changed(empty_table(size), changes);
        let last = changes.len() - 1;
        match changes.last() {
            Change::Insert(k, e) => {
                let n = cluster_index(size as int, k);
                assert(changes[last] == changes.last());
                assert(consistent_cluster(size as int, n, before[n]));
                reveal_with_fuel(place_of, 3);
                assert(after[n] == cluster_with(before[n], k, e));
                if let Some(entry) = lookup(after, key) {
                    if key == k && entry == e {
                        assert(offered_at(changes, last, key, entry));
                    } else {
                        assert(lookup(before, key) == Some(entry));
                        let i = choose|i: int| #[trigger] offered_at(prior, i, key, entry);
                        assert(offered_at(changes, i, key, entry)) by {
                            assert forall|j: int| i < j < changes.len() implies (
                            #[trigger] changes[j]) is Insert by {
                                if j < last {
                                    assert(prior[j] == changes[j]);
                                }
                            }
                        }
                    }
                }
            },
            Change::Clear => {},
        }
    }
}

} // verus!
