//! The table: an array of chains, each holding the nodes whose keys hash to
//! its index under the table's secret keys.
use vstd::prelude::*;

use crate::hash_state::{sip_digest, HashState};
use crate::key::TableKey;

verus! {

/// One stored key and its value.
struct Node<K, V> {
    key: K,
    value: V,
}

/// The chain of nodes whose keys hash to one index.
struct HashEntry<K, V> {
    items: Vec<Node<K, V>>,
}

/// A map from keys to values, hashed with a keyed hash whose keys each table
/// draws for itself, and grown by doubling once it holds three items per
/// chain on average.
pub struct HashTable<K, V> {
    entries: Vec<HashEntry<K, V>>,
    item_count: usize,
    hash_state: HashState,
}

/// The index of the chain that holds the key with bytes `kb`, among `n`.
pub open spec fn slot(k0: u64, k1: u64, kb: Seq<u8>, n: int) -> int {
    (sip_digest(k0, k1, kb) as int) % n
}

/// The node of the chain keyed by `kb`, as a pair, looking from the end.
spec fn chain_find<K: TableKey, V>(items: Seq<Node<K, V>>, kb: Seq<u8>) -> Option<(K, V)>
    decreases items.len(),
{
    if items.len() == 0 {
        None
    } else if items.last().key.key_view() == kb {
        Some((items.last().key, items.last().value))
    } else {
        chain_find(items.drop_last(), kb)
    }
}

/// No two nodes of the chain share a key.
spec fn chain_distinct<K: TableKey, V>(items: Seq<Node<K, V>>) -> bool {
    forall|a: int, b: int|
        0 <= a < b < items.len() ==> #[trigger] items[a].key.key_view()
            != #[trigger] items[b].key.key_view()
}

/// The map that an array of chains holds under the keys `(k0, k1)`.
spec fn buckets_view<K: TableKey, V>(entries: Seq<HashEntry<K, V>>, k0: u64, k1: u64) -> Map<
    Seq<u8>,
    (K, V),
> {
    Map::new(
        |kb: Seq<u8>| chain_find(entries[slot(k0, k1, kb, entries.len() as int)].items@, kb) is Some,
        |kb: Seq<u8>| chain_find(entries[slot(k0, k1, kb, entries.len() as int)].items@, kb)->Some_0,
    )
}

/// Every node sits in the chain its key hashes to, and no chain repeats a key.
spec fn buckets_wf<K: TableKey, V>(entries: Seq<HashEntry<K, V>>, k0: u64, k1: u64) -> bool {
    &&& entries.len() > 0
    &&& forall|i: int, j: int|
        0 <= i < entries.len() && 0 <= j < entries[i].items@.len() ==> slot(
            k0,
            k1,
            #[trigger] entries[i].items@[j].key.key_view(),
            entries.len() as int,
        ) == i
    &&& forall|i: int| 0 <= i < entries.len() ==> chain_distinct(#[trigger] entries[i].items@)
}

proof fn lemma_slot_bound(k0: u64, k1: u64, kb: Seq<u8>, n: int)
    requires
        n > 0,
    ensures
        0 <= slot(k0, k1, kb, n) < n,
{
    vstd::arithmetic::div_mod::lemma_mod_pos_bound(sip_digest(k0, k1, kb) as int, n);
}

/// In a chain without repeated keys, the node found is the one whose key
/// matches, wherever it stands.
proof fn lemma_chain_find<K: TableKey, V>(items: Seq<Node<K, V>>, kb: Seq<u8>)
    requires
        chain_distinct(items),
    ensures
        forall|j: int|
            0 <= j < items.len() && #[trigger] items[j].key.key_view() == kb ==> chain_find(
                items,
                kb,
            ) == Some((items[j].key, items[j].value)),
        (forall|j: int| 0 <= j < items.len() ==> #[trigger] items[j].key.key_view() != kb)
            ==> chain_find(items, kb) is None,
    decreases items.len(),
{
    if items.len() > 0 {
        let rest = items.drop_last();
        assert forall|a: int, b: int| 0 <= a < b < rest.len() implies #[trigger] rest[a].key.key_view()
            != #[trigger] rest[b].key.key_view() by {
            assert(rest[a] == items[a] && rest[b] == items[b]);
        }
        lemma_chain_find(rest, kb);
        assert forall|j: int|
            0 <= j < items.len() && #[trigger] items[j].key.key_view() == kb implies chain_find(
                items,
                kb,
            ) == Some((items[j].key, items[j].value)) by {
            if j < items.len() - 1 {
                assert(items[j].key.key_view() != items[items.len() - 1].key.key_view());
                assert(rest[j] == items[j]);
            }
        }
        if forall|j: int| 0 <= j < items.len() ==> #[trigger] items[j].key.key_view() != kb {
            assert forall|j: int| 0 <= j < rest.len() implies #[trigger] rest[j].key.key_view()
                != kb by {
                assert(rest[j] == items[j]);
            }
        }
    }
}

/// Chains that are all empty hold nothing.
proof fn lemma_empty_view<K: TableKey, V>(entries: Seq<HashEntry<K, V>>, k0: u64, k1: u64)
    requires
        entries.len() > 0,
        forall|i: int| 0 <= i < entries.len() ==> (#[trigger] entries[i]).items@.len() == 0,
    ensures
        buckets_wf(entries, k0, k1),
        buckets_view(entries, k0, k1) == Map::<Seq<u8>, (K, V)>::empty(),
{
    assert forall|kb: Seq<u8>| !#[trigger] buckets_view(entries, k0, k1).contains_key(kb) by {
        lemma_slot_bound(k0, k1, kb, entries.len() as int);
    }
    assert(buckets_view(entries, k0, k1) =~= Map::<Seq<u8>, (K, V)>::empty());
}

/// Taking the last node off chain `i` removes its key from the map, and
/// nothing else.
proof fn lemma_pop_view<K: TableKey, V>(
    entries: Seq<HashEntry<K, V>>,
    popped: Seq<HashEntry<K, V>>,
    k0: u64,
    k1: u64,
    i: int,
)
    requires
        buckets_wf(entries, k0, k1),
        0 <= i < entries.len(),
        entries[i].items@.len() > 0,
        popped.len() == entries.len(),
        popped[i].items@ == entries[i].items@.drop_last(),
        forall|j: int| 0 <= j < entries.len() && j != i ==> popped[j] == entries[j],
    ensures
        buckets_wf(popped, k0, k1),
        buckets_view(entries, k0, k1).contains_key(entries[i].items@.last().key.key_view()),
        buckets_view(entries, k0, k1)[entries[i].items@.last().key.key_view()] == (
            entries[i].items@.last().key,
            entries[i].items@.last().value,
        ),
        buckets_view(popped, k0, k1) == buckets_view(entries, k0, k1).remove(
            entries[i].items@.last().key.key_view(),
        ),
{
    let n = entries.len() as int;
    let items = entries[i].items@;
    let rest = popped[i].items@;
    let kb0 = items.last().key.key_view();
    assert forall|a: int, b: int| 0 <= a < n && 0 <= b < popped[a].items@.len() implies slot(
        k0,
        k1,
        #[trigger] popped[a].items@[b].key.key_view(),
        n,
    ) == a by {
        if a == i {
            assert(popped[a].items@[b] == items[b]);
        }
    }
    assert forall|a: int| 0 <= a < n implies chain_distinct(#[trigger] popped[a].items@) by {
        if a == i {
            assert forall|c: int, d: int| 0 <= c < d < rest.len() implies #[trigger] rest[c].key.key_view()
                != #[trigger] rest[d].key.key_view() by {
                assert(rest[c] == items[c] && rest[d] == items[d]);
            }
        }
    }
    lemma_chain_find(rest, kb0);
    assert forall|c: int| 0 <= c < rest.len() implies #[trigger] rest[c].key.key_view() != kb0 by {
        assert(rest[c] == items[c]);
        assert(items[c].key.key_view() != items[items.len() - 1].key.key_view());
    }
    let old_view = buckets_view(entries, k0, k1);
    let new_view = buckets_view(popped, k0, k1);
    assert forall|kb: Seq<u8>| #[trigger]
        new_view.contains_key(kb) == old_view.remove(kb0).contains_key(kb) && (new_view.contains_key(
            kb,
        ) ==> new_view[kb] == old_view.remove(kb0)[kb]) by {
        lemma_slot_bound(k0, k1, kb, n);
        if slot(k0, k1, kb, n) != i {
            assert(popped[slot(k0, k1, kb, n)] == entries[slot(k0, k1, kb, n)]);
        }
    }
    assert(new_view =~= old_view.remove(kb0));
}

/// Overwriting node `j` of chain `b` with a node of the same key changes
/// that key's entry in the map, and nothing else.
proof fn lemma_replace_view<K: TableKey, V>(
    entries: Seq<HashEntry<K, V>>,
    replaced: Seq<HashEntry<K, V>>,
    k0: u64,
    k1: u64,
    b: int,
    j: int,
    node: Node<K, V>,
)
    requires
        buckets_wf(entries, k0, k1),
        0 <= b < entries.len(),
        0 <= j < entries[b].items@.len(),
        node.key.key_view() == entries[b].items@[j].key.key_view(),
        replaced.len() == entries.len(),
        replaced[b].items@ == entries[b].items@.update(j, node),
        forall|c: int| 0 <= c < entries.len() && c != b ==> replaced[c] == entries[c],
    ensures
        buckets_wf(replaced, k0, k1),
        buckets_view(replaced, k0, k1) == buckets_view(entries, k0, k1).insert(
            node.key.key_view(),
            (node.key, node.value),
        ),
{
    let n = entries.len() as int;
    let kb0 = node.key.key_view();
    let old_items = entries[b].items@;
    let new_items = replaced[b].items@;
    assert forall|a: int, c: int| 0 <= a < n && 0 <= c < replaced[a].items@.len() implies slot(
        k0,
        k1,
        #[trigger] replaced[a].items@[c].key.key_view(),
        n,
    ) == a by {
        if a == b {
            assert(replaced[a].items@[c].key.key_view() == entries[a].items@[c].key.key_view());
        }
    }
    assert forall|a: int, c: int|
        0 <= a < c < new_items.len() implies #[trigger] new_items[a].key.key_view()
        != #[trigger] new_items[c].key.key_view() by {
        assert(old_items[a].key.key_view() != old_items[c].key.key_view());
    }
    assert forall|a: int| 0 <= a < n implies chain_distinct(#[trigger] replaced[a].items@) by {}
    lemma_chain_find(new_items, kb0);
    let old_view = buckets_view(entries, k0, k1);
    let new_view = buckets_view(replaced, k0, k1);
    let target = old_view.insert(kb0, (node.key, node.value));
    assert forall|kb: Seq<u8>| #[trigger]
        new_view.contains_key(kb) == target.contains_key(kb) && (new_view.contains_key(kb)
            ==> new_view[kb] == target[kb]) by {
        lemma_slot_bound(k0, k1, kb, n);
        if slot(k0, k1, kb, n) == b {
            lemma_chain_find(old_items, kb);
            lemma_chain_find(new_items, kb);
            if kb == kb0 {
                assert(new_items[j] == node);
                assert(new_items[j].key.key_view() == kb);
            } else {
                assert forall|i: int|
                    0 <= i < new_items.len() && #[trigger] new_items[i].key.key_view()
                        == kb implies old_items[i] == new_items[i] by {}
                assert forall|i: int|
                    0 <= i < old_items.len() && #[trigger] old_items[i].key.key_view()
                        == kb implies old_items[i] == new_items[i] by {}
            }
        } else {
            assert(replaced[slot(k0, k1, kb, n)] == entries[slot(k0, k1, kb, n)]);
        }
    }
    assert(new_view =~= target);
}

/// Appending a node with a new key to the chain its key hashes to adds that
/// key to the map, and nothing else.
proof fn lemma_push_view<K: TableKey, V>(
    entries: Seq<HashEntry<K, V>>,
    pushed: Seq<HashEntry<K, V>>,
    k0: u64,
    k1: u64,
    b: int,
    node: Node<K, V>,
)
    requires
        buckets_wf(entries, k0, k1),
        0 <= b < entries.len(),
        slot(k0, k1, node.key.key_view(), entries.len() as int) == b,
        !buckets_view(entries, k0, k1).contains_key(node.key.key_view()),
        pushed.len() == entries.len(),
        pushed[b].items@ == entries[b].items@.push(node),
        forall|c: int| 0 <= c < entries.len() && c != b ==> pushed[c] == entries[c],
    ensures
        buckets_wf(pushed, k0, k1),
        buckets_view(pushed, k0, k1) == buckets_view(entries, k0, k1).insert(
            node.key.key_view(),
            (node.key, node.value),
        ),
{
    let n = entries.len() as int;
    let kb0 = node.key.key_view();
    let old_items = entries[b].items@;
    let new_items = pushed[b].items@;
    lemma_chain_find(old_items, kb0);
    assert forall|a: int, c: int| 0 <= a < n && 0 <= c < pushed[a].items@.len() implies slot(
        k0,
        k1,
        #[trigger] pushed[a].items@[c].key.key_view(),
        n,
    ) == a by {
        if a == b && c < old_items.len() {
            assert(new_items[c] == old_items[c]);
        }
    }
    assert forall|a: int, c: int|
        0 <= a < c < new_items.len() implies #[trigger] new_items[a].key.key_view()
        != #[trigger] new_items[c].key.key_view() by {
        if c < old_items.len() {
            assert(old_items[a].key.key_view() != old_items[c].key.key_view());
        } else {
            assert(old_items[a].key.key_view() != kb0);
        }
    }
    assert forall|a: int| 0 <= a < n implies chain_distinct(#[trigger] pushed[a].items@) by {}
    assert(new_items.drop_last() == old_items);
    let old_view = buckets_view(entries, k0, k1);
    let new_view = buckets_view(pushed, k0, k1);
    let target = old_view.insert(kb0, (node.key, node.value));
    assert forall|kb: Seq<u8>| #[trigger]
        new_view.contains_key(kb) == target.contains_key(kb) && (new_view.contains_key(kb)
            ==> new_view[kb] == target[kb]) by {
        lemma_slot_bound(k0, k1, kb, n);
        if slot(k0, k1, kb, n) != b {
            assert(pushed[slot(k0, k1, kb, n)] == entries[slot(k0, k1, kb, n)]);
        }
    }
    assert(new_view =~= target);
}

impl<K: TableKey, V> View for HashTable<K, V> {
    type V = Map<Seq<u8>, (K, V)>;

    /// Each key present, by its bytes, with the key and value stored for it.
    closed spec fn view(&self) -> Map<Seq<u8>, (K, V)> {
        buckets_view(self.entries@, self.hash_state.k0, self.hash_state.k1)
    }
}

impl<K: TableKey, V> HashTable<K, V> {
    /// The table's internal invariant.
    pub closed spec fn wf(&self) -> bool {
        &&& buckets_wf(self.entries@, self.hash_state.k0, self.hash_state.k1)
        &&& self@.dom().finite()
        &&& self@.dom().len() == self.item_count
    }

    /// A well-formed table holds finitely many keys.
    pub proof fn lemma_finite(&self)
        requires
            self.wf(),
        ensures
            self@.dom().finite(),
    {
    }

    /// The secret keys the table hashes under.
    pub closed spec fn spec_keys(&self) -> (u64, u64) {
        (self.hash_state.k0, self.hash_state.k1)
    }

    /// The number of chains.
    pub closed spec fn spec_capacity(&self) -> nat {
        self.entries@.len()
    }

    /// An empty table with 3 chains.
    pub fn new() -> (r: Self)
        ensures
            r.wf(),
            r@ == Map::<Seq<u8>, (K, V)>::empty(),
            r.spec_capacity() == 3,
    {
        HashTable::with_capacity(3)
    }

    /// An empty table with `entry_cap` chains and freshly drawn hash keys.
    pub fn with_capacity(entry_cap: usize) -> (r: Self)
        requires
            entry_cap >= 1,
        ensures
            r.wf(),
            r@ == Map::<Seq<u8>, (K, V)>::empty(),
            r.spec_capacity() == entry_cap,
    {
        Self::with_capacity_and_keys(entry_cap, HashState::new())
    }

    /// An empty table with `entry_cap` chains, hashed under the given keys.
    pub fn with_capacity_and_keys(entry_cap: usize, hash_state: HashState) -> (r: Self)
        requires
            entry_cap >= 1,
        ensures
            r.wf(),
            r@ == Map::<Seq<u8>, (K, V)>::empty(),
            r.spec_capacity() == entry_cap,
            r.spec_keys() == (hash_state.k0, hash_state.k1),
    {
        let r = HashTable { entries: Self::make_entries(entry_cap), item_count: 0, hash_state };
        proof {
            lemma_empty_view(r.entries@, r.hash_state.k0, r.hash_state.k1);
        }
        r
    }

    fn make_entries(cap: usize) -> (r: Vec<HashEntry<K, V>>)
        ensures
            r@.len() == cap,
            forall|i: int| 0 <= i < cap ==> (#[trigger] r@[i]).items@.len() == 0,
    {
        let mut r: Vec<HashEntry<K, V>> = Vec::new();
        let mut i: usize = 0;
        while i < cap
            invariant
                i <= cap,
                r@.len() == i,
                forall|j: int| 0 <= j < i ==> (#[trigger] r@[j]).items@.len() == 0,
            decreases cap - i,
        {
            r.push(HashEntry { items: Vec::new() });
            i = i + 1;
        }
        r
    }

    /// The index of the chain for a key with bytes `bytes`.
    fn find_entry(&self, bytes: &[u8]) -> (r: usize)
        requires
            self.entries@.len() > 0,
        ensures
            r == slot(self.hash_state.k0, self.hash_state.k1, bytes@, self.entries@.len() as int),
            r < self.entries@.len(),
    {
        let h = self.hash_state.hash(bytes);
        let n = self.entries.len() as u64;
        proof {
            lemma_slot_bound(self.hash_state.k0, self.hash_state.k1, bytes@, n as int);
        }
        (h % n) as usize
    }

    /// The position in the chain of the node whose key has bytes `bytes`.
    fn find_node(entry: &HashEntry<K, V>, bytes: &[u8]) -> (r: Option<usize>)
        ensures
            match r {
                Some(j) => j < entry.items@.len() && entry.items@[j as int].key.key_view() == bytes@,
                None => forall|j: int|
                    0 <= j < entry.items@.len() ==> #[trigger] entry.items@[j].key.key_view()
                        != bytes@,
            },
    {
        let mut j: usize = 0;
        while j < entry.items.len()
            invariant
                j <= entry.items@.len(),
                forall|i: int| 0 <= i < j ==> #[trigger] entry.items@[i].key.key_view() != bytes@,
            decreases entry.items@.len() - j,
        {
            let kb = entry.items[j].key.key_bytes();
            if bytes_equal(kb.as_slice(), bytes) {
                return Some(j);
            }
            j = j + 1;
        }
        None
    }

    /// The value stored for `key`, if any.
    pub fn get<Q: TableKey>(&self, key: &Q) -> (r: Option<&V>)
        requires
            self.wf(),
        ensures
            match r {
                Some(v) => self@.contains_key(key.key_view()) && *v == self@[key.key_view()].1,
                None => !self@.contains_key(key.key_view()),
            },
    {
        let bytes = key.key_bytes();
        let b = self.find_entry(bytes.as_slice());
        let entry = &self.entries[b];
        proof {
            lemma_chain_find(entry.items@, bytes@);
        }
        match Self::find_node(entry, bytes.as_slice()) {
            Some(j) => Some(&entry.items[j].value),
            None => None,
        }
    }

    /// The number of items stored.
    pub fn len(&self) -> (r: usize)
        requires
            self.wf(),
        ensures
            r == self@.len(),
    {
        self.item_count
    }

    /// A mutable reference to the value stored for `key`, if any. Writing
    /// through it changes that value and nothing else.
    pub fn get_mut<Q: TableKey>(&mut self, key: &Q) -> (r: Option<&mut V>)
        requires
            old(self).wf(),
        ensures
            r is Some <==> old(self)@.contains_key(key.key_view()),
            r is Some ==> *r->Some_0 == old(self)@[key.key_view()].1,
            r is Some ==> final(self)@ == old(self)@.insert(
                key.key_view(),
                (old(self)@[key.key_view()].0, *final(r->Some_0)),
            ),
            r is None ==> *final(self) == *old(self),
            final(self).wf(),
            final(self).spec_capacity() == old(self).spec_capacity(),
    {
        let bytes = key.key_bytes();
        let b = self.find_entry(bytes.as_slice());
        proof {
            lemma_chain_find(self.entries@[b as int].items@, bytes@);
        }
        match Self::find_node(&self.entries[b], bytes.as_slice()) {
            Some(j) => {
                let ghost before = self.entries@;
                let ghost after = final(self).entries@;
                let ghost k0 = self.hash_state.k0;
                let ghost k1 = self.hash_state.k1;
                let v = &mut self.entries[b].items[j].value;
                proof {
                    let node = before[b as int].items@[j as int];
                    lemma_replace_view(
                        before,
                        after,
                        k0,
                        k1,
                        b as int,
                        j as int,
                        Node { key: node.key, value: *final(v) },
                    );
                }
                Some(v)
            },
            None => None,
        }
    }

    /// Whether the table holds three or more items per chain on average.
    fn is_overfull(&self) -> (r: bool)
        ensures
            r == (self.item_count as int >= 3 * self.entries@.len()),
    {
        self.item_count / 3 >= self.entries.len()
    }

    /// Stores `value` under `key`, first doubling the chains if the table is
    /// full. Hands back the key and value that were replaced, if any.
    pub fn insert(&mut self, key: K, value: V) -> (r: Option<(K, V)>)
        requires
            old(self).wf(),
            old(self)@.len() < usize::MAX,
        ensures
            final(self).wf(),
            final(self)@ == old(self)@.insert(key.key_view(), (key, value)),
            r == old(self)@.get(key.key_view()),
            final(self).spec_capacity() >= old(self).spec_capacity(),
    {
        if self.is_overfull() {
            self.grow();
        }
        self.place(key, value)
    }

    /// Doubles the number of chains and moves every node to its chain under
    /// the new count.
    fn grow(&mut self)
        requires
            old(self).wf(),
            old(self).item_count >= 3 * old(self).entries@.len(),
        ensures
            final(self).wf(),
            final(self)@ == old(self)@,
            final(self).hash_state == old(self).hash_state,
            final(self).entries@.len() == 2 * old(self).entries@.len(),
    {
        let ghost orig = self@;
        let ghost k0 = self.hash_state.k0;
        let ghost k1 = self.hash_state.k1;
        let new_size = self.entries.len() * 2;
        let mut old_entries = Self::make_entries(new_size);
        std::mem::swap(&mut self.entries, &mut old_entries);
        self.item_count = 0;
        let ghost old_n = old_entries@.len();
        proof {
            lemma_empty_view(self.entries@, k0, k1);
            assert(orig == buckets_view(old_entries@, k0, k1));
            assert(orig =~= self@.union_prefer_right(buckets_view(old_entries@, k0, k1)));
        }
        let mut i: usize = 0;
        while i < old_entries.len()
            invariant
                old_entries@.len() == old_n,
                i <= old_n,
                buckets_wf(old_entries@, k0, k1),
                forall|c: int| 0 <= c < i ==> (#[trigger] old_entries@[c]).items@.len() == 0,
                self.wf(),
                self.hash_state.k0 == k0,
                self.hash_state.k1 == k1,
                self.entries@.len() == new_size,
                orig.dom().finite(),
                orig.len() <= usize::MAX,
                self@.dom().disjoint(buckets_view(old_entries@, k0, k1).dom()),
                orig == self@.union_prefer_right(buckets_view(old_entries@, k0, k1)),
            decreases old_n - i,
        {
            while old_entries[i].items.len() > 0
                invariant
                    old_entries@.len() == old_n,
                    i < old_n,
                    buckets_wf(old_entries@, k0, k1),
                    forall|c: int| 0 <= c < i ==> (#[trigger] old_entries@[c]).items@.len() == 0,
                    self.wf(),
                    self.hash_state.k0 == k0,
                    self.hash_state.k1 == k1,
                    self.entries@.len() == new_size,
                    orig.dom().finite(),
                    orig.len() <= usize::MAX,
                    self@.dom().disjoint(buckets_view(old_entries@, k0, k1).dom()),
                    orig == self@.union_prefer_right(buckets_view(old_entries@, k0, k1)),
                decreases old_entries@[i as int].items@.len(),
            {
                let ghost before = old_entries@;
                let popped = old_entries[i].items.pop();
                proof {
                    lemma_pop_view(before, old_entries@, k0, k1, i as int);
                }
                match popped {
                    Some(node) => {
                        proof {
                            let kb = node.key.key_view();
                            let rem = buckets_view(old_entries@, k0, k1);
                            vstd::set_lib::lemma_len_subset(self@.dom().insert(kb), orig.dom());
                            assert(orig =~= self@.insert(kb, (node.key, node.value)).union_prefer_right(rem));
                        }
                        self.place(node.key, node.value);
                    },
                    None => {},
                }
            }
            i = i + 1;
        }
        proof {
            lemma_empty_view(old_entries@, k0, k1);
            assert(orig =~= self@);
        }
    }

    /// Stores `value` under `key` without growing: replaces the node with an
    /// equal key, handing back what it held, or appends a new one.
    fn place(&mut self, key: K, value: V) -> (r: Option<(K, V)>)
        requires
            old(self).wf(),
            old(self)@.len() < usize::MAX,
        ensures
            final(self).wf(),
            final(self)@ == old(self)@.insert(key.key_view(), (key, value)),
            r == old(self)@.get(key.key_view()),
            final(self).hash_state == old(self).hash_state,
            final(self).entries@.len() == old(self).entries@.len(),
    {
        let ghost k0 = self.hash_state.k0;
        let ghost k1 = self.hash_state.k1;
        let ghost before = self.entries@;
        let bytes = key.key_bytes();
        let b = self.find_entry(bytes.as_slice());
        proof {
            lemma_chain_find(before[b as int].items@, bytes@);
        }
        match Self::find_node(&self.entries[b], bytes.as_slice()) {
            Some(j) => {
                let mut key = key;
                let mut value = value;
                let ghost node = Node { key, value };
                let stored = &mut self.entries[b].items[j];
                std::mem::swap(&mut stored.key, &mut key);
                std::mem::swap(&mut stored.value, &mut value);
                proof {
                    lemma_replace_view(before, self.entries@, k0, k1, b as int, j as int, node);
                }
                Some((key, value))
            },
            None => {
                let ghost node = Node { key, value };
                self.entries[b].items.push(Node { key, value });
                self.item_count = self.item_count + 1;
                proof {
                    lemma_push_view(before, self.entries@, k0, k1, b as int, node);
                }
                None
            },
        }
    }
}

/// Whether two byte strings are equal.
fn bytes_equal(a: &[u8], b: &[u8]) -> (r: bool)
    ensures
        r == (a@ == b@),
{
    if a.len() != b.len() {
        return false;
    }
    let mut i: usize = 0;
    while i < a.len()
        invariant
            a@.len() == b@.len(),
            i <= a@.len(),
            forall|j: int| 0 <= j < i ==> a@[j] == b@[j],
        decreases a@.len() - i,
    {
        if a[i] != b[i] {
            return false;
        }
        i = i + 1;
    }
    assert(a@ =~= b@);
    true
}

} // verus!
