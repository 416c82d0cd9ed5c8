//! What holds of tables across operations, stated over the maps that the
//! operations' contracts speak of.
use vstd::prelude::*;

use crate::key::TableKey;
use crate::table::HashTable;

verus! {

/// The map reached from `m` by storing each pair of `pairs` in turn, as
/// `HashTable::insert` does.
pub open spec fn after_inserts<K: TableKey, V>(m: Map<Seq<u8>, (K, V)>, pairs: Seq<(K, V)>) -> Map<
    Seq<u8>,
    (K, V),
>
    decreases pairs.len(),
{
    if pairs.len() == 0 {
        m
    } else {
        after_inserts(m, pairs.drop_last()).insert(pairs.last().0.key_view(), pairs.last())
    }
}

/// Right after `insert(key, value)`, looking up `key`, or any query with the
/// same bytes, finds `value`.
pub proof fn lemma_get_after_insert<K: TableKey, V, Q: TableKey>(
    before: HashTable<K, V>,
    after: HashTable<K, V>,
    key: K,
    value: V,
    query: Q,
)
    requires
        after@ == before@.insert(key.key_view(), (key, value)),
        query.key_view() == key.key_view(),
    ensures
        after@.contains_key(query.key_view()),
        after@[query.key_view()].1 == value,
{
}

/// Inserting a key that is present hands back the value it had, leaves the
/// new value in its place, and keeps the number of items.
pub proof fn lemma_insert_present<K: TableKey, V>(
    before: HashTable<K, V>,
    after: HashTable<K, V>,
    key: K,
    value: V,
)
    requires
        before.wf(),
        before@.contains_key(key.key_view()),
        after@ == before@.insert(key.key_view(), (key, value)),
    ensures
        before@.get(key.key_view()) == Some(before@[key.key_view()]),
        after@[key.key_view()].1 == value,
        after@.len() == before@.len(),
{
    assert(after@.dom() =~= before@.dom());
}

/// Inserting a key that is absent hands back nothing and adds exactly one
/// item.
pub proof fn lemma_insert_absent<K: TableKey, V>(
    before: HashTable<K, V>,
    after: HashTable<K, V>,
    key: K,
    value: V,
)
    requires
        before.wf(),
        !before@.contains_key(key.key_view()),
        after@ == before@.insert(key.key_view(), (key, value)),
    ensures
        before@.get(key.key_view()) is None,
        after@.len() == before@.len() + 1,
{
    before.lemma_finite();
    assert(after@.dom() =~= before@.dom().insert(key.key_view()));
}

/// After any run of inserts into an empty table, a key whose bytes no
/// inserted key had is absent.
pub proof fn lemma_never_inserted_absent<K: TableKey, V>(pairs: Seq<(K, V)>, query: Seq<u8>)
    requires
        forall|i: int| 0 <= i < pairs.len() ==> (#[trigger] pairs[i]).0.key_view() != query,
    ensures
        !after_inserts(Map::<Seq<u8>, (K, V)>::empty(), pairs).contains_key(query),
    decreases pairs.len(),
{
    if pairs.len() > 0 {
        let rest = pairs.drop_last();
        assert forall|i: int| 0 <= i < rest.len() implies (#[trigger] rest[i]).0.key_view()
            != query by {
            assert(rest[i] == pairs[i]);
        }
        lemma_never_inserted_absent(rest, query);
        assert(pairs[pairs.len() - 1] == pairs.last());
    }
}

/// However many inserts follow, and however often the table grows meanwhile,
/// every inserted key keeps the pair it was last stored with.
pub proof fn lemma_latest_pair_kept<K: TableKey, V>(
    m: Map<Seq<u8>, (K, V)>,
    pairs: Seq<(K, V)>,
    i: int,
)
    requires
        0 <= i < pairs.len(),
        forall|j: int| i < j < pairs.len() ==> (#[trigger] pairs[j]).0.key_view() != pairs[i].0.key_view(),
    ensures
        after_inserts(m, pairs).contains_key(pairs[i].0.key_view()),
        after_inserts(m, pairs)[pairs[i].0.key_view()] == pairs[i],
    decreases pairs.len(),
{
    if i < pairs.len() - 1 {
        let rest = pairs.drop_last();
        assert forall|j: int| i < j < rest.len() implies (#[trigger] rest[j]).0.key_view()
            != rest[i].0.key_view() by {
            assert(rest[j] == pairs[j]);
        }
        lemma_latest_pair_kept(m, rest, i);
        assert(pairs[pairs.len() - 1] == pairs.last());
    }
}

/// A table keyed by owned strings is looked up by a borrowed string slice of
/// the same text exactly as by the owned key.
pub proof fn lemma_borrowed_lookup<V>(table: HashTable<String, V>, owned: String, borrowed: &str)
    requires
        owned@ == borrowed@,
    ensures
        owned.key_view() == borrowed.key_view(),
        table@.contains_key(owned.key_view()) == table@.contains_key(borrowed.key_view()),
        table@.contains_key(owned.key_view()) ==> table@[owned.key_view()]
            == table@[borrowed.key_view()],
{
}

} // verus!
