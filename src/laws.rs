//! What holds of every run of the store and of its transactions, stated
//! over the contents that the operations' contracts describe.
use crate::command::{staged_value, MutationModel};
use crate::execute::{apply_mutation, apply_mutations, staged_for};
use crate::hash_storage::{entry_key, text_value, HashStorage, StoreModel};
use crate::text::lemma_text_bytes_injective;
use crate::wal::WalModel;
use vstd::prelude::*;
use vstd::utf8::encode_utf8;

verus! {

/// The contents after storing each pair in turn, as successful
/// `put_text` calls leave them.
pub open spec fn put_all(m: StoreModel, kvs: Seq<(Seq<char>, Seq<char>)>) -> StoreModel
    decreases kvs.len(),
{
    if kvs.len() == 0 {
        m
    } else {
        put_all(m, kvs.drop_last()).insert(entry_key(kvs.last().0), encode_utf8(kvs.last().1))
    }
}

/// The keys of the pairs are pairwise different.
pub open spec fn keys_unique(kvs: Seq<(Seq<char>, Seq<char>)>) -> bool {
    forall|i: int, j: int| 0 <= i < kvs.len() && 0 <= j < kvs.len() && i != j ==> kvs[i].0 != kvs[j].0
}

/// After storing pairs with different keys, in any order, each key reads
/// back its own value, and only that value.
pub proof fn law_round_trip(m: StoreModel, kvs: Seq<(Seq<char>, Seq<char>)>)
    requires
        keys_unique(kvs),
    ensures
        forall|i: int| 0 <= i < kvs.len() ==> text_value(put_all(m, kvs), #[trigger] kvs[i].0) == Some(
            encode_utf8(kvs[i].1),
        ),
        forall|i: int, v: Seq<char>|
            0 <= i < kvs.len() && text_value(put_all(m, kvs), #[trigger] kvs[i].0) == Some(#[trigger] encode_utf8(v))
                ==> v == kvs[i].1,
    decreases kvs.len(),
{
    if kvs.len() > 0 {
        let d = kvs.drop_last();
        assert(keys_unique(d)) by {
            assert forall|i: int, j: int| 0 <= i < d.len() && 0 <= j < d.len() && i != j implies d[i].0 != d[j].0 by {
                assert(d[i] == kvs[i] && d[j] == kvs[j]);
            }
        }
        law_round_trip(m, d);
        let n = kvs.len() - 1;
        assert forall|i: int| 0 <= i < kvs.len() implies text_value(put_all(m, kvs), #[trigger] kvs[i].0) == Some(
            encode_utf8(kvs[i].1),
        ) by {
            if i < n {
                assert(d[i] == kvs[i]);
                lemma_text_bytes_injective(kvs[i].0, kvs[n].0);
            }
        }
        assert forall|i: int, v: Seq<char>|
            0 <= i < kvs.len() && text_value(put_all(m, kvs), #[trigger] kvs[i].0) == Some(#[trigger] encode_utf8(v))
                implies v == kvs[i].1 by {
            lemma_text_bytes_injective(v, kvs[i].1);
        }
    }
}

/// Storing the same value twice reads back that value: two stores left by
/// successful `put_text(k, v)` calls hold `v` under `k`, and a read of `k`
/// answers `v` and nothing else.
pub proof fn law_idempotent_put(s0: HashStorage, s1: HashStorage, s2: HashStorage, k: Seq<char>, v: Seq<char>)
    requires
        s1@ == s0@.insert(entry_key(k), encode_utf8(v)),
        s2@ == s1@.insert(entry_key(k), encode_utf8(v)),
    ensures
        s2@ == s1@,
        text_value(s2@, k) == Some(encode_utf8(v)),
        forall|x: Seq<char>| text_value(s2@, k) == Some(#[trigger] encode_utf8(x)) ==> x == v,
{
    assert(s1@.insert(entry_key(k), encode_utf8(v)) =~= s1@);
    assert forall|x: Seq<char>| text_value(s2@, k) == Some(#[trigger] encode_utf8(x)) implies x == v by {
        lemma_text_bytes_injective(x, v);
    }
}

/// Storing a second value under a key replaces the first: after successful
/// `put_text(k, v1)` and `put_text(k, v2)`, a read of `k` answers `v2`.
pub proof fn law_overwrite(s0: HashStorage, s1: HashStorage, s2: HashStorage, k: Seq<char>, v1: Seq<char>, v2: Seq<char>)
    requires
        s1@ == s0@.insert(entry_key(k), encode_utf8(v1)),
        s2@ == s1@.insert(entry_key(k), encode_utf8(v2)),
    ensures
        text_value(s2@, k) == Some(encode_utf8(v2)),
        forall|x: Seq<char>| text_value(s2@, k) == Some(#[trigger] encode_utf8(x)) ==> x == v2,
{
    assert forall|x: Seq<char>| text_value(s2@, k) == Some(#[trigger] encode_utf8(x)) implies x == v2 by {
        lemma_text_bytes_injective(x, v2);
    }
}

/// A key removed after being stored reads as absent: after a successful
/// `put_text(k, v)` and `delete_text(k)`, a read of `k` finds nothing.
pub proof fn law_delete(s0: HashStorage, s1: HashStorage, s2: HashStorage, k: Seq<char>, v: Seq<char>)
    requires
        s1@ == s0@.insert(entry_key(k), encode_utf8(v)),
        s2@ == s1@.remove(entry_key(k)),
    ensures
        text_value(s2@, k) is None,
{
}

/// Splits lose nothing: along a run of successful puts and deletes, each
/// leaving the contents as its contract says, the final contents are the
/// first with exactly those changes applied in order.
pub proof fn law_no_lost_records(states: Seq<StoreModel>, ops: Seq<MutationModel>)
    requires
        states.len() == ops.len() + 1,
        forall|i: int| 0 <= i < ops.len() ==> #[trigger] states[i + 1] == apply_mutation(states[i], ops[i]),
    ensures
        states.last() == apply_mutations(states[0], ops),
    decreases ops.len(),
{
    if ops.len() > 0 {
        let n = ops.len() - 1;
        let s2 = states.drop_last();
        let o2 = ops.drop_last();
        assert forall|i: int| 0 <= i < o2.len() implies #[trigger] s2[i + 1] == apply_mutation(s2[i], o2[i]) by {
            assert(states[i + 1] == apply_mutation(states[i], ops[i]));
        }
        law_no_lost_records(s2, o2);
        assert(states[n + 1] == apply_mutation(states[n], ops[n]));
    }
}

/// A put staged in an open transaction is seen inside it and nowhere else,
/// and a rollback leaves the store as it was.
pub proof fn law_transaction_isolation(s: StoreModel, w: WalModel, t: Seq<char>, k: Seq<char>, v: Seq<char>)
    requires
        w.contains_key(t),
    ensures
        staged_for(w.insert(t, w[t].push((true, k, v))), Some(t), k) == Some(Some(v)),
        staged_for(w.insert(t, w[t].push((true, k, v))), None, k) is None,
        !w.insert(t, w[t].push((true, k, v))).remove(t).contains_key(t),
{
    let ms = w[t].push((true, k, v));
    assert(ms.last() == (true, k, v));
}

/// Two puts of one key in a transaction, once committed, leave the later
/// value.
pub proof fn law_commit_order(s: StoreModel, k: Seq<char>, v1: Seq<char>, v2: Seq<char>)
    ensures
        text_value(
            apply_mutations(s, Seq::<MutationModel>::empty().push((true, k, v1)).push((true, k, v2))),
            k,
        ) == Some(encode_utf8(v2)),
{
    let xs = Seq::<MutationModel>::empty().push((true, k, v1)).push((true, k, v2));
    assert(xs.drop_last() =~= Seq::<MutationModel>::empty().push((true, k, v1)));
    assert(xs.drop_last().drop_last() =~= Seq::<MutationModel>::empty());
}

} // verus!
