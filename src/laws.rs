use vstd::prelude::*;

use crate::art::Art;

verus! {

/// The view of a tree after `set` of each pair of `ops` in turn, starting
/// from a tree whose view was `m`.
pub open spec fn after_sets<T>(m: Map<Seq<u8>, T>, ops: Seq<(Seq<u8>, T)>) -> Map<Seq<u8>, T>
    decreases ops.len(),
{
    if ops.len() == 0 {
        m
    } else {
        after_sets(m, ops.drop_last()).insert(ops.last().0, ops.last().1)
    }
}

/// No two pairs of `ops` have the same key.
pub open spec fn keys_distinct<T>(ops: Seq<(Seq<u8>, T)>) -> bool {
    forall|i: int, j: int| 0 <= i < ops.len() && 0 <= j < ops.len() && i != j ==> ops[i].0 != ops[j].0
}

/// Setting a key twice: a later `get` of the key finds the second value,
/// and the tree is as if the first `set` had never been made.
pub proof fn lemma_set_twice<T>(t0: Art<T>, t1: Art<T>, t2: Art<T>, k: Seq<u8>, v1: T, v2: T)
    requires
        t1@ == t0@.insert(k, v1),
        t2@ == t1@.insert(k, v2),
    ensures
        t2@.contains_key(k),
        t2@[k] == v2,
        t2@ == t0@.insert(k, v2),
{
    assert(t2@ =~= t0@.insert(k, v2));
}

/// Two keys of which one is a proper prefix of the other are stored apart:
/// after setting both, in either order, each is found with its own value.
pub proof fn lemma_prefix_keys<T>(
    t0: Art<T>,
    t1: Art<T>,
    t2: Art<T>,
    ka: Seq<u8>,
    kb: Seq<u8>,
    va: T,
    vb: T,
)
    requires
        ka.is_prefix_of(kb) || kb.is_prefix_of(ka),
        ka.len() != kb.len(),
        t1@ == t0@.insert(ka, va),
        t2@ == t1@.insert(kb, vb),
    ensures
        t2@.contains_key(ka),
        t2@[ka] == va,
        t2@.contains_key(kb),
        t2@[kb] == vb,
{
    assert(ka != kb);
}

/// What the sets of `ops` leave under a key: the value of its pair, where
/// the key has one, and otherwise what was there before.
pub proof fn lemma_after_sets<T>(m: Map<Seq<u8>, T>, ops: Seq<(Seq<u8>, T)>, k: Seq<u8>)
    requires
        keys_distinct(ops),
    ensures
        forall|i: int|
            0 <= i < ops.len() && ops[i].0 == k ==> after_sets(m, ops).contains_key(k)
                && after_sets(m, ops)[k] == ops[i].1,
        (forall|i: int| 0 <= i < ops.len() ==> ops[i].0 != k) ==> after_sets(m, ops).contains_key(k)
            == m.contains_key(k) && after_sets(m, ops)[k] == m[k],
    decreases ops.len(),
{
    if ops.len() > 0 {
        let init = ops.drop_last();
        assert(keys_distinct(init));
        lemma_after_sets(m, init, k);
        assert forall|i: int| 0 <= i < init.len() implies init[i] == ops[i] by {}
    }
}

/// The order of the sets does not matter for a fixed set of pairs with
/// distinct keys: the tree ends with the same keys and values either way.
pub proof fn lemma_order_independent<T>(
    m: Map<Seq<u8>, T>,
    ops1: Seq<(Seq<u8>, T)>,
    ops2: Seq<(Seq<u8>, T)>,
)
    requires
        ops1.to_set() == ops2.to_set(),
        keys_distinct(ops1),
        keys_distinct(ops2),
    ensures
        after_sets(m, ops1) == after_sets(m, ops2),
{
    assert forall|k: Seq<u8>|
        #![trigger after_sets(m, ops1).contains_key(k)]
        after_sets(m, ops1).contains_key(k) == after_sets(m, ops2).contains_key(k) && (
        after_sets(m, ops1).contains_key(k) ==> after_sets(m, ops1)[k] == after_sets(m, ops2)[k]) by {
        lemma_after_sets(m, ops1, k);
        lemma_after_sets(m, ops2, k);
        if exists|i: int| 0 <= i < ops1.len() && ops1[i].0 == k {
            let i = choose|i: int| 0 <= i < ops1.len() && ops1[i].0 == k;
            assert(ops1.to_set().contains(ops1[i]));
            assert(ops2.to_set().contains(ops1[i]));
            let j = choose|j: int| 0 <= j < ops2.len() && ops2[j] == ops1[i];
        } else if exists|j: int| 0 <= j < ops2.len() && ops2[j].0 == k {
            let j = choose|j: int| 0 <= j < ops2.len() && ops2[j].0 == k;
            assert(ops2.to_set().contains(ops2[j]));
            assert(ops1.to_set().contains(ops2[j]));
            let i = choose|i: int| 0 <= i < ops1.len() && ops1[i] == ops2[j];
            assert(ops1[i].0 == k);
        }
    }
    assert(after_sets(m, ops1) =~= after_sets(m, ops2));
}

} // verus!
