use vstd::prelude::*;

use crate::kv::{map_of, KvMap};

verus! {

/// Folding a list of entries into a map, entry by entry, is the same as
/// overlaying the list's own map on the right.
proof fn lemma_insert_all(base: Map<Seq<char>, Seq<char>>, entries: Seq<(Seq<char>, Seq<char>)>)
    ensures
        fold_inserts(base, entries) == base.union_prefer_right(map_of(entries)),
    decreases entries.len(),
{
    if entries.len() == 0 {
        assert(fold_inserts(base, entries) =~= base.union_prefer_right(map_of(entries)));
    } else {
        lemma_insert_all(base, entries.drop_last());
        assert(base.union_prefer_right(map_of(entries.drop_last())).insert(
            entries.last().0,
            entries.last().1,
        ) =~= base.union_prefer_right(map_of(entries)));
    }
}

/// The map reached by inserting each entry, in order, into `base`.
pub open spec fn fold_inserts(
    base: Map<Seq<char>, Seq<char>>,
    entries: Seq<(Seq<char>, Seq<char>)>,
) -> Map<Seq<char>, Seq<char>>
    decreases entries.len(),
{
    if entries.len() == 0 {
        base
    } else {
        fold_inserts(base, entries.drop_last()).insert(entries.last().0, entries.last().1)
    }
}

/// Inserts every binding of `src` into `dst`; on a key held by both,
/// the binding of `src` wins.
fn insert_all(dst: &mut KvMap, src: &KvMap)
    requires
        old(dst).wf(),
        src.wf(),
    ensures
        final(dst).wf(),
        final(dst)@ == old(dst)@.union_prefer_right(src@),
{
    let ghost sv = src.entries.deep_view();
    let ghost base = old(dst)@;
    let n = src.entries.len();
    let mut i: usize = 0;
    proof {
        assert(sv.take(0) =~= Seq::<(Seq<char>, Seq<char>)>::empty());
    }
    while i < n
        invariant
            i <= n,
            n == src.entries.len(),
            sv == src.entries.deep_view(),
            dst.wf(),
            dst@ == fold_inserts(base, sv.take(i as int)),
        decreases n - i,
    {
        proof {
            assert(sv.take(i + 1).drop_last() =~= sv.take(i as int));
            assert(sv.take(i + 1).last() == sv[i as int]);
        }
        dst.insert(src.entries[i].0.clone(), src.entries[i].1.clone());
        i = i + 1;
    }
    proof {
        assert(sv.take(n as int) =~= sv);
        lemma_insert_all(base, sv);
    }
}

/// Combines the three layers into one flat mapping with the precedence
/// Environment over File over Remote: a key defined by the environment keeps
/// the environment's value; a key the environment leaves open takes the
/// file's value; the remote layer only fills keys neither other layer
/// defines. No other key is bound.
pub fn merge(env_layer: &KvMap, file_layer: &KvMap, remote_layer: &KvMap) -> (r: KvMap)
    requires
        env_layer.wf(),
        file_layer.wf(),
        remote_layer.wf(),
    ensures
        r.wf(),
        forall|k: Seq<char>|
            r@.contains_key(k) <==> (env_layer@.contains_key(k) || file_layer@.contains_key(k)
                || remote_layer@.contains_key(k)),
        forall|k: Seq<char>|
            env_layer@.contains_key(k) ==> r@.contains_key(k) && r@[k] == env_layer@[k],
        forall|k: Seq<char>|
            !env_layer@.contains_key(k) && file_layer@.contains_key(k) ==> r@.contains_key(k)
                && r@[k] == file_layer@[k],
        forall|k: Seq<char>|
            !env_layer@.contains_key(k) && !file_layer@.contains_key(k)
                && remote_layer@.contains_key(k) ==> r@.contains_key(k) && r@[k]
                == remote_layer@[k],
{
    let mut r = KvMap::new();
    insert_all(&mut r, remote_layer);
    insert_all(&mut r, file_layer);
    insert_all(&mut r, env_layer);
    r
}

} // verus!
