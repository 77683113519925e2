use vstd::prelude::*;

verus! {

/// The mathematical contents of a list of key-value entries: a map in which
/// a later entry for the same key overrides an earlier one.
pub open spec fn map_of(entries: Seq<(Seq<char>, Seq<char>)>) -> Map<Seq<char>, Seq<char>>
    decreases entries.len(),
{
    if entries.len() == 0 {
        Map::<Seq<char>, Seq<char>>::empty()
    } else {
        map_of(entries.drop_last()).insert(entries.last().0, entries.last().1)
    }
}

/// A flat mapping from configuration keys to string values, with each key
/// held at most once.
pub struct KvMap {
    pub entries: Vec<(String, String)>,
}

impl View for KvMap {
    type V = Map<Seq<char>, Seq<char>>;

    open spec fn view(&self) -> Map<Seq<char>, Seq<char>> {
        map_of(self.entries.deep_view())
    }
}

pub proof fn lemma_map_of_contains(entries: Seq<(Seq<char>, Seq<char>)>, k: Seq<char>)
    ensures
        map_of(entries).contains_key(k) <==> exists|i: int|
            0 <= i < entries.len() && (#[trigger] entries[i]).0 == k,
    decreases entries.len(),
{
    if entries.len() > 0 {
        lemma_map_of_contains(entries.drop_last(), k);
        if map_of(entries).contains_key(k) {
            if entries.last().0 == k {
                assert(entries[entries.len() - 1].0 == k);
            } else {
                assert(exists|i: int|
                    0 <= i < entries.drop_last().len() && (#[trigger] entries.drop_last()[i]).0
                        == k);
                let i = choose|i: int|
                    0 <= i < entries.drop_last().len() && (#[trigger] entries.drop_last()[i]).0
                        == k;
                assert(entries[i].0 == k);
            }
        }
        if exists|i: int| 0 <= i < entries.len() && (#[trigger] entries[i]).0 == k {
            let i = choose|i: int| 0 <= i < entries.len() && (#[trigger] entries[i]).0 == k;
            if i < entries.len() - 1 {
                assert(entries.drop_last()[i].0 == k);
            }
        }
    }
}

/// With every key held at most once, the entry for `k` gives the map's value.
pub proof fn lemma_map_of_at(entries: Seq<(Seq<char>, Seq<char>)>, i: int)
    requires
        0 <= i < entries.len(),
        forall|a: int, b: int|
            0 <= a < b < entries.len() ==> (#[trigger] entries[a]).0 != (#[trigger] entries[b]).0,
    ensures
        map_of(entries).contains_key(entries[i].0),
        map_of(entries)[entries[i].0] == entries[i].1,
    decreases entries.len(),
{
    if i == entries.len() - 1 {
    } else {
        assert(entries.drop_last()[i] == entries[i]);
        lemma_map_of_at(entries.drop_last(), i);
        assert(entries[entries.len() - 1].0 != entries[i].0);
    }
}

impl KvMap {
    /// Every key occurs at most once among the entries.
    pub open spec fn wf(&self) -> bool {
        forall|a: int, b: int|
            0 <= a < b < self.entries.deep_view().len() ==> (#[trigger] self.entries.deep_view()[a]).0
                != (#[trigger] self.entries.deep_view()[b]).0
    }

    /// An empty mapping.
    pub fn new() -> (r: KvMap)
        ensures
            r.wf(),
            r@ == Map::<Seq<char>, Seq<char>>::empty(),
            r.entries.deep_view() == Seq::<(Seq<char>, Seq<char>)>::empty(),
    {
        let r = KvMap { entries: Vec::new() };
        proof {
            assert(r.entries.deep_view() =~= Seq::<(Seq<char>, Seq<char>)>::empty());
        }
        r
    }

    /// Binds `k` to `v`, replacing any earlier binding of `k`.
    pub fn insert(&mut self, k: String, v: String)
        requires
            old(self).wf(),
        ensures
            final(self).wf(),
            final(self)@ == old(self)@.insert(k@, v@),
    {
        let ghost original = self.entries.deep_view();
        let n = self.entries.len();
        let mut i: usize = 0;
        while i < n
            invariant
                i <= n,
                n == self.entries.len(),
                self.entries.deep_view() == original,
                old(self).wf(),
                self.entries == old(self).entries,
                forall|j: int| 0 <= j < i ==> (#[trigger] original[j]).0 != k@,
            decreases n - i,
        {
            if self.entries[i].0 == k {
                let value_pair = (k, v);
                self.entries.set(i, value_pair);
                proof {
                    assert(self.entries.deep_view() =~= original.update(i as int, (k@, v@)));
                    lemma_map_of_update(original, i as int, k@, v@);
                }
                return ;
            }
            i = i + 1;
        }
        self.entries.push((k, v));
        proof {
            assert(self.entries.deep_view() =~= original.push((k@, v@)));
            assert(self.entries.deep_view().drop_last() =~= original);
        }
    }

    /// Looks a key up.
    pub fn get(&self, k: &str) -> (r: Option<&String>)
        requires
            self.wf(),
        ensures
            match r {
                Some(v) => self@.contains_key(k@) && self@[k@] == v@,
                None => !self@.contains_key(k@),
            },
    {
        let ghost dv = self.entries.deep_view();
        let n = self.entries.len();
        let mut i: usize = 0;
        while i < n
            invariant
                i <= n,
                n == self.entries.len(),
                dv == self.entries.deep_view(),
                self.wf(),
                forall|j: int| 0 <= j < i ==> (#[trigger] dv[j]).0 != k@,
            decreases n - i,
        {
            if crate::text::str_eq(self.entries[i].0.as_str(), k) {
                proof {
                    lemma_map_of_at(dv, i as int);
                }
                return Some(&self.entries[i].1);
            }
            i = i + 1;
        }
        proof {
            lemma_map_of_contains(dv, k@);
        }
        None
    }

    /// The number of keys held.
    pub fn len(&self) -> (n: usize)
        ensures
            n == self.entries.deep_view().len(),
    {
        self.entries.len()
    }

    /// Builds a mapping from a list of pairs; a later pair for the same key
    /// overrides an earlier one.
    pub fn from_pairs(pairs: &Vec<(String, String)>) -> (r: KvMap)
        ensures
            r.wf(),
            r@ == map_of(pairs.deep_view()),
    {
        let mut r = KvMap::new();
        let n = pairs.len();
        let mut i: usize = 0;
        while i < n
            invariant
                i <= n,
                n == pairs.len(),
                r.wf(),
                r@ == map_of(pairs.deep_view().take(i as int)),
            decreases n - i,
        {
            r.insert(pairs[i].0.clone(), pairs[i].1.clone());
            proof {
                let dv = pairs.deep_view();
                assert(dv.take(i + 1).drop_last() =~= dv.take(i as int));
                assert(dv.take(i + 1).last() == dv[i as int]);
            }
            i = i + 1;
        }
        proof {
            assert(pairs.deep_view().take(n as int) =~= pairs.deep_view());
        }
        r
    }
}

/// Replacing the entry that holds `k` (keys unique) updates the map at `k`.
pub proof fn lemma_map_of_update(
    entries: Seq<(Seq<char>, Seq<char>)>,
    i: int,
    k: Seq<char>,
    v: Seq<char>,
)
    requires
        0 <= i < entries.len(),
        entries[i].0 == k,
        forall|a: int, b: int|
            0 <= a < b < entries.len() ==> (#[trigger] entries[a]).0 != (#[trigger] entries[b]).0,
    ensures
        map_of(entries.update(i, (k, v))) == map_of(entries).insert(k, v),
    decreases entries.len(),
{
    let updated = entries.update(i, (k, v));
    if i == entries.len() - 1 {
        assert(updated.drop_last() =~= entries.drop_last());
        assert(map_of(updated) =~= map_of(entries).insert(k, v));
    } else {
        assert(updated.drop_last() =~= entries.drop_last().update(i, (k, v)));
        assert(entries.drop_last()[i] == entries[i]);
        lemma_map_of_update(entries.drop_last(), i, k, v);
        assert(updated.last() == entries.last());
        assert(entries.last().0 != k);
        assert(map_of(updated) =~= map_of(entries).insert(k, v));
    }
}

} // verus!
