use vstd::prelude::*;

use crate::text::{free_of, has_prefix, has_prefix_spec, str_eq};

verus! {

/// The mathematical contents of a group table: identifiers in first-seen
/// order, each with its target keys in first-seen order.
pub type GroupsModel = Seq<(Seq<char>, Seq<Seq<char>>)>;

/// The target keys grouped under `id`; empty when `id` has no group.
pub open spec fn group_targets(g: GroupsModel, id: Seq<char>) -> Seq<Seq<char>>
    decreases g.len(),
{
    if g.len() == 0 {
        Seq::<Seq<char>>::empty()
    } else if g[0].0 == id {
        g[0].1
    } else {
        group_targets(g.drop_first(), id)
    }
}

/// Whether some group carries the identifier `id`.
pub open spec fn has_group(g: GroupsModel, id: Seq<char>) -> bool {
    exists|i: int| 0 <= i < g.len() && (#[trigger] g[i]).0 == id
}

/// Files `target` under `id`: extends the group for `id` if one exists and
/// does not already list `target`, and opens a new group otherwise.
pub open spec fn groups_insert(g: GroupsModel, id: Seq<char>, target: Seq<char>) -> GroupsModel
    decreases g.len(),
{
    if g.len() == 0 {
        seq![(id, seq![target])]
    } else if g[0].0 == id {
        if g[0].1.contains(target) {
            g
        } else {
            g.update(0, (id, g[0].1.push(target)))
        }
    } else {
        seq![g[0]] + groups_insert(g.drop_first(), id, target)
    }
}

/// The marker prefix of an environment key whose value names a parameter.
pub open spec fn param_marker() -> Seq<char> {
    "SSM_"@
}

/// The marker prefix of an environment key whose value names a secret.
pub open spec fn secret_marker() -> Seq<char> {
    "SECRET_"@
}

/// The two group tables that classifying an environment snapshot yields:
/// for every entry whose key carries a marker prefix, the prefix-stripped
/// key is filed under the entry's value, parameter markers into the first
/// table and secret markers into the second. Entries without a marker are
/// left alone.
pub open spec fn classify_spec(env: Seq<(Seq<char>, Seq<char>)>) -> (GroupsModel, GroupsModel)
    decreases env.len(),
{
    if env.len() == 0 {
        (Seq::<(Seq<char>, Seq<Seq<char>>)>::empty(), Seq::<(Seq<char>, Seq<Seq<char>>)>::empty())
    } else {
        let prev = classify_spec(env.drop_last());
        let k = env.last().0;
        let v = env.last().1;
        if has_prefix_spec(k, param_marker()) {
            (groups_insert(prev.0, v, k.skip(param_marker().len() as int)), prev.1)
        } else if has_prefix_spec(k, secret_marker()) {
            (prev.0, groups_insert(prev.1, v, k.skip(secret_marker().len() as int)))
        } else {
            prev
        }
    }
}

/// Whether some entry of the snapshot carries either marker prefix.
pub open spec fn has_any_marker(env: Seq<(Seq<char>, Seq<char>)>) -> bool {
    exists|i: int|
        0 <= i < env.len() && (has_prefix_spec((#[trigger] env[i]).0, param_marker())
            || has_prefix_spec(env[i].0, secret_marker()))
}

/// A table of groups: each remote identifier with the target keys that
/// resolve through it.
pub struct GroupMap {
    pub entries: Vec<(String, Vec<String>)>,
}

impl View for GroupMap {
    type V = GroupsModel;

    open spec fn view(&self) -> GroupsModel {
        self.entries.deep_view()
    }
}

impl GroupMap {
    /// Identifiers are distinct and no group lists a target twice.
    pub open spec fn wf(&self) -> bool {
        let g = self@;
        &&& forall|a: int, b: int|
            0 <= a < b < g.len() ==> (#[trigger] g[a]).0 != (#[trigger] g[b]).0
        &&& forall|i: int, a: int, b: int|
            0 <= i < g.len() && 0 <= a < b < (#[trigger] g[i]).1.len() ==> (#[trigger] g[i].1[a])
                != (#[trigger] g[i].1[b])
    }

    /// An empty table.
    pub fn new() -> (r: GroupMap)
        ensures
            r.wf(),
            r@ == Seq::<(Seq<char>, Seq<Seq<char>>)>::empty(),
    {
        let r = GroupMap { entries: Vec::new() };
        proof {
            assert(r@ =~= Seq::<(Seq<char>, Seq<Seq<char>>)>::empty());
        }
        r
    }

    /// The number of groups.
    pub fn len(&self) -> (n: usize)
        ensures
            n == self@.len(),
    {
        self.entries.len()
    }

    /// Whether the table holds no group at all.
    pub fn is_empty(&self) -> (r: bool)
        ensures
            r == (self@.len() == 0),
    {
        self.entries.is_empty()
    }

    /// The identifier of the group at `i`.
    pub fn id_at(&self, i: usize) -> (r: &String)
        requires
            i < self@.len(),
        ensures
            r@ == self@[i as int].0,
    {
        &self.entries[i].0
    }

    /// The target keys of the group at `i`.
    pub fn targets_at(&self, i: usize) -> (r: &Vec<String>)
        requires
            i < self@.len(),
        ensures
            r.deep_view() == self@[i as int].1,
    {
        &self.entries[i].1
    }

    /// The target keys grouped under `id`, if any group carries it.
    pub fn get_targets(&self, id: &str) -> (r: Option<&Vec<String>>)
        requires
            self.wf(),
        ensures
            match r {
                Some(ts) => has_group(self@, id@) && ts.deep_view() == group_targets(self@, id@),
                None => !has_group(self@, id@) && group_targets(self@, id@)
                    == Seq::<Seq<char>>::empty(),
            },
    {
        let ghost g = self@;
        let n = self.entries.len();
        let mut i: usize = 0;
        while i < n
            invariant
                i <= n,
                n == self.entries.len(),
                g == self@,
                self.wf(),
                forall|j: int| 0 <= j < i ==> (#[trigger] g[j]).0 != id@,
            decreases n - i,
        {
            if str_eq(self.entries[i].0.as_str(), id) {
                proof {
                    lemma_group_targets_at(g, i as int, id@);
                }
                return Some(&self.entries[i].1);
            }
            i = i + 1;
        }
        proof {
            lemma_group_targets_absent(g, id@);
        }
        None
    }

    /// Files `target` under `id`, with set semantics for the targets.
    pub fn insert(&mut self, id: String, target: String)
        requires
            old(self).wf(),
        ensures
            final(self).wf(),
            final(self)@ == groups_insert(old(self)@, id@, target@),
    {
        let ghost g = self@;
        let n = self.entries.len();
        let mut i: usize = 0;
        while i < n
            invariant
                i <= n,
                n == self.entries.len(),
                g == self@,
                old(self).wf(),
                self.entries == old(self).entries,
                forall|j: int| 0 <= j < i ==> (#[trigger] g[j]).0 != id@,
            decreases n - i,
        {
            if self.entries[i].0 == id {
                let present = contains_string(&self.entries[i].1, &target);
                if !present {
                    let mut ts = clone_string_vec(&self.entries[i].1);
                    ts.push(target);
                    proof {
                        assert(ts.deep_view() =~= g[i as int].1.push(target@));
                    }
                    self.entries.set(i, (id, ts));
                    proof {
                        assert(self@ =~= g.update(i as int, (id@, g[i as int].1.push(target@))));
                    }
                }
                proof {
                    lemma_groups_insert_found(g, id@, target@, i as int);
                    if g[i as int].1.contains(target@) {
                        assert(self@ =~= g);
                    }
                }
                return ;
            }
            i = i + 1;
        }
        let mut ts: Vec<String> = Vec::new();
        ts.push(target);
        self.entries.push((id, ts));
        proof {
            assert(ts.deep_view() =~= seq![target@]);
            assert(self@ =~= g.push((id@, seq![target@])));
            lemma_groups_insert_absent(g, id@, target@);
        }
    }
}

/// Decides whether the vector holds a string with these characters.
pub fn contains_string(v: &Vec<String>, s: &String) -> (r: bool)
    ensures
        r == v.deep_view().contains(s@),
{
    let n = v.len();
    let mut i: usize = 0;
    while i < n
        invariant
            i <= n,
            n == v.len(),
            forall|j: int| 0 <= j < i ==> v.deep_view()[j] != s@,
        decreases n - i,
    {
        if v[i] == *s {
            proof {
                assert(v.deep_view()[i as int] == s@);
            }
            return true;
        }
        i = i + 1;
    }
    proof {
        if v.deep_view().contains(s@) {
            let j = choose|j: int| 0 <= j < v.deep_view().len() && v.deep_view()[j] == s@;
            assert(v.deep_view()[j] != s@);
        }
    }
    false
}

/// Copies a vector of strings.
pub fn clone_string_vec(v: &Vec<String>) -> (r: Vec<String>)
    ensures
        r.deep_view() == v.deep_view(),
{
    let n = v.len();
    let mut r: Vec<String> = Vec::new();
    let mut i: usize = 0;
    while i < n
        invariant
            i <= n,
            n == v.len(),
            r.deep_view() == v.deep_view().take(i as int),
        decreases n - i,
    {
        let ghost prev = r.deep_view();
        let item = v[i].clone();
        proof {
            assert(item@ == v.deep_view()[i as int]);
        }
        r.push(item);
        proof {
            assert(r.deep_view() =~= prev.push(v.deep_view()[i as int]));
            assert(r.deep_view() =~= v.deep_view().take(i + 1));
        }
        i = i + 1;
    }
    proof {
        assert(v.deep_view().take(n as int) =~= v.deep_view());
    }
    r
}

proof fn lemma_group_targets_at(g: GroupsModel, i: int, id: Seq<char>)
    requires
        0 <= i < g.len(),
        g[i].0 == id,
        forall|j: int| 0 <= j < i ==> (#[trigger] g[j]).0 != id,
    ensures
        has_group(g, id),
        group_targets(g, id) == g[i].1,
    decreases i,
{
    if i == 0 {
    } else {
        assert(g[0].0 != id);
        assert forall|j: int| 0 <= j < i - 1 implies (#[trigger] g.drop_first()[j]).0 != id by {
            assert(g.drop_first()[j] == g[j + 1]);
        }
        assert(g.drop_first()[i - 1] == g[i]);
        lemma_group_targets_at(g.drop_first(), i - 1, id);
    }
}

proof fn lemma_group_targets_absent(g: GroupsModel, id: Seq<char>)
    requires
        forall|j: int| 0 <= j < g.len() ==> (#[trigger] g[j]).0 != id,
    ensures
        !has_group(g, id),
        group_targets(g, id) == Seq::<Seq<char>>::empty(),
    decreases g.len(),
{
    if g.len() > 0 {
        assert forall|j: int| 0 <= j < g.drop_first().len() implies (#[trigger] g.drop_first()[j]).0
            != id by {
            assert(g.drop_first()[j] == g[j + 1]);
        }
        lemma_group_targets_absent(g.drop_first(), id);
    }
}

proof fn lemma_groups_insert_found(g: GroupsModel, id: Seq<char>, target: Seq<char>, i: int)
    requires
        0 <= i < g.len(),
        g[i].0 == id,
        forall|j: int| 0 <= j < i ==> (#[trigger] g[j]).0 != id,
    ensures
        groups_insert(g, id, target) == if g[i].1.contains(target) {
            g
        } else {
            g.update(i, (id, g[i].1.push(target)))
        },
    decreases i,
{
    if i == 0 {
    } else {
        assert(g[0].0 != id);
        assert forall|j: int| 0 <= j < i - 1 implies (#[trigger] g.drop_first()[j]).0 != id by {
            assert(g.drop_first()[j] == g[j + 1]);
        }
        assert(g.drop_first()[i - 1] == g[i]);
        lemma_groups_insert_found(g.drop_first(), id, target, i - 1);
        if g[i].1.contains(target) {
            assert(seq![g[0]] + g.drop_first() =~= g);
        } else {
            assert(seq![g[0]] + g.drop_first().update(i - 1, (id, g[i].1.push(target))) =~=
                g.update(i, (id, g[i].1.push(target))));
        }
    }
}

proof fn lemma_groups_insert_absent(g: GroupsModel, id: Seq<char>, target: Seq<char>)
    requires
        forall|j: int| 0 <= j < g.len() ==> (#[trigger] g[j]).0 != id,
    ensures
        groups_insert(g, id, target) == g.push((id, seq![target])),
    decreases g.len(),
{
    if g.len() == 0 {
        assert(g.push((id, seq![target])) =~= seq![(id, seq![target])]);
    } else {
        assert(g[0].0 != id);
        assert forall|j: int| 0 <= j < g.drop_first().len() implies (#[trigger] g.drop_first()[j]).0
            != id by {
            assert(g.drop_first()[j] == g[j + 1]);
        }
        lemma_groups_insert_absent(g.drop_first(), id, target);
        assert(seq![g[0]] + g.drop_first().push((id, seq![target])) =~= g.push(
            (id, seq![target]),
        ));
    }
}

/// Scans an environment snapshot and groups the marked entries: a key with
/// the parameter marker files its prefix-stripped remainder under the entry's
/// value in the first table, a key with the secret marker symmetrically in
/// the second, and every other entry is ignored here.
pub fn classify(env: &Vec<(String, String)>) -> (r: (GroupMap, GroupMap))
    ensures
        r.0.wf(),
        r.1.wf(),
        (r.0@, r.1@) == classify_spec(env.deep_view()),
{
    let mut params = GroupMap::new();
    let mut secrets = GroupMap::new();
    let n = env.len();
    let ghost dv = env.deep_view();
    let mut i: usize = 0;
    proof {
        assert(dv.take(0) =~= Seq::<(Seq<char>, Seq<char>)>::empty());
    }
    while i < n
        invariant
            i <= n,
            n == env.len(),
            dv == env.deep_view(),
            params.wf(),
            secrets.wf(),
            (params@, secrets@) == classify_spec(dv.take(i as int)),
        decreases n - i,
    {
        proof {
            assert(dv.take(i + 1).drop_last() =~= dv.take(i as int));
            assert(dv.take(i + 1).last() == dv[i as int]);
        }
        let key = &env[i].0;
        let value = &env[i].1;
        if has_prefix(key.as_str(), "SSM_") {
            proof {
                reveal_strlit("SSM_");
            }
            let rest = key.as_str().substring_char(4, key.as_str().unicode_len()).to_owned();
            proof {
                assert(rest@ =~= dv[i as int].0.skip(param_marker().len() as int));
            }
            params.insert(value.clone(), rest);
        } else if has_prefix(key.as_str(), "SECRET_") {
            proof {
                reveal_strlit("SECRET_");
            }
            let rest = key.as_str().substring_char(7, key.as_str().unicode_len()).to_owned();
            proof {
                assert(rest@ =~= dv[i as int].0.skip(secret_marker().len() as int));
            }
            secrets.insert(value.clone(), rest);
        }
        i = i + 1;
    }
    proof {
        assert(dv.take(n as int) =~= dv);
    }
    (params, secrets)
}

/// Every key occurs at most once in the snapshot.
pub open spec fn distinct_keys(env: Seq<(Seq<char>, Seq<char>)>) -> bool {
    forall|a: int, b: int| 0 <= a < b < env.len() ==> (#[trigger] env[a]).0 != (#[trigger] env[b]).0
}

/// The groups' identifiers are pairwise distinct.
pub open spec fn ids_distinct(g: GroupsModel) -> bool {
    forall|a: int, b: int| 0 <= a < b < g.len() ==> (#[trigger] g[a]).0 != (#[trigger] g[b]).0
}

/// A target key stands in at most one group of the table.
pub open spec fn targets_unique(g: GroupsModel) -> bool {
    forall|i: int, j: int, t: Seq<char>|
        0 <= i < g.len() && 0 <= j < g.len() && (#[trigger] g[i].1.contains(t)) && (
        #[trigger] g[j].1.contains(t)) ==> i == j
}

/// Every target in the table is owed to a snapshot entry: the marker glued
/// onto the target is an environment key whose value is the group's
/// identifier.
pub open spec fn sourced_from(
    g: GroupsModel,
    env: Seq<(Seq<char>, Seq<char>)>,
    marker: Seq<char>,
) -> bool {
    forall|i: int, t: Seq<char>|
        0 <= i < g.len() && (#[trigger] g[i].1.contains(t)) ==> exists|e: int|
            0 <= e < env.len() && #[trigger] env[e] == (marker + t, g[i].0)
}

proof fn lemma_sourced_extend(
    g: GroupsModel,
    env: Seq<(Seq<char>, Seq<char>)>,
    marker: Seq<char>,
)
    requires
        sourced_from(g, env.drop_last(), marker),
        env.len() > 0,
    ensures
        sourced_from(g, env, marker),
{
    assert forall|i: int, t: Seq<char>|
        0 <= i < g.len() && (#[trigger] g[i].1.contains(t)) implies exists|e: int|
        0 <= e < env.len() && #[trigger] env[e] == (marker + t, g[i].0) by {
        let e = choose|e: int|
            0 <= e < env.drop_last().len() && #[trigger] env.drop_last()[e] == (marker + t, g[i].0);
        assert(env[e] == env.drop_last()[e]);
    }
}

proof fn lemma_insert_keeps_invariants(
    g: GroupsModel,
    env: Seq<(Seq<char>, Seq<char>)>,
    marker: Seq<char>,
    id: Seq<char>,
    target: Seq<char>,
)
    requires
        ids_distinct(g),
        sourced_from(g, env, marker),
        env.len() > 0,
        env.last() == (marker + target, id),
    ensures
        ids_distinct(groups_insert(g, id, target)),
        sourced_from(groups_insert(g, id, target), env, marker),
{
    let g2 = groups_insert(g, id, target);
    if has_group(g, id) {
        let i0 = choose|i: int| 0 <= i < g.len() && (#[trigger] g[i]).0 == id;
        assert forall|j: int| 0 <= j < i0 implies (#[trigger] g[j]).0 != id by {
            assert(g[j].0 != g[i0].0);
        }
        lemma_groups_insert_found(g, id, target, i0);
        if g[i0].1.contains(target) {
        } else {
            assert(ids_distinct(g2)) by {
                assert(forall|a: int| 0 <= a < g2.len() ==> (#[trigger] g2[a]).0 == g[a].0);
            }
            assert forall|i: int, t: Seq<char>|
                0 <= i < g2.len() && (#[trigger] g2[i].1.contains(t)) implies exists|e: int|
                0 <= e < env.len() && #[trigger] env[e] == (marker + t, g2[i].0) by {
                if i == i0 {
                    if t == target {
                        assert(env[env.len() - 1] == (marker + t, g2[i].0));
                    } else {
                        assert(g2[i0].1 == g[i0].1.push(target));
                        let x = choose|x: int| 0 <= x < g2[i0].1.len() && g2[i0].1[x] == t;
                        assert(g[i0].1[x] == t);
                        assert(g[i0].1.contains(t));
                    }
                } else {
                    assert(g2[i] == g[i]);
                    assert(g[i].1.contains(t));
                }
            }
        }
    } else {
        assert forall|j: int| 0 <= j < g.len() implies (#[trigger] g[j]).0 != id by {}
        lemma_groups_insert_absent(g, id, target);
        assert(g2 == g.push((id, seq![target])));
        assert forall|i: int, t: Seq<char>|
            0 <= i < g2.len() && (#[trigger] g2[i].1.contains(t)) implies exists|e: int|
            0 <= e < env.len() && #[trigger] env[e] == (marker + t, g2[i].0) by {
            if i == g.len() {
                assert(g2[i].1 == seq![target]);
                let x = choose|x: int| 0 <= x < g2[i].1.len() && g2[i].1[x] == t;
                assert(t == target);
                assert(env[env.len() - 1] == (marker + t, g2[i].0));
            } else {
                assert(g2[i] == g[i]);
                assert(g[i].1.contains(t));
            }
        }
    }
}

/// In the tables that classifying any snapshot yields, the identifiers are
/// distinct and every filed target is owed to a snapshot entry made of the
/// table's marker and that target.
pub proof fn lemma_classify_sourced(env: Seq<(Seq<char>, Seq<char>)>)
    ensures
        ids_distinct(classify_spec(env).0),
        ids_distinct(classify_spec(env).1),
        sourced_from(classify_spec(env).0, env, param_marker()),
        sourced_from(classify_spec(env).1, env, secret_marker()),
    decreases env.len(),
{
    if env.len() > 0 {
        lemma_classify_sourced(env.drop_last());
        let prev = classify_spec(env.drop_last());
        let k = env.last().0;
        let v = env.last().1;
        lemma_sourced_extend(prev.0, env, param_marker());
        lemma_sourced_extend(prev.1, env, secret_marker());
        if has_prefix_spec(k, param_marker()) {
            let t = k.skip(param_marker().len() as int);
            assert(k =~= param_marker() + t);
            lemma_insert_keeps_invariants(prev.0, env, param_marker(), v, t);
        } else if has_prefix_spec(k, secret_marker()) {
            let t = k.skip(secret_marker().len() as int);
            assert(k =~= secret_marker() + t);
            lemma_insert_keeps_invariants(prev.1, env, secret_marker(), v, t);
        }
    }
}

/// Over a snapshot with distinct keys, a sourced table files each target in
/// at most one group: the marker glued onto the target is one environment
/// key, so it names one identifier.
pub proof fn lemma_sourced_targets_unique(
    g: GroupsModel,
    env: Seq<(Seq<char>, Seq<char>)>,
    marker: Seq<char>,
)
    requires
        distinct_keys(env),
        ids_distinct(g),
        sourced_from(g, env, marker),
    ensures
        targets_unique(g),
{
    assert forall|i: int, j: int, t: Seq<char>|
        0 <= i < g.len() && 0 <= j < g.len() && (#[trigger] g[i].1.contains(t)) && (
        #[trigger] g[j].1.contains(t)) implies i == j by {
        let e1 = choose|e: int| 0 <= e < env.len() && #[trigger] env[e] == (marker + t, g[i].0);
        let e2 = choose|e: int| 0 <= e < env.len() && #[trigger] env[e] == (marker + t, g[j].0);
        if e1 != e2 {
            assert(env[e1].0 == env[e2].0);
            assert(false);
        }
        assert(g[i].0 == g[j].0);
        if i != j {
            assert(false);
        }
    }
}

/// Classification is a function of the snapshot alone: two runs over the
/// same snapshot yield the same group tables.
pub proof fn lemma_classify_deterministic(
    env: Seq<(Seq<char>, Seq<char>)>,
    first: (GroupsModel, GroupsModel),
    second: (GroupsModel, GroupsModel),
)
    requires
        first == classify_spec(env),
        second == classify_spec(env),
    ensures
        first == second,
{
}

/// When no entry of the snapshot carries either marker prefix, classification
/// yields two empty tables, so no remote call is owed at all.
pub proof fn lemma_no_marker_no_groups(env: Seq<(Seq<char>, Seq<char>)>)
    requires
        !has_any_marker(env),
    ensures
        classify_spec(env) == (
            Seq::<(Seq<char>, Seq<Seq<char>>)>::empty(),
            Seq::<(Seq<char>, Seq<Seq<char>>)>::empty(),
        ),
    decreases env.len(),
{
    if env.len() > 0 {
        assert(!(has_prefix_spec(env[env.len() - 1].0, param_marker()) || has_prefix_spec(
            env[env.len() - 1].0,
            secret_marker(),
        )));
        assert forall|i: int| 0 <= i < env.drop_last().len() implies !(has_prefix_spec(
            (#[trigger] env.drop_last()[i]).0,
            param_marker(),
        ) || has_prefix_spec(env.drop_last()[i].0, secret_marker())) by {
            assert(env.drop_last()[i] == env[i]);
        }
        lemma_no_marker_no_groups(env.drop_last());
    }
}

} // verus!
