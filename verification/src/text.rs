use vstd::prelude::*;

verus! {

/// True when `p` is a prefix of `s`.
pub open spec fn has_prefix_spec(s: Seq<char>, p: Seq<char>) -> bool {
    p.len() <= s.len() && s.take(p.len() as int) == p
}

/// True when the character `c` does not occur in `s`.
pub open spec fn free_of(s: Seq<char>, c: char) -> bool {
    forall|i: int| 0 <= i < s.len() ==> s[i] != c
}

/// Number of occurrences of `c` in `s`.
pub open spec fn count_matches(s: Seq<char>, c: char) -> nat
    decreases s.len(),
{
    if s.len() == 0 {
        0
    } else {
        count_matches(s.drop_last(), c) + if s.last() == c {
            1nat
        } else {
            0nat
        }
    }
}

/// The pieces of `s` between occurrences of the separator `sep`, in order.
/// There is always at least one piece; `n` separators give `n + 1` pieces.
pub open spec fn split_on(s: Seq<char>, sep: char) -> Seq<Seq<char>>
    decreases s.len(),
{
    if s.len() == 0 {
        seq![Seq::<char>::empty()]
    } else {
        let prev = split_on(s.drop_last(), sep);
        if s.last() == sep {
            prev.push(Seq::<char>::empty())
        } else {
            prev.update(prev.len() - 1, prev.last().push(s.last()))
        }
    }
}

/// The pieces joined back together with `sep` between consecutive pieces.
pub open spec fn join_with(parts: Seq<Seq<char>>, sep: char) -> Seq<char>
    decreases parts.len(),
{
    if parts.len() == 0 {
        Seq::<char>::empty()
    } else if parts.len() == 1 {
        parts[0]
    } else {
        join_with(parts.drop_last(), sep).push(sep) + parts.last()
    }
}

pub proof fn lemma_split_on_len(s: Seq<char>, sep: char)
    ensures
        split_on(s, sep).len() == count_matches(s, sep) + 1,
    decreases s.len(),
{
    if s.len() > 0 {
        lemma_split_on_len(s.drop_last(), sep);
    }
}

pub proof fn lemma_count_free(s: Seq<char>, sep: char)
    requires
        free_of(s, sep),
    ensures
        count_matches(s, sep) == 0,
    decreases s.len(),
{
    if s.len() > 0 {
        assert forall|i: int| 0 <= i < s.drop_last().len() implies s.drop_last()[i] != sep by {
            assert(s.drop_last()[i] == s[i]);
        }
        lemma_count_free(s.drop_last(), sep);
    }
}

/// Splitting a string with no separator in it gives that one piece.
pub proof fn lemma_split_free(s: Seq<char>, sep: char)
    requires
        free_of(s, sep),
    ensures
        split_on(s, sep) == seq![s],
    decreases s.len(),
{
    if s.len() == 0 {
        assert(s =~= Seq::<char>::empty());
        assert(seq![Seq::<char>::empty()] =~= seq![s]);
    } else {
        assert forall|i: int| 0 <= i < s.drop_last().len() implies s.drop_last()[i] != sep by {
            assert(s.drop_last()[i] == s[i]);
        }
        lemma_split_free(s.drop_last(), sep);
        assert(s.drop_last().push(s.last()) =~= s);
        assert(seq![s.drop_last()].update(0, s.drop_last().push(s.last())) =~= seq![s]);
    }
}

/// Appending the separator to a string adds one empty piece to its split.
pub proof fn lemma_split_push_sep(s: Seq<char>, sep: char)
    ensures
        split_on(s.push(sep), sep) == split_on(s, sep).push(Seq::<char>::empty()),
{
    assert(s.push(sep).drop_last() =~= s);
    assert(s.push(sep).last() == sep);
}

/// Appending separator-free text to a string extends the last piece of its split.
pub proof fn lemma_split_append_free(s: Seq<char>, t: Seq<char>, sep: char)
    requires
        free_of(t, sep),
    ensures
        ({
            let prev = split_on(s, sep);
            split_on(s + t, sep) == prev.update(prev.len() - 1, prev.last() + t)
        }),
    decreases t.len(),
{
    let prev = split_on(s, sep);
    lemma_split_on_len(s, sep);
    if t.len() == 0 {
        assert(s + t =~= s);
        assert(prev.last() + t =~= prev.last());
        assert(prev.update(prev.len() - 1, prev.last()) =~= prev);
    } else {
        assert forall|i: int| 0 <= i < t.drop_last().len() implies t.drop_last()[i] != sep by {
            assert(t.drop_last()[i] == t[i]);
        }
        lemma_split_append_free(s, t.drop_last(), sep);
        let mid = split_on(s + t.drop_last(), sep);
        assert((s + t).drop_last() =~= s + t.drop_last());
        assert((s + t).last() == t.last());
        assert(t.last() != sep);
        assert(mid.last() == prev.last() + t.drop_last());
        assert((prev.last() + t.drop_last()).push(t.last()) =~= prev.last() + t);
        assert(mid.update(mid.len() - 1, mid.last().push(t.last())) =~= prev.update(
            prev.len() - 1,
            prev.last() + t,
        ));
    }
}

/// Joining one more piece appends the separator and that piece.
pub proof fn lemma_join_push(parts: Seq<Seq<char>>, p: Seq<char>, sep: char)
    requires
        parts.len() >= 1,
    ensures
        join_with(parts.push(p), sep) == join_with(parts, sep).push(sep) + p,
{
    assert(parts.push(p).drop_last() =~= parts);
    assert(parts.push(p).last() == p);
}

/// Splitting undoes joining, when no piece contains the separator.
pub proof fn lemma_split_join_roundtrip(parts: Seq<Seq<char>>, sep: char)
    requires
        parts.len() >= 1,
        forall|i: int| 0 <= i < parts.len() ==> free_of(#[trigger] parts[i], sep),
    ensures
        split_on(join_with(parts, sep), sep) == parts,
    decreases parts.len(),
{
    if parts.len() == 1 {
        lemma_split_free(parts[0], sep);
        assert(seq![parts[0]] =~= parts);
    } else {
        let rest = parts.drop_last();
        assert forall|i: int| 0 <= i < rest.len() implies free_of(#[trigger] rest[i], sep) by {
            assert(rest[i] == parts[i]);
        }
        lemma_split_join_roundtrip(rest, sep);
        assert(rest.push(parts.last()) =~= parts);
        lemma_join_push(rest, parts.last(), sep);
        let j = join_with(rest, sep);
        lemma_split_push_sep(j, sep);
        lemma_split_append_free(j.push(sep), parts.last(), sep);
        let mid = split_on(j.push(sep), sep);
        assert(mid == rest.push(Seq::<char>::empty()));
        assert(mid.last() + parts.last() =~= parts.last());
        assert(mid.update(mid.len() - 1, mid.last() + parts.last()) =~= parts);
    }
}

/// A join can be cut at any separator between pieces.
pub proof fn lemma_join_decompose(parts: Seq<Seq<char>>, i: int, sep: char)
    requires
        1 <= i < parts.len(),
    ensures
        join_with(parts, sep) == join_with(parts.take(i), sep).push(sep) + join_with(
            parts.skip(i),
            sep,
        ),
    decreases parts.len(),
{
    if i == parts.len() - 1 {
        assert(parts.take(i) =~= parts.drop_last());
        assert(parts.skip(i) =~= seq![parts.last()]);
    } else {
        let rest = parts.drop_last();
        lemma_join_decompose(rest, i, sep);
        assert(rest.take(i) =~= parts.take(i));
        assert(rest.skip(i) =~= parts.skip(i).drop_last());
        lemma_join_push(rest.skip(i), parts.last(), sep);
        assert(rest.skip(i).push(parts.last()) =~= parts.skip(i));
        assert(join_with(parts, sep) == join_with(rest, sep).push(sep) + parts.last());
        assert((join_with(parts.take(i), sep).push(sep) + join_with(rest.skip(i), sep)).push(sep)
            + parts.last() =~= join_with(parts.take(i), sep).push(sep) + (join_with(
            rest.skip(i),
            sep,
        ).push(sep) + parts.last()));
    }
}

/// Counts occurrences of `c` among the characters of `s`.
pub fn count_char(s: &str, c: char) -> (n: usize)
    ensures
        n == count_matches(s@, c),
{
    let len = s.unicode_len();
    let mut n: usize = 0;
    let mut i: usize = 0;
    while i < len
        invariant
            i <= len,
            n <= i,
            len == s@.len(),
            n == count_matches(s@.take(i as int), c),
        decreases len - i,
    {
        proof {
            assert(s@.take(i + 1).drop_last() =~= s@.take(i as int));
            assert(s@.take(i + 1).last() == s@[i as int]);
        }
        if s.get_char(i) == c {
            n = n + 1;
        }
        i = i + 1;
    }
    proof {
        assert(s@.take(len as int) =~= s@);
    }
    n
}

/// Decides whether `s` starts with `p`, character for character.
pub fn has_prefix(s: &str, p: &str) -> (r: bool)
    ensures
        r == has_prefix_spec(s@, p@),
{
    let sl = s.unicode_len();
    let pl = p.unicode_len();
    if pl > sl {
        return false;
    }
    let mut i: usize = 0;
    while i < pl
        invariant
            i <= pl,
            pl <= sl,
            pl == p@.len(),
            sl == s@.len(),
            forall|j: int| 0 <= j < i ==> s@[j] == p@[j],
        decreases pl - i,
    {
        if s.get_char(i) != p.get_char(i) {
            proof {
                assert(s@.take(pl as int)[i as int] == s@[i as int]);
            }
            return false;
        }
        i = i + 1;
    }
    proof {
        assert(s@.take(pl as int) =~= p@);
    }
    true
}

/// Decides whether two string slices hold the same characters.
pub fn str_eq(a: &str, b: &str) -> (r: bool)
    ensures
        r == (a@ == b@),
{
    let al = a.unicode_len();
    let bl = b.unicode_len();
    if al != bl {
        return false;
    }
    let mut i: usize = 0;
    while i < al
        invariant
            i <= al,
            al == a@.len(),
            al == b@.len(),
            forall|j: int| 0 <= j < i ==> a@[j] == b@[j],
        decreases al - i,
    {
        if a.get_char(i) != b.get_char(i) {
            return false;
        }
        i = i + 1;
    }
    proof {
        assert(a@ =~= b@);
    }
    true
}

/// Splits `s` at every occurrence of `sep`, keeping empty pieces.
pub fn split_char(s: &str, sep: char) -> (parts: Vec<String>)
    ensures
        parts.deep_view() == split_on(s@, sep),
        parts.len() >= 1,
{
    let len = s.unicode_len();
    let mut parts: Vec<String> = Vec::new();
    let mut start: usize = 0;
    let mut i: usize = 0;
    proof {
        assert(s@.subrange(0, 0) =~= Seq::<char>::empty());
        assert(parts.deep_view().push(s@.subrange(0, 0)) =~= seq![Seq::<char>::empty()]);
        assert(s@.take(0) =~= Seq::<char>::empty());
    }
    while i < len
        invariant
            start <= i <= len,
            len == s@.len(),
            parts.deep_view().push(s@.subrange(start as int, i as int)) == split_on(
                s@.take(i as int),
                sep,
            ),
        decreases len - i,
    {
        proof {
            assert(s@.take(i + 1).drop_last() =~= s@.take(i as int));
            assert(s@.take(i + 1).last() == s@[i as int]);
        }
        let ghost old_parts = parts.deep_view();
        if s.get_char(i) == sep {
            let piece = s.substring_char(start, i).to_owned();
            parts.push(piece);
            proof {
                assert(parts.deep_view() =~= old_parts.push(s@.subrange(start as int, i as int)));
                assert(s@.subrange(i + 1, i + 1) =~= Seq::<char>::empty());
                assert(parts.deep_view().push(s@.subrange(i + 1, i + 1)) =~= split_on(
                    s@.take(i as int),
                    sep,
                ).push(Seq::<char>::empty()));
            }
            start = i + 1;
        } else {
            proof {
                let prev = split_on(s@.take(i as int), sep);
                assert(prev.last() == s@.subrange(start as int, i as int));
                assert(s@.subrange(start as int, i as int).push(s@[i as int]) =~= s@.subrange(
                    start as int,
                    i + 1,
                ));
                assert(prev.update(prev.len() - 1, prev.last().push(s@[i as int])) =~=
                    old_parts.push(s@.subrange(start as int, i + 1)));
            }
        }
        i = i + 1;
    }
    let piece = s.substring_char(start, len).to_owned();
    parts.push(piece);
    proof {
        assert(s@.take(len as int) =~= s@);
        assert(parts.deep_view() =~= split_on(s@, sep));
        lemma_split_on_len(s@, sep);
    }
    parts
}

/// Joins the first `k` of the given pieces with `:` between them.
pub fn join_prefix_colon(parts: &Vec<String>, k: usize) -> (r: String)
    requires
        1 <= k <= parts.len(),
    ensures
        r@ == join_with(parts.deep_view().take(k as int), ':'),
{
    proof {
        reveal_strlit(":");
    }
    let mut r: String = parts[0].clone();
    proof {
        assert(parts.deep_view().take(1) =~= seq![parts@[0]@]);
    }
    let mut i: usize = 1;
    while i < k
        invariant
            1 <= i <= k,
            k <= parts.len(),
            r@ == join_with(parts.deep_view().take(i as int), ':'),
        decreases k - i,
    {
        r.append(":");
        proof {
            reveal_strlit(":");
            assert(":"@ =~= seq![':']);
        }
        r.append(parts[i].as_str());
        proof {
            let dv = parts.deep_view();
            assert(dv.take(i + 1).drop_last() =~= dv.take(i as int));
            assert(dv.take(i + 1).last() == dv[i as int]);
            assert(join_with(dv.take(i as int), ':').push(':') =~= join_with(
                dv.take(i as int),
                ':',
            ) + seq![':']);
            assert(r@ =~= join_with(dv.take(i as int), ':').push(':') + dv[i as int]);
        }
        i = i + 1;
    }
    r
}

} // verus!
