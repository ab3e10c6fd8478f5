//! Splitting a sequence at a separator, and joining it back.
//!
//! `split_at_sep` and `join_with_sep` are the common model for the `/`-split
//! of namespace paths and the `,`-split of digest texts; the lemmas here say
//! that the two are inverse to each other.

use vstd::prelude::*;

verus! {

/// The pieces of `s` between occurrences of `sep`, in order.
///
/// The result always has one more piece than `s` has separators; in
/// particular it is never empty, and empty pieces are kept.
pub open spec fn split_at_sep<A>(s: Seq<A>, sep: A) -> Seq<Seq<A>>
    decreases s.len(),
{
    if s.len() == 0 {
        seq![Seq::<A>::empty()]
    } else if s[0] == sep {
        seq![Seq::<A>::empty()] + split_at_sep(s.drop_first(), sep)
    } else {
        let rest = split_at_sep(s.drop_first(), sep);
        rest.update(0, seq![s[0]] + rest[0])
    }
}

/// The pieces of `parts` concatenated with `sep` between them.
pub open spec fn join_with_sep<A>(parts: Seq<Seq<A>>, sep: A) -> Seq<A>
    decreases parts.len(),
{
    if parts.len() == 0 {
        Seq::<A>::empty()
    } else if parts.len() == 1 {
        parts[0]
    } else {
        parts[0] + seq![sep] + join_with_sep(parts.drop_first(), sep)
    }
}

/// A split always has at least one piece.
pub proof fn lemma_split_len<A>(s: Seq<A>, sep: A)
    ensures
        split_at_sep(s, sep).len() >= 1,
    decreases s.len(),
{
    if s.len() == 0 {
    } else {
        lemma_split_len(s.drop_first(), sep);
    }
}

/// Joining the pieces of a split restores the original sequence.
pub proof fn lemma_join_split<A>(s: Seq<A>, sep: A)
    ensures
        join_with_sep(split_at_sep(s, sep), sep) == s,
    decreases s.len(),
{
    if s.len() == 0 {
    } else if s[0] == sep {
        lemma_join_split(s.drop_first(), sep);
        lemma_split_len(s.drop_first(), sep);
        let pieces = seq![Seq::<A>::empty()] + split_at_sep(s.drop_first(), sep);
        assert(pieces.drop_first() =~= split_at_sep(s.drop_first(), sep));
        assert(join_with_sep(pieces, sep) =~= s);
    } else {
        lemma_join_split(s.drop_first(), sep);
        lemma_split_len(s.drop_first(), sep);
        let rest = split_at_sep(s.drop_first(), sep);
        let pieces = rest.update(0, seq![s[0]] + rest[0]);
        if rest.len() == 1 {
            assert(join_with_sep(pieces, sep) == seq![s[0]] + rest[0]);
            assert(seq![s[0]] + rest[0] =~= s);
        } else {
            assert(pieces.drop_first() =~= rest.drop_first());
            assert(join_with_sep(pieces, sep) == (seq![s[0]] + rest[0]) + seq![sep]
                + join_with_sep(rest.drop_first(), sep));
            assert((seq![s[0]] + rest[0]) + seq![sep] + join_with_sep(rest.drop_first(), sep)
                =~= seq![s[0]] + (rest[0] + seq![sep] + join_with_sep(rest.drop_first(), sep)));
            assert(seq![s[0]] + join_with_sep(rest, sep) =~= s);
        }
    }
}

/// Prepending separator-free elements extends the first piece of a split.
pub proof fn lemma_split_cons_no_sep<A>(x: Seq<A>, rest: Seq<A>, sep: A)
    requires
        forall|i: int| 0 <= i < x.len() ==> x[i] != sep,
    ensures
        ({
            let r = split_at_sep(rest, sep);
            split_at_sep(x + rest, sep) == r.update(0, x + r[0])
        }),
    decreases x.len(),
{
    lemma_split_len(rest, sep);
    if x.len() == 0 {
        assert(x + rest =~= rest);
        let r = split_at_sep(rest, sep);
        assert(x + r[0] =~= r[0]);
        assert(r.update(0, x + r[0]) =~= r);
    } else {
        lemma_split_cons_no_sep(x.drop_first(), rest, sep);
        let r = split_at_sep(rest, sep);
        let inner = r.update(0, x.drop_first() + r[0]);
        assert((x + rest)[0] == x[0]);
        assert((x + rest).drop_first() =~= x.drop_first() + rest);
        assert(split_at_sep(x + rest, sep) == inner.update(0, seq![x[0]] + inner[0]));
        assert(seq![x[0]] + (x.drop_first() + r[0]) =~= x + r[0]);
        assert(inner.update(0, seq![x[0]] + inner[0]) =~= r.update(0, x + r[0]));
    }
}

/// A sequence without the separator splits into itself alone.
pub proof fn lemma_split_no_sep<A>(x: Seq<A>, sep: A)
    requires
        forall|i: int| 0 <= i < x.len() ==> x[i] != sep,
    ensures
        split_at_sep(x, sep) == seq![x],
    decreases x.len(),
{
    lemma_split_cons_no_sep(x, Seq::<A>::empty(), sep);
    assert(x + Seq::<A>::empty() =~= x);
    let r = split_at_sep(Seq::<A>::empty(), sep);
    assert(r.update(0, x + r[0]) =~= seq![x]);
}

/// A split breaks at the first separator.
pub proof fn lemma_split_sep_break<A>(x: Seq<A>, t: Seq<A>, sep: A)
    requires
        forall|i: int| 0 <= i < x.len() ==> x[i] != sep,
    ensures
        split_at_sep(x + seq![sep] + t, sep) == seq![x] + split_at_sep(t, sep),
{
    lemma_split_cons_no_sep(x, seq![sep] + t, sep);
    lemma_split_len(t, sep);
    let mid = seq![sep] + t;
    assert(mid[0] == sep);
    assert(mid.drop_first() =~= t);
    let r = split_at_sep(mid, sep);
    assert(r == seq![Seq::<A>::empty()] + split_at_sep(t, sep));
    assert(x + r[0] =~= x);
    assert(x + mid =~= x + seq![sep] + t);
    assert(r.update(0, x + r[0]) =~= seq![x] + split_at_sep(t, sep));
}

/// Splitting the join of separator-free pieces restores the pieces.
pub proof fn lemma_split_join<A>(parts: Seq<Seq<A>>, sep: A)
    requires
        parts.len() >= 1,
        forall|i: int, j: int|
            0 <= i < parts.len() && 0 <= j < parts[i].len() ==> #[trigger] parts[i][j] != sep,
    ensures
        split_at_sep(join_with_sep(parts, sep), sep) == parts,
    decreases parts.len(),
{
    if parts.len() == 1 {
        assert(forall|j: int| 0 <= j < parts[0].len() ==> parts[0][j] != sep);
        lemma_split_no_sep(parts[0], sep);
        assert(seq![parts[0]] =~= parts);
    } else {
        lemma_split_join(parts.drop_first(), sep);
        assert(forall|j: int| 0 <= j < parts[0].len() ==> parts[0][j] != sep);
        lemma_split_sep_break(parts[0], join_with_sep(parts.drop_first(), sep), sep);
        assert(seq![parts[0]] + parts.drop_first() =~= parts);
    }
}

/// Joining one more piece appends a separator and the piece.
pub proof fn lemma_join_push<A>(parts: Seq<Seq<A>>, x: Seq<A>, sep: A)
    ensures
        parts.len() == 0 ==> join_with_sep(parts.push(x), sep) == x,
        parts.len() > 0 ==> join_with_sep(parts.push(x), sep) == join_with_sep(parts, sep)
            + seq![sep] + x,
    decreases parts.len(),
{
    if parts.len() == 0 {
        assert(parts.push(x) =~= seq![x]);
    } else if parts.len() == 1 {
        assert(parts.push(x).drop_first() =~= seq![x]);
        assert(join_with_sep(seq![x], sep) == x);
        assert(join_with_sep(parts.push(x), sep) == parts[0] + seq![sep] + x);
    } else {
        lemma_join_push(parts.drop_first(), x, sep);
        assert(parts.push(x).drop_first() =~= parts.drop_first().push(x));
        assert(join_with_sep(parts.push(x), sep) == parts[0] + seq![sep] + (join_with_sep(
            parts.drop_first(),
            sep,
        ) + seq![sep] + x));
        assert(parts[0] + seq![sep] + (join_with_sep(parts.drop_first(), sep) + seq![sep] + x)
            =~= (parts[0] + seq![sep] + join_with_sep(parts.drop_first(), sep)) + seq![sep] + x);
    }
}

/// The first position where the two-element pattern `a, b` starts in `s`,
/// or `-1` if it never occurs.
pub open spec fn find_pair<A>(s: Seq<A>, a: A, b: A) -> int
    decreases s.len(),
{
    if s.len() < 2 {
        -1
    } else if s[0] == a && s[1] == b {
        0
    } else {
        let r = find_pair(s.drop_first(), a, b);
        if r < 0 {
            -1
        } else {
            r + 1
        }
    }
}

/// The pattern starts at `k` and nowhere earlier: `find_pair` returns `k`.
pub proof fn lemma_find_pair_at<A>(s: Seq<A>, a: A, b: A, k: int)
    requires
        0 <= k,
        k + 2 <= s.len(),
        s[k] == a && s[k + 1] == b,
        forall|j: int| 0 <= j < k ==> !(#[trigger] s[j] == a && s[j + 1] == b),
    ensures
        find_pair(s, a, b) == k,
    decreases k,
{
    if k == 0 {
    } else {
        assert(!(s[0] == a && s[1] == b));
        let t = s.drop_first();
        assert forall|j: int| 0 <= j < k - 1 implies !(#[trigger] t[j] == a && t[j + 1] == b) by {
            assert(t[j] == s[j + 1] && t[j + 1] == s[j + 2]);
            assert(!(s[j + 1] == a && s[j + 2] == b));
        }
        assert(t[k - 1] == s[k] && t[k] == s[k + 1]);
        lemma_find_pair_at(t, a, b, k - 1);
    }
}

/// The pattern occurs nowhere: `find_pair` returns `-1`.
pub proof fn lemma_find_pair_none<A>(s: Seq<A>, a: A, b: A)
    requires
        forall|j: int| 0 <= j && j + 2 <= s.len() ==> !(#[trigger] s[j] == a && s[j + 1] == b),
    ensures
        find_pair(s, a, b) == -1,
    decreases s.len(),
{
    if s.len() < 2 {
    } else {
        assert(!(s[0] == a && s[1] == b));
        let t = s.drop_first();
        assert forall|j: int| 0 <= j && j + 2 <= t.len() implies !(#[trigger] t[j] == a && t[j + 1]
            == b) by {
            assert(t[j] == s[j + 1] && t[j + 1] == s[j + 2]);
            assert(!(s[j + 1] == a && s[j + 2] == b));
        }
        lemma_find_pair_none(t, a, b);
    }
}

/// What a non-negative `find_pair` result means.
pub proof fn lemma_find_pair_props<A>(s: Seq<A>, a: A, b: A)
    ensures
        ({
            let r = find_pair(s, a, b);
            &&& r >= 0 ==> r + 2 <= s.len() && s[r] == a && s[r + 1] == b && forall|j: int|
                0 <= j < r ==> !(#[trigger] s[j] == a && s[j + 1] == b)
            &&& r < 0 ==> forall|j: int|
                0 <= j && j + 2 <= s.len() ==> !(#[trigger] s[j] == a && s[j + 1] == b)
        }),
    decreases s.len(),
{
    if s.len() < 2 {
    } else if s[0] == a && s[1] == b {
    } else {
        let t = s.drop_first();
        lemma_find_pair_props(t, a, b);
        let r = find_pair(s, a, b);
        let rt = find_pair(t, a, b);
        if rt >= 0 {
            assert(r == rt + 1);
            assert(s[r] == t[rt] && s[r + 1] == t[rt + 1]);
            assert forall|j: int| 0 <= j < r implies !(#[trigger] s[j] == a && s[j + 1] == b) by {
                if j > 0 {
                    assert(s[j] == t[j - 1] && s[j + 1] == t[j]);
                    assert(!(t[j - 1] == a && t[j] == b));
                }
            }
        } else {
            assert forall|j: int| 0 <= j && j + 2 <= s.len() implies !(#[trigger] s[j] == a && s[j + 1]
                == b) by {
                if j > 0 {
                    assert(s[j] == t[j - 1] && s[j + 1] == t[j]);
                    assert(!(t[j - 1] == a && t[j] == b));
                }
            }
        }
    }
}

/// The first position of `x` in `s`, or `-1` if it does not occur.
pub open spec fn find_elem<A>(s: Seq<A>, x: A) -> int
    decreases s.len(),
{
    if s.len() == 0 {
        -1
    } else if s[0] == x {
        0
    } else {
        let r = find_elem(s.drop_first(), x);
        if r < 0 {
            -1
        } else {
            r + 1
        }
    }
}

/// `x` stands at `k` and nowhere earlier: `find_elem` returns `k`.
pub proof fn lemma_find_elem_at<A>(s: Seq<A>, x: A, k: int)
    requires
        0 <= k < s.len(),
        s[k] == x,
        forall|j: int| 0 <= j < k ==> #[trigger] s[j] != x,
    ensures
        find_elem(s, x) == k,
    decreases k,
{
    if k == 0 {
    } else {
        let t = s.drop_first();
        assert forall|j: int| 0 <= j < k - 1 implies #[trigger] t[j] != x by {
            assert(t[j] == s[j + 1]);
        }
        lemma_find_elem_at(t, x, k - 1);
    }
}

/// `x` occurs nowhere: `find_elem` returns `-1`.
pub proof fn lemma_find_elem_none<A>(s: Seq<A>, x: A)
    requires
        forall|j: int| 0 <= j < s.len() ==> #[trigger] s[j] != x,
    ensures
        find_elem(s, x) == -1,
    decreases s.len(),
{
    if s.len() == 0 {
    } else {
        let t = s.drop_first();
        assert forall|j: int| 0 <= j < t.len() implies #[trigger] t[j] != x by {
            assert(t[j] == s[j + 1]);
        }
        lemma_find_elem_none(t, x);
    }
}

/// What a `find_elem` result means.
pub proof fn lemma_find_elem_props<A>(s: Seq<A>, x: A)
    ensures
        ({
            let r = find_elem(s, x);
            &&& r >= 0 ==> r < s.len() && s[r] == x && forall|j: int|
                0 <= j < r ==> #[trigger] s[j] != x
            &&& r < 0 ==> forall|j: int| 0 <= j < s.len() ==> #[trigger] s[j] != x
        }),
    decreases s.len(),
{
    if s.len() == 0 {
    } else if s[0] == x {
    } else {
        let t = s.drop_first();
        lemma_find_elem_props(t, x);
        let r = find_elem(s, x);
        let rt = find_elem(t, x);
        if rt >= 0 {
            assert forall|j: int| 0 <= j < r implies #[trigger] s[j] != x by {
                if j > 0 {
                    assert(s[j] == t[j - 1]);
                }
            }
        } else {
            assert forall|j: int| 0 <= j < s.len() implies #[trigger] s[j] != x by {
                if j > 0 {
                    assert(s[j] == t[j - 1]);
                }
            }
        }
    }
}

/// The first position where the byte pattern `a, b` starts in `s`.
pub fn find_pair_u8(s: &[u8], a: u8, b: u8) -> (r: Option<usize>)
    ensures
        match r {
            Some(k) => find_pair(s@, a, b) == k as int,
            None => find_pair(s@, a, b) == -1,
        },
{
    let n = s.len();
    if n < 2 {
        proof {
            lemma_find_pair_none(s@, a, b);
        }
        return None;
    }
    let mut i: usize = 0;
    while i <= n - 2
        invariant
            0 <= i as int <= n as int,
            n as int == s@.len(),
            n >= 2,
            forall|j: int| 0 <= j < i ==> !(#[trigger] s@[j] == a && s@[j + 1] == b),
        decreases n - i,
    {
        if s[i] == a && s[i + 1] == b {
            proof {
                lemma_find_pair_at(s@, a, b, i as int);
            }
            return Some(i);
        }
        i = i + 1;
    }
    proof {
        lemma_find_pair_none(s@, a, b);
    }
    None
}

/// The pieces of `s` around `sep`, as owned strings.
pub fn split_str(s: &str, sep: char) -> (r: Vec<String>)
    ensures
        r@.map_values(|t: String| t@) == split_at_sep(s@, sep),
{
    let n = s.unicode_len();
    let mut out: Vec<String> = Vec::new();
    let mut start: usize = 0;
    let mut i: usize = 0;
    proof {
        assert(s@.subrange(0, n as int) =~= s@);
        assert(out@.map_values(|t: String| t@) + split_at_sep(s@, sep) =~= split_at_sep(s@, sep));
    }
    while i < n
        invariant
            0 <= start as int <= i as int <= n as int,
            n as int == s@.len(),
            forall|j: int| start <= j < i ==> s@[j] != sep,
            split_at_sep(s@, sep) == out@.map_values(|t: String| t@) + split_at_sep(
                s@.subrange(start as int, n as int),
                sep,
            ),
        decreases n - i,
    {
        if s.get_char(i) == sep {
            let tok = s.substring_char(start, i);
            let ghost old_out = out@;
            out.push(String::from_str(tok));
            proof {
                lemma_split_sep_break(
                    s@.subrange(start as int, i as int),
                    s@.subrange(i + 1, n as int),
                    sep,
                );
                assert(s@.subrange(start as int, n as int) =~= s@.subrange(start as int, i as int)
                    + seq![sep] + s@.subrange(i + 1, n as int));
                assert(out@.map_values(|t: String| t@) =~= old_out.map_values(|t: String| t@)
                    + seq![s@.subrange(start as int, i as int)]);
                assert(out@.map_values(|t: String| t@) + split_at_sep(
                    s@.subrange(i + 1, n as int),
                    sep,
                ) =~= old_out.map_values(|t: String| t@) + (seq![
                    s@.subrange(start as int, i as int),
                ] + split_at_sep(s@.subrange(i + 1, n as int), sep)));
            }
            start = i + 1;
        }
        i = i + 1;
    }
    let tok = s.substring_char(start, n);
    let ghost old_out = out@;
    out.push(String::from_str(tok));
    proof {
        lemma_split_no_sep(s@.subrange(start as int, n as int), sep);
        assert(out@.map_values(|t: String| t@) =~= old_out.map_values(|t: String| t@) + seq![
            s@.subrange(start as int, n as int),
        ]);
        assert(out@.map_values(|t: String| t@) =~= split_at_sep(s@, sep));
    }
    out
}

/// The pieces of `s` around the byte `sep`, as owned byte vectors.
pub fn split_bytes(s: &[u8], sep: u8) -> (r: Vec<Vec<u8>>)
    ensures
        r@.map_values(|t: Vec<u8>| t@) == split_at_sep(s@, sep),
{
    let n = s.len();
    let mut out: Vec<Vec<u8>> = Vec::new();
    let mut cur: Vec<u8> = Vec::new();
    let mut i: usize = 0;
    proof {
        assert(cur@ + s@.subrange(0, n as int) =~= s@);
        assert(out@.map_values(|t: Vec<u8>| t@) + split_at_sep(s@, sep) =~= split_at_sep(s@, sep));
    }
    while i < n
        invariant
            0 <= i as int <= n as int,
            n as int == s@.len(),
            forall|j: int| 0 <= j < cur@.len() ==> cur@[j] != sep,
            split_at_sep(s@, sep) == out@.map_values(|t: Vec<u8>| t@) + split_at_sep(
                cur@ + s@.subrange(i as int, n as int),
                sep,
            ),
        decreases n - i,
    {
        let b = s[i];
        if b == sep {
            let ghost old_out = out@;
            let ghost old_cur = cur@;
            out.push(cur);
            cur = Vec::new();
            proof {
                lemma_split_sep_break(old_cur, s@.subrange(i + 1, n as int), sep);
                assert(old_cur + s@.subrange(i as int, n as int) =~= old_cur + seq![sep]
                    + s@.subrange(i + 1, n as int));
                assert(cur@ + s@.subrange(i + 1, n as int) =~= s@.subrange(i + 1, n as int));
                assert(out@.map_values(|t: Vec<u8>| t@) =~= old_out.map_values(|t: Vec<u8>| t@)
                    + seq![old_cur]);
                assert(out@.map_values(|t: Vec<u8>| t@) + split_at_sep(
                    s@.subrange(i + 1, n as int),
                    sep,
                ) =~= old_out.map_values(|t: Vec<u8>| t@) + (seq![old_cur] + split_at_sep(
                    s@.subrange(i + 1, n as int),
                    sep,
                )));
            }
        } else {
            let ghost old_cur = cur@;
            cur.push(b);
            proof {
                assert(old_cur + s@.subrange(i as int, n as int) =~= cur@ + s@.subrange(
                    i + 1,
                    n as int,
                ));
            }
        }
        i = i + 1;
    }
    let ghost old_out = out@;
    out.push(cur);
    proof {
        assert(cur@ + s@.subrange(n as int, n as int) =~= cur@);
        lemma_split_no_sep(cur@, sep);
        assert(out@.map_values(|t: Vec<u8>| t@) =~= old_out.map_values(|t: Vec<u8>| t@) + seq![
            cur@,
        ]);
        assert(out@.map_values(|t: Vec<u8>| t@) =~= split_at_sep(s@, sep));
    }
    out
}

} // verus!
