//! Batch resolution through one `op inject` call: every reference is wrapped
//! in `{{ ... }}` and the wrapped references are joined by a delimiter; the
//! output is split at the delimiter and the pieces are matched to the
//! references by position.

use vstd::prelude::*;
use crate::secret_map::SecretMap;
use crate::text::{
    chars_of, decimal, push_char, push_decimal, string_of_range, trim_end, trim_end_range,
};

verus! {

broadcast use vstd::string::group_string_axioms;

/// The parts joined, with `d` between each two neighbours.
pub open spec fn join_with(parts: Seq<Seq<char>>, d: Seq<char>) -> Seq<char>
    decreases parts.len(),
{
    if parts.len() == 0 {
        seq![]
    } else if parts.len() == 1 {
        parts[0]
    } else {
        join_with(parts.drop_last(), d) + d + parts.last()
    }
}

/// A reference wrapped for `op inject`: `{{ r }}`.
pub open spec fn moustache(r: Seq<char>) -> Seq<char> {
    seq!['{', '{', ' '] + r + seq![' ', '}', '}']
}

/// The `op inject` template for `refs`: each wrapped, joined by `d`.
pub open spec fn inject_template(refs: Seq<Seq<char>>, d: Seq<char>) -> Seq<char> {
    join_with(refs.map_values(|r: Seq<char>| moustache(r)), d)
}

/// The views of a sequence of string slices.
pub open spec fn strs_view(refs: Seq<&str>) -> Seq<Seq<char>> {
    refs.map_values(|r: &str| r@)
}

/// Builds the `op inject` template that resolves every reference in one
/// call: references wrapped in `{{ ... }}`, joined by `delimiter`.
pub fn build_inject_template(refs: &[&str], delimiter: &str) -> (t: String)
    ensures
        t@ == inject_template(strs_view(refs@), delimiter@),
{
    let ghost views = strs_view(refs@);
    let ghost wrapped = views.map_values(|r: Seq<char>| moustache(r));
    let open = "{{ ";
    let close = " }}";
    proof {
        reveal_strlit("{{ ");
        reveal_strlit(" }}");
        assert(open@ =~= seq!['{', '{', ' ']);
        assert(close@ =~= seq![' ', '}', '}']);
    }
    let mut t = String::new();
    let n = refs.len();
    for i in 0..n
        invariant
            n == refs@.len(),
            views == strs_view(refs@),
            wrapped == views.map_values(|r: Seq<char>| moustache(r)),
            open@ == seq!['{', '{', ' '],
            close@ == seq![' ', '}', '}'],
            t@ == join_with(wrapped.take(i as int), delimiter@),
    {
        let ghost before = t@;
        if i > 0 {
            t.append(delimiter);
        }
        t.append(open);
        t.append(refs[i]);
        t.append(close);
        assert(wrapped.take(i + 1).drop_last() == wrapped.take(i as int));
        assert(wrapped[i as int] == moustache(refs@[i as int]@));
        if i > 0 {
            assert(t@ =~= before + delimiter@ + wrapped[i as int]);
        } else {
            assert(t@ =~= wrapped[i as int]);
            assert(wrapped.take(1) =~= seq![wrapped[0]]);
        }
    }
    assert(wrapped.take(n as int) == wrapped);
    t
}

/// `d` occurs in `s` at position `i`.
pub open spec fn match_at(s: Seq<char>, d: Seq<char>, i: int) -> bool {
    0 <= i && i + d.len() <= s.len() && s.subrange(i, i + d.len()) == d
}

/// The first position at or after `from` where `d` occurs in `s`, or
/// `s.len()` when there is none (for a non-empty `d`).
pub open spec fn next_match(s: Seq<char>, d: Seq<char>, from: int) -> int
    decreases s.len() - from,
{
    if from < 0 || from + d.len() > s.len() || from >= s.len() {
        s.len() as int
    } else if match_at(s, d, from) {
        from
    } else {
        next_match(s, d, from + 1)
    }
}

pub proof fn lemma_next_match_bounds(s: Seq<char>, d: Seq<char>, from: int)
    requires
        0 <= from <= s.len(),
        d.len() > 0,
    ensures
        from <= next_match(s, d, from) <= s.len(),
        next_match(s, d, from) < s.len() ==> match_at(s, d, next_match(s, d, from)),
        forall|j: int| from <= j < next_match(s, d, from) ==> !match_at(s, d, j),
    decreases s.len() - from,
{
    if from + d.len() <= s.len() && from < s.len() && !match_at(s, d, from) {
        lemma_next_match_bounds(s, d, from + 1);
    }
}

/// `i` is the first occurrence of `d` at or after `from` when no earlier
/// position holds one and `i` does (or `i` is the end).
pub proof fn lemma_next_match_is(s: Seq<char>, d: Seq<char>, from: int, i: int)
    requires
        0 <= from <= i <= s.len(),
        d.len() > 0,
        forall|j: int| from <= j < i ==> !match_at(s, d, j),
        i < s.len() ==> match_at(s, d, i),
    ensures
        next_match(s, d, from) == i,
    decreases i - from,
{
    if from < i {
        if from + d.len() <= s.len() {
            lemma_next_match_is(s, d, from + 1, i);
        }
    }
}

/// The pieces of `s` from position `from` on, split at each occurrence of
/// the non-empty `d`, scanning from the left.
pub open spec fn pieces_from(s: Seq<char>, d: Seq<char>, from: int) -> Seq<Seq<char>>
    decreases s.len() - from,
    when 0 <= from <= s.len() && d.len() > 0
{
    let m = next_match(s, d, from);
    proof {
        lemma_next_match_bounds(s, d, from);
    }
    if m >= s.len() {
        seq![s.subrange(from, s.len() as int)]
    } else {
        seq![s.subrange(from, m)] + pieces_from(s, d, m + d.len())
    }
}

/// What `s.split(d)` yields for a string pattern `d`: the pieces between the
/// non-overlapping occurrences of `d`, found from the left; for an empty `d`,
/// an empty piece, each character, and an empty piece.
pub open spec fn split_on(s: Seq<char>, d: Seq<char>) -> Seq<Seq<char>> {
    if d.len() == 0 {
        seq![Seq::<char>::empty()] + s.map_values(|c: char| seq![c]) + seq![Seq::<char>::empty()]
    } else {
        pieces_from(s, d, 0)
    }
}

/// Whether `ds` occurs in `cs` at position `p`.
fn matches_at(cs: &Vec<char>, ds: &Vec<char>, p: usize) -> (r: bool)
    requires
        p <= cs@.len(),
        ds@.len() <= cs@.len() - p,
    ensures
        r == match_at(cs@, ds@, p as int),
{
    let m = ds.len();
    let n = cs.len();
    let mut k: usize = 0;
    while k < m
        invariant
            m == ds@.len(),
            n == cs@.len(),
            p <= cs@.len(),
            p + m <= cs@.len(),
            k <= m,
            forall|j: int| 0 <= j < k ==> cs@[p + j] == ds@[j],
        decreases m - k,
    {
        let q: usize = p + k;
        if cs[q] != ds[k] {
            assert(cs@.subrange(p as int, p + m)[k as int] != ds@[k as int]);
            return false;
        }
        k = k + 1;
    }
    assert(cs@.subrange(p as int, p + m) =~= ds@);
    true
}

/// The first occurrence of the non-empty `ds` in `cs` at or after `from`.
pub(crate) fn find_match(cs: &Vec<char>, ds: &Vec<char>, from: usize) -> (m: usize)
    requires
        from <= cs@.len(),
        ds@.len() > 0,
    ensures
        m == next_match(cs@, ds@, from as int),
{
    let n = cs.len();
    let dl = ds.len();
    let mut p = from;
    while p < n && dl <= n - p
        invariant
            n == cs@.len(),
            dl == ds@.len(),
            dl > 0,
            from <= p <= n,
            forall|j: int| from <= j < p ==> !match_at(cs@, ds@, j),
        decreases n - p,
    {
        if matches_at(cs, ds, p) {
            proof {
                lemma_next_match_is(cs@, ds@, from as int, p as int);
            }
            return p;
        }
        p = p + 1;
    }
    proof {
        assert forall|j: int| from <= j < n implies !match_at(cs@, ds@, j) by {
            if j >= p {
                assert(j + dl > n);
            }
        }
        lemma_next_match_is(cs@, ds@, from as int, n as int);
    }
    n
}

/// The bounds of the pieces of `cs` split at `ds`.
fn split_ranges(cs: &Vec<char>, ds: &Vec<char>) -> (r: Vec<(usize, usize)>)
    ensures
        r@.len() == split_on(cs@, ds@).len(),
        forall|i: int|
            #![trigger r@[i]]
            0 <= i < r@.len() ==> r@[i].0 <= r@[i].1 <= cs@.len() && cs@.subrange(
                r@[i].0 as int,
                r@[i].1 as int,
            ) == split_on(cs@, ds@)[i],
{
    let n = cs.len();
    let ghost s = cs@;
    let ghost d = ds@;
    let mut r: Vec<(usize, usize)> = Vec::new();
    if ds.len() == 0 {
        let ghost pieces = split_on(s, d);
        r.push((0, 0));
        let mut i: usize = 0;
        while i < n
            invariant
                n == s.len(),
                s == cs@,
                d == ds@,
                d.len() == 0,
                pieces == split_on(s, d),
                i <= n,
                r@.len() == i + 1,
                forall|j: int|
                    #![trigger r@[j]]
                    0 <= j < r@.len() ==> r@[j].0 <= r@[j].1 <= s.len() && s.subrange(
                        r@[j].0 as int,
                        r@[j].1 as int,
                    ) == pieces[j],
            decreases n - i,
        {
            assert(s.subrange(i as int, i + 1) =~= seq![s[i as int]]);
            assert(pieces[i + 1] == seq![s[i as int]]);
            r.push((i, i + 1));
            i = i + 1;
        }
        assert(s.subrange(n as int, n as int) =~= Seq::<char>::empty());
        r.push((n, n));
        return r;
    }
    let mut start: usize = 0;
    let ghost mut done: Seq<Seq<char>> = seq![];
    assert(done + pieces_from(s, d, 0) =~= pieces_from(s, d, 0));
    loop
        invariant
            n == s.len(),
            s == cs@,
            d == ds@,
            d.len() > 0,
            start <= n,
            split_on(s, d) == done + pieces_from(s, d, start as int),
            r@.len() == done.len(),
            forall|j: int|
                #![trigger r@[j]]
                0 <= j < r@.len() ==> r@[j].0 <= r@[j].1 <= s.len() && s.subrange(
                    r@[j].0 as int,
                    r@[j].1 as int,
                ) == done[j],
        decreases n - start,
    {
        let m = find_match(cs, ds, start);
        proof {
            lemma_next_match_bounds(s, d, start as int);
        }
        let ghost piece = s.subrange(start as int, m as int);
        if m == n {
            r.push((start, n));
            proof {
                assert(pieces_from(s, d, start as int) == seq![piece]);
                done = done.push(piece);
            }
            assert(split_on(s, d) =~= done);
            return r;
        }
        r.push((start, m));
        proof {
            assert(pieces_from(s, d, start as int) == seq![piece] + pieces_from(
                s,
                d,
                m + d.len(),
            ));
            assert(done + (seq![piece] + pieces_from(s, d, m + d.len())) =~= done.push(piece)
                + pieces_from(s, d, m + d.len()));
            done = done.push(piece);
        }
        start = m + ds.len();
    }
}

/// `d` does not occur in `v` followed by `d` anywhere before the end of `v`:
/// once `v` is joined to what follows by `d`, the first occurrence of `d`
/// from the start of `v` is the one right after `v`.
pub open spec fn clear_of(v: Seq<char>, d: Seq<char>) -> bool {
    forall|p: int| 0 <= p < v.len() ==> !match_at(v + d, d, p)
}

/// A join read from the front: the first part, `d`, then the join of the rest.
pub proof fn lemma_join_front(parts: Seq<Seq<char>>, d: Seq<char>)
    requires
        parts.len() >= 2,
    ensures
        join_with(parts, d) == parts[0] + d + join_with(parts.drop_first(), d),
    decreases parts.len(),
{
    if parts.len() == 2 {
        assert(join_with(parts.drop_last(), d) == parts[0]);
        assert(join_with(parts.drop_first(), d) == parts[1]);
    } else {
        lemma_join_front(parts.drop_last(), d);
        assert(parts.drop_first().drop_last() =~= parts.drop_last().drop_first());
        assert(parts.drop_first().last() == parts.last());
        assert(join_with(parts.drop_first(), d) == join_with(parts.drop_first().drop_last(), d) + d
            + parts.drop_first().last());
        assert(join_with(parts, d) =~= parts[0] + d + join_with(parts.drop_first(), d));
    }
}

/// The pieces of `s` from `start` on are `parts` when the rest of `s` is
/// the parts joined by `d` and no part lets `d` match early.
proof fn lemma_pieces_of_join(s: Seq<char>, d: Seq<char>, start: int, parts: Seq<Seq<char>>)
    requires
        d.len() > 0,
        parts.len() > 0,
        0 <= start <= s.len(),
        s.subrange(start, s.len() as int) == join_with(parts, d),
        forall|i: int| 0 <= i < parts.len() ==> clear_of(#[trigger] parts[i], d),
    ensures
        pieces_from(s, d, start) == parts,
    decreases parts.len(),
{
    let v = parts[0];
    let rest = s.subrange(start, s.len() as int);
    assert(clear_of(parts[0], d));
    if parts.len() == 1 {
        assert forall|j: int| start <= j < s.len() implies !match_at(s, d, j) by {
            if match_at(s, d, j) {
                let q = j - start;
                assert forall|k: int| 0 <= k < d.len() implies #[trigger] s.subrange(j, j + d.len())[k] == (v
                    + d).subrange(q, q + d.len())[k] by {
                    assert(s[j + k] == rest[q + k]);
                }
                assert(s.subrange(j, j + d.len()) =~= (v + d).subrange(q, q + d.len()));
                assert(match_at(v + d, d, q));
            }
        }
        lemma_next_match_is(s, d, start, s.len() as int);
        lemma_next_match_bounds(s, d, start);
        assert(pieces_from(s, d, start) =~= seq![v]);
    } else {
        lemma_join_front(parts, d);
        let m = start + v.len();
        assert(rest == v + d + join_with(parts.drop_first(), d));
        let tail = join_with(parts.drop_first(), d);
        assert(rest.len() == v.len() + d.len() + tail.len());
        assert forall|j: int| start <= j < m implies !match_at(s, d, j) by {
            if match_at(s, d, j) {
                let q = j - start;
                assert forall|k: int| 0 <= k < d.len() implies #[trigger] s.subrange(j, j + d.len())[k] == (v
                    + d).subrange(q, q + d.len())[k] by {
                    assert(s[j + k] == rest[q + k]);
                    assert(rest[q + k] == (v + d)[q + k]);
                }
                assert(s.subrange(j, j + d.len()) =~= (v + d).subrange(q, q + d.len()));
                assert(match_at(v + d, d, q));
            }
        }
        assert forall|k: int| 0 <= k < d.len() implies #[trigger] s.subrange(m, m + d.len())[k] == d[k] by {
            assert(s[m + k] == rest[v.len() + k]);
        }
        assert(s.subrange(m, m + d.len()) =~= d);
        lemma_next_match_is(s, d, start, m);
        lemma_next_match_bounds(s, d, start);
        assert(s.subrange(start, m) =~= v);
        assert forall|k: int| 0 <= k < tail.len() implies #[trigger] s.subrange(m + d.len(), s.len() as int)[k]
            == tail[k] by {
            assert(s[m + d.len() + k] == rest[v.len() + d.len() + k]);
        }
        assert(s.subrange(m + d.len(), s.len() as int) =~= tail);
        assert forall|k: int| 0 <= k < v.len() implies #[trigger] s.subrange(start, m)[k] == v[k] by {
            assert(s[start + k] == rest[k]);
        }
        assert forall|i: int| 0 <= i < parts.drop_first().len() implies clear_of(
            #[trigger] parts.drop_first()[i],
            d,
        ) by {
            assert(parts.drop_first()[i] == parts[i + 1]);
        }
        lemma_pieces_of_join(s, d, m + d.len(), parts.drop_first());
        assert(pieces_from(s, d, start) =~= parts);
    }
}

/// Splitting at `d` undoes joining with `d`: when the values of an `op
/// inject` answer are joined by the delimiter, and none of them lets the
/// delimiter match early, the split gives back exactly those values, in order.
pub proof fn split_undoes_join(parts: Seq<Seq<char>>, d: Seq<char>)
    requires
        d.len() > 0,
        parts.len() > 0,
        forall|i: int| 0 <= i < parts.len() ==> clear_of(#[trigger] parts[i], d),
    ensures
        split_on(join_with(parts, d), d) == parts,
{
    let s = join_with(parts, d);
    assert(s.subrange(0, s.len() as int) =~= s);
    lemma_pieces_of_join(s, d, 0, parts);
}

/// The map that matching `values` to `refs` by position gives, each value
/// without trailing whitespace; a later reference wins over an equal earlier one.
pub open spec fn inject_map(refs: Seq<Seq<char>>, values: Seq<Seq<char>>) -> Map<
    Seq<char>,
    Seq<char>,
>
    decreases refs.len(),
{
    if refs.len() == 0 {
        Map::empty()
    } else {
        inject_map(refs.drop_last(), values).insert(
            refs.last(),
            trim_end(values[refs.len() - 1]),
        )
    }
}

/// No reference occurs twice.
pub open spec fn all_distinct(refs: Seq<Seq<char>>) -> bool {
    forall|i: int, j: int| 0 <= i < j < refs.len() ==> refs[i] != refs[j]
}

/// With a queue of distinct references, each one maps to its own piece
/// without trailing whitespace, and the map holds no other key.
pub proof fn lemma_inject_map_exact(q: Seq<Seq<char>>, values: Seq<Seq<char>>)
    requires
        all_distinct(q),
    ensures
        forall|k: int|
            0 <= k < q.len() ==> inject_map(q, values).contains_key(#[trigger] q[k]) && inject_map(
                q,
                values,
            )[q[k]] == trim_end(values[k]),
        forall|x: Seq<char>| #[trigger] inject_map(q, values).contains_key(x) ==> q.contains(x),
    decreases q.len(),
{
    if q.len() > 0 {
        let n = q.len();
        let dl = q.drop_last();
        assert(all_distinct(dl));
        lemma_inject_map_exact(dl, values);
        let m = inject_map(q, values);
        assert forall|k: int| 0 <= k < q.len() implies m.contains_key(#[trigger] q[k]) && m[q[k]]
            == trim_end(values[k]) by {
            if k < n - 1 {
                assert(dl[k] == q[k]);
                assert(q[k] != q[n - 1]);
            }
        }
        assert forall|x: Seq<char>| #[trigger] m.contains_key(x) implies q.contains(x) by {
            if x != q[n - 1] {
                assert(inject_map(dl, values).contains_key(x));
                let j = choose|j: int| 0 <= j < dl.len() && dl[j] == x;
                assert(q[j] == x);
            } else {
                assert(q[n - 1] == x);
            }
        }
    }
}

/// `d` has no border: no non-empty proper prefix of `d` is also a suffix of it.
pub open spec fn borderless(d: Seq<char>) -> bool {
    forall|k: int| 0 < k < d.len() ==> #[trigger] d.subrange(0, k) != d.subrange(d.len() - k, d.len() as int)
}

/// `d` occurs nowhere in `v`.
pub open spec fn free_of(v: Seq<char>, d: Seq<char>) -> bool {
    forall|p: int| !#[trigger] match_at(v, d, p)
}

/// A value that does not hold a borderless delimiter cannot let it match early.
pub proof fn lemma_clear_of_free_and_borderless(v: Seq<char>, d: Seq<char>)
    requires
        d.len() > 0,
        borderless(d),
        free_of(v, d),
    ensures
        clear_of(v, d),
{
    assert forall|p: int| 0 <= p < v.len() implies !match_at(v + d, d, p) by {
        if match_at(v + d, d, p) {
            let w = v + d;
            if p + d.len() <= v.len() {
                assert forall|t: int| 0 <= t < d.len() implies #[trigger] v.subrange(p, p + d.len())[t]
                    == d[t] by {
                    assert(w.subrange(p, p + d.len())[t] == d[t]);
                    assert(w[p + t] == v[p + t]);
                }
                assert(v.subrange(p, p + d.len()) =~= d);
                assert(match_at(v, d, p));
            } else {
                let k = p + d.len() - v.len();
                assert(0 < k < d.len());
                assert forall|t: int| 0 <= t < k implies #[trigger] d.subrange(0, k)[t] == d.subrange(
                    d.len() - k,
                    d.len() as int,
                )[t] by {
                    assert(w.subrange(p, p + d.len())[d.len() - k + t] == d[d.len() - k + t]);
                    assert(w[v.len() + t] == d[t]);
                }
                assert(d.subrange(0, k) =~= d.subrange(d.len() - k, d.len() as int));
            }
        }
    }
}

/// The `op inject` round trip: when the values are joined by a non-empty,
/// borderless delimiter that none of them holds, splitting gives the values
/// back, and matching them to distinct references maps each reference to its
/// value (as it is, when it has no trailing whitespace).
pub proof fn inject_round_trip(refs: Seq<Seq<char>>, values: Seq<Seq<char>>, d: Seq<char>)
    requires
        d.len() > 0,
        borderless(d),
        values.len() > 0,
        refs.len() == values.len(),
        all_distinct(refs),
        forall|i: int| 0 <= i < values.len() ==> free_of(#[trigger] values[i], d),
        forall|i: int| 0 <= i < values.len() ==> trim_end(#[trigger] values[i]) == values[i],
    ensures
        split_on(join_with(values, d), d) == values,
        forall|i: int|
            0 <= i < refs.len() ==> inject_map(refs, split_on(join_with(values, d), d)).contains_key(
                #[trigger] refs[i],
            ) && inject_map(refs, split_on(join_with(values, d), d))[refs[i]] == values[i],
{
    assert forall|i: int| 0 <= i < values.len() implies clear_of(#[trigger] values[i], d) by {
        lemma_clear_of_free_and_borderless(values[i], d);
    }
    split_undoes_join(values, d);
    lemma_inject_map_exact(refs, values);
}

/// Why the output of `op inject` could not be matched to the references.
#[derive(Debug, PartialEq, Eq)]
pub enum InjectError {
    /// The output split into `values` pieces, but `references` references were asked for.
    ValueCountMismatch { values: usize, references: usize },
}

/// `"op inject returned V value(s) for R reference(s)"`.
pub open spec fn count_mismatch_message(values: nat, references: nat) -> Seq<char> {
    "op inject returned "@ + decimal(values) + " value(s) for "@ + decimal(references)
        + " reference(s)"@
}

impl InjectError {
    /// The error's message.
    pub fn message(&self) -> (m: String)
        ensures
            match self {
                InjectError::ValueCountMismatch { values, references } => m@
                    == count_mismatch_message(*values as nat, *references as nat),
            },
    {
        match self {
            InjectError::ValueCountMismatch { values, references } => {
                let mut m = String::from_str("op inject returned ");
                push_decimal(&mut m, *values);
                m.append(" value(s) for ");
                push_decimal(&mut m, *references);
                m.append(" reference(s)");
                m
            },
        }
    }
}

/// Splits `op inject` output back into per-reference values at `delimiter`
/// and matches them to `refs` by position, each value without trailing
/// whitespace. Fails when the number of pieces differs from the number of
/// references.
pub fn parse_inject_output(output: &str, delimiter: &str, refs: &[&str]) -> (r: Result<
    SecretMap,
    InjectError,
>)
    ensures
        r is Ok <==> split_on(output@, delimiter@).len() == refs@.len(),
        r matches Ok(m) ==> m@ == inject_map(strs_view(refs@), split_on(output@, delimiter@)),
        r matches Err(InjectError::ValueCountMismatch { values, references }) ==> values
            == split_on(output@, delimiter@).len() && references == refs@.len(),
{
    let cs = chars_of(output);
    let ds = chars_of(delimiter);
    let ranges = split_ranges(&cs, &ds);
    let ghost pieces = split_on(output@, delimiter@);
    if ranges.len() != refs.len() {
        return Err(InjectError::ValueCountMismatch { values: ranges.len(), references: refs.len() });
    }
    let ghost rv = strs_view(refs@);
    let mut m = SecretMap::new();
    let n = refs.len();
    for i in 0..n
        invariant
            n == refs@.len(),
            n == ranges@.len(),
            rv == strs_view(refs@),
            pieces == split_on(output@, delimiter@),
            cs@ == output@,
            ranges@.len() == pieces.len(),
            forall|j: int|
                #![trigger ranges@[j]]
                0 <= j < ranges@.len() ==> ranges@[j].0 <= ranges@[j].1 <= cs@.len()
                    && cs@.subrange(ranges@[j].0 as int, ranges@[j].1 as int) == pieces[j],
            m@ == inject_map(rv.take(i as int), pieces),
    {
        let (a, b) = ranges[i];
        assert(cs@.subrange(a as int, b as int) == pieces[i as int]);
        let e = trim_end_range(&cs, a, b);
        let value = string_of_range(&cs, a, e);
        let key = refs[i].to_owned();
        m.insert(key, value);
        assert(rv.take(i + 1).drop_last() == rv.take(i as int));
    }
    assert(rv.take(n as int) == rv);
    Ok(m)
}

/// The lowercase hexadecimal digit of `n < 16`.
pub open spec fn hex_digit(n: nat) -> char {
    if n < 10 {
        ((48 + n) as u8) as char
    } else {
        ((87 + n) as u8) as char
    }
}

/// The lowercase hexadecimal text of `bytes`, two digits per byte.
pub open spec fn hex_of(bytes: Seq<u8>) -> Seq<char>
    decreases bytes.len(),
{
    if bytes.len() == 0 {
        seq![]
    } else {
        hex_of(bytes.drop_last()) + seq![
            hex_digit((bytes.last() / 16) as nat),
            hex_digit((bytes.last() % 16) as nat),
        ]
    }
}

/// The delimiter made from random bytes: `--op-cache-`, their hex, `--`.
pub open spec fn delimiter_text(bytes: Seq<u8>) -> Seq<char> {
    "--op-cache-"@ + hex_of(bytes) + seq!['-', '-']
}

fn hex_char(n: u8) -> (c: char)
    requires
        n < 16,
    ensures
        c == hex_digit(n as nat),
{
    if n < 10 {
        (48u8 + n) as char
    } else {
        (87u8 + n) as char
    }
}

/// The delimiter for an `op inject` template, made from random bytes so
/// that it does not collide with secret values: `--op-cache-<hex>--`.
pub fn delimiter_from_bytes(bytes: &[u8]) -> (d: String)
    ensures
        d@ == delimiter_text(bytes@),
{
    let mut d = String::from_str("--op-cache-");
    let ghost prefix = d@;
    let n = bytes.len();
    for i in 0..n
        invariant
            n == bytes@.len(),
            d@ == prefix + hex_of(bytes@.take(i as int)),
    {
        let b = bytes[i];
        let ghost before = d@;
        let hi = hex_char(b / 16);
        let lo = hex_char(b % 16);
        push_char(&mut d, hi);
        push_char(&mut d, lo);
        assert(bytes@.take(i + 1).drop_last() == bytes@.take(i as int));
        assert(d@ =~= prefix + hex_of(bytes@.take(i + 1)));
    }
    assert(bytes@.take(n as int) == bytes@);
    d.append("--");
    proof {
        reveal_strlit("--");
    }
    assert(d@ =~= delimiter_text(bytes@));
    d
}

/// `r` wrapped as `{{ r }}`, spelled out.
pub open spec fn wrapped_ref(r: Seq<char>) -> Seq<char> {
    seq!['{', '{', ' '] + r + seq![' ', '}', '}']
}

/// The template grows one reference at a time: one reference is just that
/// reference wrapped, and each further reference adds the delimiter and
/// itself wrapped at the end; so every two neighbours are separated by the
/// delimiter.
pub proof fn template_adds_delimiter_per_reference(refs: Seq<Seq<char>>, r: Seq<char>, d: Seq<char>)
    ensures
        inject_template(seq![r], d) == wrapped_ref(r),
        refs.len() > 0 ==> inject_template(refs.push(r), d) == inject_template(refs, d) + d
            + wrapped_ref(r),
{
    let one = seq![r].map_values(|x: Seq<char>| moustache(x));
    assert(one.len() == 1);
    assert(one[0] == moustache(r));
    assert(moustache(r) == wrapped_ref(r));
    if refs.len() > 0 {
        let w = refs.push(r).map_values(|x: Seq<char>| moustache(x));
        assert(w.drop_last() =~= refs.map_values(|x: Seq<char>| moustache(x)));
        assert(w.last() == moustache(r));
    }
}

/// When no wrapped reference holds the delimiter and the delimiter is
/// non-empty and has no border, the template splits at the delimiter into
/// exactly the wrapped references, one piece per reference.
pub proof fn template_splits_into_one_piece_per_reference(refs: Seq<Seq<char>>, d: Seq<char>)
    requires
        refs.len() > 0,
        d.len() > 0,
        borderless(d),
        forall|i: int| 0 <= i < refs.len() ==> free_of(wrapped_ref(#[trigger] refs[i]), d),
    ensures
        split_on(inject_template(refs, d), d) == refs.map_values(|r: Seq<char>| wrapped_ref(r)),
        split_on(inject_template(refs, d), d).len() == refs.len(),
{
    let w = refs.map_values(|x: Seq<char>| moustache(x));
    assert forall|i: int| 0 <= i < w.len() implies clear_of(#[trigger] w[i], d) by {
        assert(w[i] == wrapped_ref(refs[i]));
        lemma_clear_of_free_and_borderless(w[i], d);
    }
    split_undoes_join(w, d);
    assert(w =~= refs.map_values(|r: Seq<char>| wrapped_ref(r)));
}

} // verus!
