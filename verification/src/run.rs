//! The logic of running a command with `op://` references resolved: finding
//! the references in an environment, merging an env file into the process
//! environment, and substituting resolved values.

use vstd::prelude::*;
use crate::env_file::{Pair, pairs_view};
use crate::secret_map::SecretMap;

verus! {

broadcast use vstd::string::group_string_axioms;

/// The prefix that marks a secret reference.
pub open spec fn op_prefix() -> Seq<char> {
    seq!['o', 'p', ':', '/', '/']
}

/// `v` is a secret reference: it starts with `op://`.
pub open spec fn is_op_ref(v: Seq<char>) -> bool {
    v.len() >= 5 && v.subrange(0, 5) == op_prefix()
}

/// The keys of an environment, in order.
pub open spec fn keys_of(env: Seq<Pair>) -> Seq<Seq<char>> {
    env.map_values(|p: Pair| p.0)
}

/// The secret references among `values`, each once, in the order of their
/// first occurrence.
pub open spec fn unique_op_refs(values: Seq<Seq<char>>) -> Seq<Seq<char>>
    decreases values.len(),
{
    if values.len() == 0 {
        seq![]
    } else {
        let r = unique_op_refs(values.drop_last());
        let v = values.last();
        if is_op_ref(v) && !r.contains(v) {
            r.push(v)
        } else {
            r
        }
    }
}

/// The character at position `k` of `op://`.
fn op_prefix_char(k: usize) -> (c: char)
    requires
        k < 5,
    ensures
        c == op_prefix()[k as int],
{
    match k {
        0 => 'o',
        1 => 'p',
        2 => ':',
        _ => '/',
    }
}

/// Whether `s` starts with `op://`.
pub fn has_op_prefix(s: &str) -> (r: bool)
    ensures
        r == is_op_ref(s@),
{
    let mut k: usize = 0;
    for c in it: s.chars()
        invariant
            it.seq() == s@,
            k == it.index(),
            k <= 5,
            forall|j: int| 0 <= j < k ==> s@[j] == op_prefix()[j],
    {
        if k == 5 {
            assert(s@.subrange(0, 5) =~= op_prefix());
            return true;
        }
        if c != op_prefix_char(k) {
            return false;
        }
        k = k + 1;
    }
    if k == 5 {
        assert(s@.subrange(0, 5) =~= op_prefix());
    }
    k == 5
}

/// Returns the distinct `op://` references among the values of `env`, in
/// the order of their first occurrence.
pub fn collect_op_refs(env: &[(String, String)]) -> (refs: Vec<&str>)
    ensures
        refs@.map_values(|r: &str| r@) == unique_op_refs(
            pairs_view(env@).map_values(|p: Pair| p.1),
        ),
{
    let ghost values = pairs_view(env@).map_values(|p: Pair| p.1);
    let n = env.len();
    let mut refs: Vec<&str> = Vec::new();
    let mut chosen: Vec<usize> = Vec::new();
    for i in 0..n
        invariant
            n == env@.len(),
            values == pairs_view(env@).map_values(|p: Pair| p.1),
            chosen@.len() == refs@.len(),
            forall|j: int| 0 <= j < chosen@.len() ==> chosen@[j] < n,
            forall|j: int|
                0 <= j < chosen@.len() ==> #[trigger] refs@[j]@ == env@[chosen@[j] as int].1@,
            refs@.map_values(|r: &str| r@) == unique_op_refs(values.take(i as int)),
    {
        let ghost prev = refs@.map_values(|r: &str| r@);
        assert(values.take(i + 1).drop_last() == values.take(i as int));
        assert(values.take(i + 1).last() == env@[i as int].1@);
        let v: &String = &env[i].1;
        if has_op_prefix(v.as_str()) {
            let m = chosen.len();
            let mut j: usize = 0;
            let mut seen = false;
            while j < m
                invariant
                    m == chosen@.len(),
                    j <= m,
                    forall|k: int| 0 <= k < chosen@.len() ==> chosen@[k] < n,
                    n == env@.len(),
                    i < n,
                    v == &env@[i as int].1,
                    seen ==> j < m && env@[chosen@[j as int] as int].1@ == v@,
                    !seen ==> forall|k: int| 0 <= k < j ==> env@[chosen@[k] as int].1@ != v@,
                ensures
                    seen ==> j < m && env@[chosen@[j as int] as int].1@ == v@,
                    !seen ==> forall|k: int| 0 <= k < m ==> env@[chosen@[k] as int].1@ != v@,
                decreases m - j,
            {
                if env[chosen[j]].1 == *v {
                    seen = true;
                    break;
                }
                j = j + 1;
            }
            if seen {
                assert(prev[j as int] == refs@[j as int]@);
                assert(prev[j as int] == v@);
            } else {
                assert forall|k: int| 0 <= k < prev.len() implies prev[k] != v@ by {
                    assert(prev[k] == refs@[k]@);
                    assert(refs@[k]@ == env@[chosen@[k] as int].1@);
                    assert(env@[chosen@[k] as int].1@ != v@);
                }
                refs.push(v.as_str());
                chosen.push(i);
                assert(refs@.map_values(|r: &str| r@) =~= prev.push(v@));
            }
        }
    }
    assert(values.take(n as int) == values);
    refs
}

/// `env` with each value that `resolved` maps replaced by what it maps to.
pub open spec fn substituted(env: Seq<Pair>, resolved: Map<Seq<char>, Seq<char>>) -> Seq<Pair> {
    env.map_values(
        |p: Pair|
            (p.0, if resolved.contains_key(p.1) {
                resolved[p.1]
            } else {
                p.1
            }),
    )
}

/// Builds the final environment: each variable keeps its name and place, and
/// a value that `resolved` holds a secret for is replaced by that secret.
pub fn build_env(env: &[(String, String)], resolved: &SecretMap) -> (out: Vec<(String, String)>)
    ensures
        pairs_view(out@) == substituted(pairs_view(env@), resolved@),
{
    let n = env.len();
    let mut out: Vec<(String, String)> = Vec::new();
    for i in 0..n
        invariant
            n == env@.len(),
            pairs_view(out@) == substituted(pairs_view(env@), resolved@).take(i as int),
    {
        let k = env[i].0.clone();
        let value = match resolved.get(env[i].1.as_str()) {
            Some(secret) => secret.clone(),
            None => env[i].1.clone(),
        };
        let ghost kv = (k@, value@);
        let ghost before = out@;
        out.push((k, value));
        assert(pairs_view(out@) =~= pairs_view(before).push(kv));
        assert(substituted(pairs_view(env@), resolved@).take(i + 1) =~= substituted(
            pairs_view(env@),
            resolved@,
        ).take(i as int).push(kv));
    }
    assert(substituted(pairs_view(env@), resolved@).take(n as int) =~= substituted(
        pairs_view(env@),
        resolved@,
    ));
    out
}

/// The value of the last pair in `file` whose key is `k`.
pub open spec fn last_value(file: Seq<Pair>, k: Seq<char>) -> Option<Seq<char>>
    decreases file.len(),
{
    if file.len() == 0 {
        None
    } else if file.last().0 == k {
        Some(file.last().1)
    } else {
        last_value(file.drop_last(), k)
    }
}

/// The process environment with each variable that the file also sets given
/// the file's value (its last one, when the file sets it more than once).
pub open spec fn overridden(process: Seq<Pair>, file: Seq<Pair>) -> Seq<Pair> {
    process.map_values(
        |p: Pair|
            (p.0, match last_value(file, p.0) {
                Some(v) => v,
                None => p.1,
            }),
    )
}

/// The pairs of `file` whose key is neither in `keys` nor in an earlier pair
/// of `file`, in order.
pub open spec fn appended(keys: Seq<Seq<char>>, file: Seq<Pair>) -> Seq<Pair>
    decreases file.len(),
{
    if file.len() == 0 {
        seq![]
    } else {
        let r = appended(keys, file.drop_last());
        let p = file.last();
        if keys.contains(p.0) || keys_of(r).contains(p.0) {
            r
        } else {
            r.push(p)
        }
    }
}

/// The merge of a process environment and an env file.
pub open spec fn merged(process: Seq<Pair>, file: Seq<Pair>) -> Seq<Pair> {
    overridden(process, file) + appended(keys_of(process), file)
}

/// The value of the last pair of `file` with key `k`.
fn find_last_value<'a>(file: &'a Vec<(String, String)>, k: &String) -> (r: Option<&'a String>)
    ensures
        match r {
            Some(v) => last_value(pairs_view(file@), k@) == Some(v@),
            None => last_value(pairs_view(file@), k@) is None,
        },
{
    let mut i = file.len();
    assert(pairs_view(file@).take(i as int) =~= pairs_view(file@));
    while i > 0
        invariant
            i <= file@.len(),
            last_value(pairs_view(file@), k@) == last_value(pairs_view(file@).take(i as int), k@),
        decreases i,
    {
        let ghost t = pairs_view(file@).take(i as int);
        assert(t.drop_last() == pairs_view(file@).take(i - 1));
        if file[i - 1].0 == *k {
            return Some(&file[i - 1].1);
        }
        i = i - 1;
    }
    None
}

/// Whether some pair of `env` has key `k`.
fn has_key(env: &Vec<(String, String)>, k: &String) -> (r: bool)
    ensures
        r == keys_of(pairs_view(env@)).contains(k@),
{
    let n = env.len();
    let mut i: usize = 0;
    while i < n
        invariant
            n == env@.len(),
            i <= n,
            forall|j: int| 0 <= j < i ==> env@[j].0@ != k@,
        decreases n - i,
    {
        if env[i].0 == *k {
            assert(keys_of(pairs_view(env@))[i as int] == k@);
            return true;
        }
        i = i + 1;
    }
    false
}

/// Merges the process environment with env file entries: a file entry
/// overrides the process variable of the same name in place, and the file's
/// other variables are appended, in their order.
pub fn merge_env(process_env: Vec<(String, String)>, file_env: Vec<(String, String)>) -> (out: Vec<
    (String, String),
>)
    ensures
        pairs_view(out@) == merged(pairs_view(process_env@), pairs_view(file_env@)),
{
    let ghost pv = pairs_view(process_env@);
    let ghost fv = pairs_view(file_env@);
    let mut out: Vec<(String, String)> = Vec::new();
    let n = process_env.len();
    for i in 0..n
        invariant
            n == process_env@.len(),
            pv == pairs_view(process_env@),
            fv == pairs_view(file_env@),
            pairs_view(out@) == overridden(pv, fv).take(i as int),
    {
        let k = process_env[i].0.clone();
        let value = match find_last_value(&file_env, &k) {
            Some(v) => v.clone(),
            None => process_env[i].1.clone(),
        };
        let ghost kv = (k@, value@);
        let ghost before = out@;
        out.push((k, value));
        assert(pairs_view(out@) =~= pairs_view(before).push(kv));
        assert(overridden(pv, fv).take(i + 1) =~= overridden(pv, fv).take(i as int).push(kv));
    }
    assert(overridden(pv, fv).take(n as int) =~= overridden(pv, fv));
    let mut added: Vec<(String, String)> = Vec::new();
    let m = file_env.len();
    for i in 0..m
        invariant
            m == file_env@.len(),
            pv == pairs_view(process_env@),
            fv == pairs_view(file_env@),
            pairs_view(added@) == appended(keys_of(pv), fv.take(i as int)),
    {
        assert(fv.take(i + 1).drop_last() == fv.take(i as int));
        assert(fv.take(i + 1).last() == fv[i as int]);
        let k = &file_env[i].0;
        let in_process = has_key(&process_env, k);
        let in_added = has_key(&added, k);
        if !in_process && !in_added {
            let ghost kv = (k@, file_env@[i as int].1@);
            let ghost before = added@;
            added.push((k.clone(), file_env[i].1.clone()));
            assert(pairs_view(added@) =~= pairs_view(before).push(kv));
        }
    }
    assert(fv.take(m as int) == fv);
    let ghost first = out@;
    let mut j: usize = 0;
    let a = added.len();
    while j < a
        invariant
            a == added@.len(),
            j <= a,
            out@ == first + added@.take(j as int),
        decreases a - j,
    {
        let pair = (added[j].0.clone(), added[j].1.clone());
        out.push(pair);
        assert(added@.take(j + 1) == added@.take(j as int).push(added@[j as int]));
        j = j + 1;
    }
    assert(added@.take(a as int) == added@);
    assert(pairs_view(first + added@) =~= pairs_view(first) + pairs_view(added@));
    out
}

} // verus!

verus! {

/// The references `collect_op_refs` finds are distinct secret references
/// taken from the values, and every secret reference among the values is
/// one of them.
pub proof fn unique_op_refs_are_exact(values: Seq<Seq<char>>)
    ensures
        forall|i: int, j: int|
            0 <= i < j < unique_op_refs(values).len() ==> unique_op_refs(values)[i]
                != unique_op_refs(values)[j],
        forall|i: int|
            0 <= i < unique_op_refs(values).len() ==> is_op_ref(#[trigger] unique_op_refs(values)[i])
                && values.contains(unique_op_refs(values)[i]),
        forall|v: Seq<char>| #[trigger] values.contains(v) && is_op_ref(v) ==> unique_op_refs(
            values,
        ).contains(v),
    decreases values.len(),
{
    if values.len() > 0 {
        let prefix = values.drop_last();
        unique_op_refs_are_exact(prefix);
        let r = unique_op_refs(prefix);
        assert forall|i: int|
            0 <= i < unique_op_refs(values).len() implies is_op_ref(
            #[trigger] unique_op_refs(values)[i],
        ) && values.contains(unique_op_refs(values)[i]) by {
            if i < r.len() {
                let k = choose|k: int| 0 <= k < prefix.len() && prefix[k] == r[i];
                assert(values[k] == r[i]);
            } else {
                assert(values[values.len() - 1] == values.last());
            }
        }
        assert forall|v: Seq<char>| #[trigger] values.contains(v) && is_op_ref(v) implies unique_op_refs(
            values,
        ).contains(v) by {
            let k = choose|k: int| 0 <= k < values.len() && values[k] == v;
            if k < values.len() - 1 {
                assert(prefix[k] == v);
                assert(prefix.contains(v));
                assert(r.contains(v));
                let j = choose|j: int| 0 <= j < r.len() && r[j] == v;
                assert(unique_op_refs(values)[j] == v);
            } else {
                if r.contains(v) {
                    let j = choose|j: int| 0 <= j < r.len() && r[j] == v;
                    assert(unique_op_refs(values)[j] == v);
                } else {
                    assert(unique_op_refs(values)[r.len() as int] == v);
                }
            }
        }
    }
}

/// The final environment keeps every variable's name and place, and a value
/// without a secret stays as it was.
pub proof fn substituted_keeps_names(env: Seq<Pair>, resolved: Map<Seq<char>, Seq<char>>)
    ensures
        keys_of(substituted(env, resolved)) == keys_of(env),
        forall|i: int|
            0 <= i < env.len() && !resolved.contains_key(env[i].1) ==> #[trigger] substituted(
                env,
                resolved,
            )[i] == env[i],
        forall|i: int|
            0 <= i < env.len() && resolved.contains_key(env[i].1) ==> #[trigger] substituted(
                env,
                resolved,
            )[i].1 == resolved[env[i].1],
{
    assert(keys_of(substituted(env, resolved)) =~= keys_of(env));
}

/// What `appended` keeps: the first pair of each key of `file` that is not
/// in `keys`, and nothing else.
proof fn lemma_appended(keys: Seq<Seq<char>>, file: Seq<Pair>)
    ensures
        forall|i: int, j: int|
            0 <= i < j < appended(keys, file).len() ==> appended(keys, file)[i].0 != appended(
                keys,
                file,
            )[j].0,
        forall|i: int|
            0 <= i < appended(keys, file).len() ==> !keys.contains(
                #[trigger] appended(keys, file)[i].0,
            ) && file.contains(appended(keys, file)[i]),
        forall|j: int|
            0 <= j < file.len() && !keys.contains(#[trigger] file[j].0) ==> keys_of(
                appended(keys, file),
            ).contains(file[j].0),
    decreases file.len(),
{
    if file.len() > 0 {
        let prefix = file.drop_last();
        lemma_appended(keys, prefix);
        let r = appended(keys, prefix);
        let a = appended(keys, file);
        assert forall|i: int| 0 <= i < a.len() implies !keys.contains(#[trigger] a[i].0)
            && file.contains(a[i]) by {
            if i < r.len() {
                let k = choose|k: int| 0 <= k < prefix.len() && prefix[k] == r[i];
                assert(file[k] == r[i]);
            } else {
                assert(file[file.len() - 1] == a[i]);
            }
        }
        assert forall|i: int, j: int| 0 <= i < j < a.len() implies a[i].0 != a[j].0 by {
            if j == r.len() {
                assert(keys_of(r)[i] == r[i].0);
            }
        }
        assert forall|j: int| 0 <= j < file.len() && !keys.contains(#[trigger] file[j].0) implies keys_of(
            a,
        ).contains(file[j].0) by {
            if j < file.len() - 1 {
                assert(prefix[j] == file[j]);
                let k = choose|k: int| 0 <= k < keys_of(r).len() && keys_of(r)[k] == file[j].0;
                assert(keys_of(a)[k] == file[j].0);
            } else if keys_of(r).contains(file[j].0) {
                let k = choose|k: int| 0 <= k < keys_of(r).len() && keys_of(r)[k] == file[j].0;
                assert(keys_of(a)[k] == file[j].0);
            } else {
                assert(keys_of(a)[r.len() as int] == file[j].0);
            }
        }
    }
}

/// Merging keeps the process variables first, in their order; every variable
/// the file sets ends up in the result; the file's value wins for a variable
/// both set; and when the process variables have distinct names, so do the
/// merged ones.
pub proof fn merge_law(process: Seq<Pair>, file: Seq<Pair>)
    ensures
        merged(process, file).len() >= process.len(),
        keys_of(merged(process, file)).subrange(0, process.len() as int) == keys_of(process),
        forall|i: int|
            0 <= i < process.len() && last_value(file, process[i].0) is Some ==> #[trigger] merged(
                process,
                file,
            )[i].1 == last_value(file, process[i].0)->0,
        forall|j: int|
            0 <= j < file.len() ==> keys_of(merged(process, file)).contains(#[trigger] file[j].0),
        (forall|i: int, j: int| 0 <= i < j < process.len() ==> process[i].0 != process[j].0) ==> (
        forall|i: int, j: int|
            0 <= i < j < merged(process, file).len() ==> merged(process, file)[i].0 != merged(
                process,
                file,
            )[j].0),
{
    let pk = keys_of(process);
    let m = merged(process, file);
    let o = overridden(process, file);
    let a = appended(pk, file);
    lemma_appended(pk, file);
    assert(keys_of(m).subrange(0, process.len() as int) =~= pk);
    assert forall|j: int| 0 <= j < file.len() implies keys_of(m).contains(#[trigger] file[j].0) by {
        if pk.contains(file[j].0) {
            let k = choose|k: int| 0 <= k < pk.len() && pk[k] == file[j].0;
            assert(keys_of(m)[k] == file[j].0);
        } else {
            let k = choose|k: int| 0 <= k < keys_of(a).len() && keys_of(a)[k] == file[j].0;
            assert(keys_of(m)[o.len() + k] == file[j].0);
        }
    }
    if forall|i: int, j: int| 0 <= i < j < process.len() ==> process[i].0 != process[j].0 {
        assert forall|i: int, j: int| 0 <= i < j < m.len() implies m[i].0 != m[j].0 by {
            if j >= o.len() && i < o.len() {
                assert(pk[i] == m[i].0);
                assert(m[j] == a[j - o.len()]);
            } else if i >= o.len() {
                assert(m[i] == a[i - o.len()]);
                assert(m[j] == a[j - o.len()]);
            }
        }
    }
}

} // verus!

verus! {

/// The position of the first occurrence of `x` in `s`, or -1 when `x` is absent.
pub open spec fn first_index(s: Seq<Seq<char>>, x: Seq<char>) -> int
    decreases s.len(),
{
    if s.len() == 0 {
        -1
    } else if s.drop_last().contains(x) {
        first_index(s.drop_last(), x)
    } else if s.last() == x {
        s.len() - 1
    } else {
        -1
    }
}

/// `first_index` finds the first occurrence.
pub proof fn lemma_first_index(s: Seq<Seq<char>>, x: Seq<char>)
    ensures
        s.contains(x) ==> 0 <= first_index(s, x) < s.len() && s[first_index(s, x)] == x && forall|
            j: int,
        | 0 <= j < first_index(s, x) ==> s[j] != x,
        !s.contains(x) ==> first_index(s, x) == -1,
    decreases s.len(),
{
    if s.len() > 0 {
        let p = s.drop_last();
        lemma_first_index(p, x);
        if p.contains(x) {
            let k = choose|k: int| 0 <= k < p.len() && p[k] == x;
            assert(s[k] == x);
            assert(s[first_index(s, x)] == p[first_index(p, x)]);
            assert forall|j: int| 0 <= j < first_index(s, x) implies s[j] != x by {
                assert(s[j] == p[j]);
            }
        } else if s.last() == x {
            assert forall|j: int| 0 <= j < first_index(s, x) implies s[j] != x by {
                assert(s[j] == p[j]);
            }
        } else {
            if s.contains(x) {
                let k = choose|k: int| 0 <= k < s.len() && s[k] == x;
                assert(p[k] == x);
            }
        }
    }
}

/// The references `collect_op_refs` gives come in the order of their first
/// occurrence among the values: each is the value at its first index, and
/// earlier references have earlier first indices.
pub proof fn unique_op_refs_keep_first_order(values: Seq<Seq<char>>)
    ensures
        forall|a: int|
            0 <= a < unique_op_refs(values).len() ==> 0 <= first_index(
                values,
                #[trigger] unique_op_refs(values)[a],
            ) < values.len(),
        forall|a: int, b: int|
            0 <= a < b < unique_op_refs(values).len() ==> first_index(
                values,
                #[trigger] unique_op_refs(values)[a],
            ) < first_index(values, #[trigger] unique_op_refs(values)[b]),
    decreases values.len(),
{
    unique_op_refs_are_exact(values);
    if values.len() > 0 {
        let p = values.drop_last();
        let n = values.len();
        unique_op_refs_keep_first_order(p);
        unique_op_refs_are_exact(p);
        let r = unique_op_refs(p);
        let u = unique_op_refs(values);
        assert forall|x: Seq<char>| p.contains(x) implies first_index(values, x) == first_index(p, x)
            && first_index(p, x) < n - 1 by {
            lemma_first_index(p, x);
        }
        assert forall|a: int| 0 <= a < u.len() implies 0 <= first_index(values, #[trigger] u[a])
            < values.len() by {
            lemma_first_index(values, u[a]);
        }
        if u.len() > r.len() {
            let v = values.last();
            assert(!p.contains(v)) by {
                if p.contains(v) {
                    assert(r.contains(v));
                }
            }
            assert(first_index(values, v) == n - 1);
        }
        assert forall|a: int, b: int| 0 <= a < b < u.len() implies first_index(
            values,
            #[trigger] u[a],
        ) < first_index(values, #[trigger] u[b]) by {
            assert(u[a] == r[a]);
            assert(p.contains(r[a]));
            if b < r.len() {
                assert(u[b] == r[b]);
                assert(p.contains(r[b]));
            }
        }
    }
}

} // verus!

verus! {

/// `last_value` gives nothing exactly when no pair has the key.
pub proof fn lemma_last_value_none(file: Seq<Pair>, k: Seq<char>)
    ensures
        last_value(file, k) is None <==> forall|j: int| 0 <= j < file.len() ==> #[trigger] file[j].0 != k,
    decreases file.len(),
{
    if file.len() > 0 {
        let p = file.drop_last();
        lemma_last_value_none(p, k);
        if last_value(file, k) is None {
            assert forall|j: int| 0 <= j < file.len() implies #[trigger] file[j].0 != k by {
                if j < file.len() - 1 {
                    assert(p[j] == file[j]);
                }
            }
        } else if forall|j: int| 0 <= j < file.len() ==> #[trigger] file[j].0 != k {
            assert forall|j: int| 0 <= j < p.len() implies #[trigger] p[j].0 != k by {
                assert(p[j] == file[j]);
            }
            assert(file[file.len() - 1].0 != k);
        }
    }
}

/// `last_value` gives the value of the last pair with the key.
pub proof fn lemma_last_value(file: Seq<Pair>, k: Seq<char>, j: int)
    requires
        0 <= j < file.len(),
        file[j].0 == k,
        forall|j2: int| j < j2 < file.len() ==> #[trigger] file[j2].0 != k,
    ensures
        last_value(file, k) == Some(file[j].1),
    decreases file.len(),
{
    let p = file.drop_last();
    if j < file.len() - 1 {
        assert(file[file.len() - 1].0 != k);
        assert(p[j] == file[j]);
        assert forall|j2: int| j < j2 < p.len() implies #[trigger] p[j2].0 != k by {
            assert(p[j2] == file[j2]);
        }
        lemma_last_value(p, k, j);
    }
}

/// `file[j]` is the first pair of its key, and that key is not in `keys`.
pub open spec fn is_first_new(keys: Seq<Seq<char>>, file: Seq<Pair>, j: int) -> bool {
    &&& 0 <= j < file.len()
    &&& !keys.contains(file[j].0)
    &&& forall|j2: int| 0 <= j2 < j ==> file[j2].0 != file[j].0
}

/// The positions in `file` of the pairs that `appended` keeps, in order.
proof fn appended_indices(keys: Seq<Seq<char>>, file: Seq<Pair>) -> (idx: Seq<int>)
    ensures
        idx.len() == appended(keys, file).len(),
        forall|t: int|
            0 <= t < idx.len() ==> is_first_new(keys, file, #[trigger] idx[t])
                && appended(keys, file)[t] == file[idx[t]],
        forall|t1: int, t2: int| 0 <= t1 < t2 < idx.len() ==> idx[t1] < idx[t2],
        forall|j: int| #[trigger] is_first_new(keys, file, j) ==> idx.contains(j),
    decreases file.len(),
{
    if file.len() == 0 {
        seq![]
    } else {
        let n = file.len();
        let p = file.drop_last();
        let pidx = appended_indices(keys, p);
        let r = appended(keys, p);
        let k = file.last().0;
        assert forall|j: int| 0 <= j < n - 1 implies is_first_new(keys, p, j) == is_first_new(
            keys,
            file,
            j,
        ) by {
            assert(p[j] == file[j]);
            if is_first_new(keys, p, j) {
                assert forall|j2: int| 0 <= j2 < j implies #[trigger] file[j2].0 != file[j].0 by {
                    assert(p[j2] == file[j2]);
                }
            }
            if is_first_new(keys, file, j) {
                assert forall|j2: int| 0 <= j2 < j implies #[trigger] p[j2].0 != p[j].0 by {
                    assert(p[j2] == file[j2]);
                }
            }
        }
        // whether the last pair's key already occurs earlier, first new
        let kept = !keys.contains(k) && !keys_of(r).contains(k);
        if keys_of(r).contains(k) {
            let t = choose|t: int| 0 <= t < keys_of(r).len() && keys_of(r)[t] == k;
            assert(r[t] == p[pidx[t]]);
            assert(file[pidx[t]].0 == k);
        }
        assert(!keys.contains(k) && (exists|j: int| 0 <= j < n - 1 && #[trigger] file[j].0 == k)
            ==> keys_of(r).contains(k)) by {
            if !keys.contains(k) && (exists|j: int| 0 <= j < n - 1 && #[trigger] file[j].0 == k) {
                let j = choose|j: int| 0 <= j < n - 1 && #[trigger] file[j].0 == k;
                assert(keys_of(p)[j] == k);
                lemma_first_index(keys_of(p), k);
                let j0 = first_index(keys_of(p), k);
                assert(p[j0].0 == k);
                assert forall|j2: int| 0 <= j2 < j0 implies p[j2].0 != p[j0].0 by {
                    assert(keys_of(p)[j2] == p[j2].0);
                }
                assert(is_first_new(keys, p, j0));
                let t = choose|t: int| 0 <= t < pidx.len() && pidx[t] == j0;
                assert(keys_of(r)[t] == k);
            }
        }
        if kept {
            let idx = pidx.push(n - 1);
            assert(appended(keys, file) == r.push(file.last()));
            assert forall|j2: int| 0 <= j2 < n - 1 implies #[trigger] file[j2].0 != file[n - 1].0 by {
                if file[j2].0 == k {
                    assert(0 <= j2 < n - 1 && file[j2].0 == k);
                }
            }
            assert(is_first_new(keys, file, n - 1));
            assert forall|t: int| 0 <= t < idx.len() implies is_first_new(keys, file, #[trigger] idx[t])
                && appended(keys, file)[t] == file[idx[t]] by {
                if t < pidx.len() {
                    assert(idx[t] == pidx[t]);
                    assert(r[t] == p[pidx[t]]);
                }
            }
            assert forall|j: int| #[trigger] is_first_new(keys, file, j) implies idx.contains(j) by {
                if j < n - 1 {
                    assert(is_first_new(keys, p, j));
                    let t = choose|t: int| 0 <= t < pidx.len() && pidx[t] == j;
                    assert(idx[t] == j);
                } else {
                    assert(idx[pidx.len() as int] == j);
                }
            }
            idx
        } else {
            assert(appended(keys, file) == r);
            assert forall|t: int| 0 <= t < pidx.len() implies is_first_new(keys, file, #[trigger] pidx[t])
                && appended(keys, file)[t] == file[pidx[t]] by {
                assert(r[t] == p[pidx[t]]);
            }
            assert forall|j: int| #[trigger] is_first_new(keys, file, j) implies pidx.contains(j) by {
                if j < n - 1 {
                    assert(is_first_new(keys, p, j));
                } else {
                    if !keys.contains(k) {
                        let j1 = choose|j1: int| 0 <= j1 < keys_of(r).len() && keys_of(r)[j1] == k;
                        assert(r[j1] == p[pidx[j1]]);
                        assert(file[pidx[j1]].0 == file[j].0);
                    }
                }
            }
            pidx
        }
    }
}

/// The shape of a merge: the process variables first, each with its name and
/// with the file's last value for it when the file sets it; then, once each
/// and in file order, every variable the process does not set, with the
/// value of its first occurrence in the file. So the length is the process
/// length plus the number of new distinct names.
pub proof fn merge_shape(process: Seq<Pair>, file: Seq<Pair>)
    ensures
        forall|i: int|
            0 <= i < process.len() ==> #[trigger] merged(process, file)[i].0 == process[i].0
                && merged(process, file)[i].1 == (match last_value(file, process[i].0) {
                Some(v) => v,
                None => process[i].1,
            }),
        exists|idx: Seq<int>|
            #![trigger idx.len()]
            {
                &&& merged(process, file).len() == process.len() + idx.len()
                &&& forall|t: int|
                    0 <= t < idx.len() ==> is_first_new(keys_of(process), file, #[trigger] idx[t])
                        && merged(process, file)[process.len() + t] == file[idx[t]]
                &&& forall|t1: int, t2: int| 0 <= t1 < t2 < idx.len() ==> idx[t1] < idx[t2]
                &&& forall|j: int| #[trigger] is_first_new(keys_of(process), file, j) ==> idx.contains(j)
            },
{
    let idx = appended_indices(keys_of(process), file);
    let m = merged(process, file);
    assert(m.len() == process.len() + idx.len());
    assert forall|t: int| 0 <= t < idx.len() implies is_first_new(keys_of(process), file, #[trigger] idx[t])
        && m[process.len() + t] == file[idx[t]] by {
        assert(m[process.len() + t] == appended(keys_of(process), file)[t]);
    }
}

/// No pair of `file` has a new key: nothing is appended.
proof fn lemma_appended_covered(keys: Seq<Seq<char>>, file: Seq<Pair>)
    requires
        forall|j: int| 0 <= j < file.len() ==> keys.contains(#[trigger] file[j].0),
    ensures
        appended(keys, file) == Seq::<Pair>::empty(),
    decreases file.len(),
{
    if file.len() > 0 {
        let p = file.drop_last();
        assert forall|j: int| 0 <= j < p.len() implies keys.contains(#[trigger] p[j].0) by {
            assert(p[j] == file[j]);
        }
        lemma_appended_covered(keys, p);
        assert(keys.contains(file[file.len() - 1].0));
    }
}

/// Merging the same file again changes nothing, when the file sets each
/// variable once.
pub proof fn merge_idempotent(process: Seq<Pair>, file: Seq<Pair>)
    requires
        forall|i: int, j: int| 0 <= i < j < file.len() ==> file[i].0 != file[j].0,
    ensures
        merged(merged(process, file), file) == merged(process, file),
{
    let m = merged(process, file);
    let a = appended(keys_of(process), file);
    merge_law(process, file);
    lemma_appended(keys_of(process), file);
    lemma_appended_covered(keys_of(m), file);
    assert forall|i: int| 0 <= i < m.len() implies #[trigger] overridden(m, file)[i] == m[i] by {
        let k = m[i].0;
        if i < process.len() {
            assert(k == process[i].0);
        } else {
            let t = i - process.len();
            assert(m[i] == a[t]);
            assert(file.contains(a[t]));
            let j = choose|j: int| 0 <= j < file.len() && file[j] == a[t];
            assert(file[j].0 == k);
            assert forall|j2: int| j < j2 < file.len() implies #[trigger] file[j2].0 != k by {
                if j2 < j {
                } else {
                    assert(file[j].0 != file[j2].0);
                }
            }
            lemma_last_value(file, k, j);
        }
    }
    assert(overridden(m, file) =~= m);
    assert(merged(m, file) =~= m);
}

} // verus!

verus! {

/// `x` with `op://` in front.
pub open spec fn with_op_prefix(x: Seq<char>) -> Seq<char> {
    seq!['o', 'p', ':', '/', '/'] + x
}

/// A value is a secret reference exactly when its first five characters are
/// `op://`, whatever follows them.
pub proof fn op_ref_is_op_prefix(v: Seq<char>)
    ensures
        is_op_ref(v) <==> (v.len() >= 5 && v[0] == 'o' && v[1] == 'p' && v[2] == ':' && v[3] == '/'
            && v[4] == '/'),
        forall|x: Seq<char>| #[trigger] is_op_ref(with_op_prefix(x)),
{
    if v.len() >= 5 && v[0] == 'o' && v[1] == 'p' && v[2] == ':' && v[3] == '/' && v[4] == '/' {
        assert(v.subrange(0, 5) =~= op_prefix());
    }
    if is_op_ref(v) {
        assert(v.subrange(0, 5)[0] == 'o');
        assert(v.subrange(0, 5)[1] == 'p');
        assert(v.subrange(0, 5)[2] == ':');
        assert(v.subrange(0, 5)[3] == '/');
        assert(v.subrange(0, 5)[4] == '/');
    }
    assert forall|x: Seq<char>| #[trigger] is_op_ref(with_op_prefix(x)) by {
        let w = with_op_prefix(x);
        assert(w.subrange(0, 5) =~= op_prefix());
    }
}

/// Every value that starts with `op://` is among the references collected,
/// and every value that does not start with it is left out.
pub proof fn op_values_are_collected(values: Seq<Seq<char>>)
    ensures
        forall|x: Seq<char>|
            values.contains(#[trigger] with_op_prefix(x)) ==> unique_op_refs(
                values,
            ).contains(with_op_prefix(x)),
        forall|v: Seq<char>|
            #[trigger] unique_op_refs(values).contains(v) ==> v.len() >= 5 && v.subrange(0, 5)
                == seq!['o', 'p', ':', '/', '/'] && values.contains(v),
{
    unique_op_refs_are_exact(values);
    assert forall|x: Seq<char>|
        values.contains(#[trigger] with_op_prefix(x)) implies unique_op_refs(
        values,
    ).contains(with_op_prefix(x)) by {
        op_ref_is_op_prefix(with_op_prefix(x));
    }
    assert forall|v: Seq<char>| #[trigger] unique_op_refs(values).contains(v) implies v.len() >= 5
        && v.subrange(0, 5) == seq!['o', 'p', ':', '/', '/'] && values.contains(v) by {
        let a = choose|a: int| 0 <= a < unique_op_refs(values).len() && unique_op_refs(values)[a] == v;
        assert(is_op_ref(unique_op_refs(values)[a]));
        assert(op_prefix() =~= seq!['o', 'p', ':', '/', '/']);
    }
}

} // verus!
