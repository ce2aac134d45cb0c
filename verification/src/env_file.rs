//! Parsing of `.env`-formatted text into key-value pairs.
//!
//! Supported forms: `KEY=VALUE`, `KEY="VALUE"` and `KEY='VALUE'` (the quotes
//! are stripped); lines that start with `#` are comments; empty lines are
//! ignored. A line that is none of these is an error.

use vstd::prelude::*;
use crate::text::{
    is_space, trim_end, trim_start, lemma_trim_is_run, chars_of, decimal, find_char, index_of_from, lemma_index_of_from_bounds, lemma_index_of_from_is,
    push_decimal, string_of_range, trim, trim_range,
};

verus! {

/// A pair of strings, as the library's contracts see it.
pub type Pair = (Seq<char>, Seq<char>);

/// The views of a sequence of string pairs.
pub open spec fn pairs_view(s: Seq<(String, String)>) -> Seq<Pair> {
    s.map_values(|p: (String, String)| (p.0@, p.1@))
}

/// The lines of `s` from position `from` on: the runs of characters between
/// the `'\n'` separators. They are the lines `str::lines` gives, except that a
/// `'\r'` before a `'\n'` stays and a final empty piece after a last `'\n'` is
/// kept; both vanish once a line is trimmed and empty lines are skipped.
pub open spec fn lines_from(s: Seq<char>, from: int) -> Seq<Seq<char>>
    decreases s.len() - from,
    when 0 <= from <= s.len()
{
    let e = index_of_from(s, '\n', from);
    proof {
        lemma_index_of_from_bounds(s, '\n', from);
    }
    if e >= s.len() {
        seq![s.subrange(from, s.len() as int)]
    } else {
        seq![s.subrange(from, e)] + lines_from(s, e + 1)
    }
}

/// The lines of `s`.
pub open spec fn env_lines(s: Seq<char>) -> Seq<Seq<char>> {
    lines_from(s, 0)
}

/// A trimmed line that carries no entry: empty, or a comment.
pub open spec fn is_skipped(t: Seq<char>) -> bool {
    t.len() == 0 || t[0] == '#'
}

/// `v` without one pair of matching surrounding quotes, `"` or `'`.
pub open spec fn strip_quotes(v: Seq<char>) -> Seq<char> {
    if v.len() >= 2 && ((v[0] == '"' && v.last() == '"') || (v[0] == '\'' && v.last() == '\'')) {
        v.subrange(1, v.len() - 1)
    } else {
        v
    }
}

/// The entry of a trimmed line holding a `'='`: the trimmed text before the
/// first `'='` as key, and the trimmed, unquoted text after it as value.
pub open spec fn entry_of(t: Seq<char>) -> Pair {
    let eq = index_of_from(t, '=', 0);
    (trim(t.subrange(0, eq)), strip_quotes(trim(t.subrange(eq + 1, t.len() as int))))
}

/// What a sequence of lines parses to: the entries of its lines, in order,
/// or, for the first line that is neither skipped nor holds a `'='`, its
/// 1-based number and its trimmed text.
pub open spec fn parse_env_lines(lines: Seq<Seq<char>>) -> Result<Seq<Pair>, (int, Seq<char>)>
    decreases lines.len(),
{
    if lines.len() == 0 {
        Ok(seq![])
    } else {
        match parse_env_lines(lines.drop_last()) {
            Err(e) => Err(e),
            Ok(entries) => {
                let t = trim(lines.last());
                if is_skipped(t) {
                    Ok(entries)
                } else if index_of_from(t, '=', 0) == t.len() {
                    Err((lines.len() as int, t))
                } else {
                    Ok(entries.push(entry_of(t)))
                }
            },
        }
    }
}

/// What `.env` text parses to.
pub open spec fn parse_env(s: Seq<char>) -> Result<Seq<Pair>, (int, Seq<char>)> {
    parse_env_lines(env_lines(s))
}

/// Why `.env` text could not be parsed.
#[derive(Debug, PartialEq, Eq)]
pub enum EnvFileError {
    /// The line with 1-based number `line` is not empty, not a comment and
    /// holds no `'='`; `entry` is its trimmed text.
    Malformed { line: usize, entry: String },
}

/// A name for what `format!("{:?}", s)` writes for a string `s`: the text in
/// double quotes, with quotes, backslashes and non-printable characters escaped.
pub uninterp spec fn debug_quoted(s: Seq<char>) -> Seq<char>;

/// `s` written as Rust's `Debug` for `str` writes it, through `format!`.
#[verifier::external_body]
fn debug_string(s: &str) -> (r: String)
    ensures
        r@ == debug_quoted(s@),
{
    format!("{:?}", s)
}

/// `"malformed env entry on line N: missing '=' in Q"` for the already quoted text `Q`.
pub open spec fn malformed_text(line: nat, quoted: Seq<char>) -> Seq<char> {
    "malformed env entry on line "@ + decimal(line) + ": missing '=' in "@ + quoted
}

/// The message for a malformed line, with the entry as `Debug` writes it.
pub open spec fn malformed_message(line: nat, entry: Seq<char>) -> Seq<char> {
    malformed_text(line, debug_quoted(entry))
}

/// The message for a malformed line, given the entry already quoted.
pub fn format_malformed(line: usize, quoted: &str) -> (m: String)
    ensures
        m@ == malformed_text(line as nat, quoted@),
{
    let mut m = String::from_str("malformed env entry on line ");
    push_decimal(&mut m, line);
    m.append(": missing '=' in ");
    m.append(quoted);
    m
}

impl EnvFileError {
    /// The error's message.
    pub fn message(&self) -> (m: String)
        ensures
            match self {
                EnvFileError::Malformed { line, entry } => m@ == malformed_message(
                    *line as nat,
                    entry@,
                ),
            },
    {
        match self {
            EnvFileError::Malformed { line, entry } => {
                let q = debug_string(entry.as_str());
                format_malformed(*line, q.as_str())
            },
        }
    }
}

/// The bounds of `cs[lo..hi]` without one pair of matching surrounding quotes.
fn strip_quotes_range(cs: &Vec<char>, lo: usize, hi: usize) -> (r: (usize, usize))
    requires
        lo <= hi <= cs@.len(),
    ensures
        lo <= r.0 <= r.1 <= hi,
        cs@.subrange(r.0 as int, r.1 as int) == strip_quotes(cs@.subrange(lo as int, hi as int)),
{
    let ghost v = cs@.subrange(lo as int, hi as int);
    if hi - lo >= 2 && ((cs[lo] == '"' && cs[hi - 1] == '"') || (cs[lo] == '\'' && cs[hi - 1]
        == '\'')) {
        assert(v[0] == cs@[lo as int] && v.last() == cs@[hi - 1]);
        assert(cs@.subrange(lo + 1, hi - 1) == v.subrange(1, v.len() - 1));
        (lo + 1, hi - 1)
    } else {
        (lo, hi)
    }
}

/// One step of the line fold: the parse of `lines.push(l)` from the parse of `lines`.
proof fn lemma_parse_step(lines: Seq<Seq<char>>, l: Seq<char>)
    ensures
        parse_env_lines(lines.push(l)) == (match parse_env_lines(lines) {
            Err(e) => Err(e),
            Ok(entries) => {
                let t = trim(l);
                if is_skipped(t) {
                    Ok(entries)
                } else if index_of_from(t, '=', 0) == t.len() {
                    Err(((lines.len() + 1) as int, t))
                } else {
                    Ok(entries.push(entry_of(t)))
                }
            },
        }),
{
    assert(lines.push(l).drop_last() == lines);
}

/// Once the fold has failed, further lines keep the same error.
proof fn lemma_parse_error_sticks(lines: Seq<Seq<char>>, rest: Seq<Seq<char>>)
    requires
        parse_env_lines(lines) is Err,
    ensures
        parse_env_lines(lines + rest) == parse_env_lines(lines),
    decreases rest.len(),
{
    if rest.len() > 0 {
        lemma_parse_error_sticks(lines, rest.drop_last());
        assert((lines + rest).drop_last() == lines + rest.drop_last());
    } else {
        assert(lines + rest == lines);
    }
}

/// Parses `.env`-formatted content into key-value pairs, in the order of
/// their lines.
pub fn parse_env_contents(contents: &str) -> (r: Result<Vec<(String, String)>, EnvFileError>)
    ensures
        match r {
            Ok(entries) => parse_env(contents@) == Ok::<Seq<Pair>, (int, Seq<char>)>(
                pairs_view(entries@),
            ),
            Err(EnvFileError::Malformed { line, entry }) => parse_env(contents@) == Err::<
                Seq<Pair>,
                (int, Seq<char>),
            >((line as int, entry@)),
        },
{
    let cs = chars_of(contents);
    let n = cs.len();
    let ghost s = cs@;
    let mut entries: Vec<(String, String)> = Vec::new();
    let mut start: usize = 0;
    let mut count: usize = 0;
    let ghost mut done: Seq<Seq<char>> = seq![];
    assert(pairs_view(entries@) =~= seq![]);
    assert(env_lines(s) == done + lines_from(s, 0)) by {
        assert(done + lines_from(s, 0) =~= lines_from(s, 0));
    };
    loop
        invariant
            s == cs@,
            s == contents@,
            n == s.len(),
            start <= n,
            count == done.len(),
            count <= start,
            env_lines(s) == done + lines_from(s, start as int),
            parse_env_lines(done) == Ok::<Seq<Pair>, (int, Seq<char>)>(pairs_view(entries@)),
        decreases n - start,
    {
        let end = find_char(&cs, '\n', start, n);
        proof {
            lemma_index_of_from_is(s, '\n', start as int, end as int);
        }
        let ghost line = s.subrange(start as int, end as int);
        let ghost rest = if end < n {
            lines_from(s, end + 1)
        } else {
            Seq::<Seq<char>>::empty()
        };
        assert(lines_from(s, start as int) == seq![line] + rest);
        proof {
            lemma_parse_step(done, line);
            assert(done + lines_from(s, start as int) == done.push(line) + rest);
        }
        let (a, b) = trim_range(&cs, start, end);
        let ghost t = s.subrange(a as int, b as int);
        assert(t == trim(line));
        if a < b && cs[a] != '#' {
            let eq = find_char(&cs, '=', a, b);
            proof {
                lemma_index_of_from_is(t, '=', 0, eq - a);
            }
            if eq == b {
                let entry = string_of_range(&cs, a, b);
                proof {
                    lemma_parse_error_sticks(done.push(line), rest);
                }
                return Err(EnvFileError::Malformed { line: count + 1, entry });
            }
            let (ka, kb) = trim_range(&cs, a, eq);
            let (va, vb) = trim_range(&cs, eq + 1, b);
            let (qa, qb) = strip_quotes_range(&cs, va, vb);
            assert(t.subrange(0, eq - a) == s.subrange(a as int, eq as int));
            assert(t.subrange(eq - a + 1, t.len() as int) == s.subrange(eq + 1, b as int));
            let key = string_of_range(&cs, ka, kb);
            let value = string_of_range(&cs, qa, qb);
            let ghost before = entries@;
            let ghost kv = (key@, value@);
            entries.push((key, value));
            assert(pairs_view(entries@) =~= pairs_view(before).push(kv));
        }
        proof {
            done = done.push(line);
        }
        if end == n {
            assert(rest.len() == 0);
            assert(done + rest == done);
            return Ok(entries);
        }
        count = count + 1;
        start = end + 1;
    }
}

/// Every key that parsing gives holds no `'='`: a key is the text before
/// the first `'='` of its line, so any `'='` belongs to the value.
pub proof fn parsed_keys_hold_no_equals(lines: Seq<Seq<char>>)
    ensures
        parse_env_lines(lines) matches Ok(entries) ==> forall|i: int, j: int|
            0 <= i < entries.len() && 0 <= j < entries[i].0.len() ==> #[trigger] entries[i].0[j]
                != '=',
    decreases lines.len(),
{
    if lines.len() > 0 {
        parsed_keys_hold_no_equals(lines.drop_last());
        let t = trim(lines.last());
        if let Ok(entries) = parse_env_lines(lines) {
            if !is_skipped(t) && index_of_from(t, '=', 0) != t.len() {
                let eq = index_of_from(t, '=', 0);
                lemma_index_of_from_bounds(t, '=', 0);
                let before = t.subrange(0, eq);
                lemma_trim_is_run(before);
                let key = trim(before);
                let k = choose|k: int|
                    0 <= k && k + key.len() <= before.len() && key == #[trigger] before.subrange(
                        k,
                        k + key.len(),
                    );
                assert forall|j: int| 0 <= j < key.len() implies key[j] != '=' by {
                    assert(key[j] == before[k + j]);
                    assert(before[k + j] == t[k + j]);
                }
                let prev = parse_env_lines(lines.drop_last())->Ok_0;
                assert(entries == prev.push(entry_of(t)));
                assert forall|i: int, j: int|
                    0 <= i < entries.len() && 0 <= j < entries[i].0.len() implies #[trigger] entries[i].0[j]
                    != '=' by {
                    if i < prev.len() {
                        assert(entries[i] == prev[i]);
                    } else {
                        assert(entries[i].0 == key);
                    }
                }
            }
        }
    }
}

/// Searching after a prefix is searching the rest, shifted by the prefix's length.
proof fn lemma_index_of_from_shift(pre: Seq<char>, b: Seq<char>, c: char, k: int)
    requires
        0 <= k <= b.len(),
    ensures
        index_of_from(pre + b, c, pre.len() + k) == pre.len() + index_of_from(b, c, k),
{
    let s = pre + b;
    lemma_index_of_from_bounds(b, c, k);
    let e = index_of_from(b, c, k);
    assert forall|j: int| pre.len() + k <= j < pre.len() + e implies s[j] != c by {
        assert(s[j] == b[j - pre.len()]);
    }
    if e < b.len() {
        assert(s[pre.len() + e] == b[e]);
    }
    lemma_index_of_from_is(s, c, pre.len() + k, pre.len() + e);
}

/// The lines of `pre + b` after the prefix are the lines of `b`.
proof fn lemma_lines_shift(pre: Seq<char>, b: Seq<char>, k: int)
    requires
        0 <= k <= b.len(),
    ensures
        lines_from(pre + b, pre.len() + k) == lines_from(b, k),
    decreases b.len() - k,
{
    let s = pre + b;
    lemma_index_of_from_shift(pre, b, '\n', k);
    lemma_index_of_from_bounds(b, '\n', k);
    let e = index_of_from(b, '\n', k);
    if e >= b.len() {
        assert(s.subrange(pre.len() + k, s.len() as int) =~= b.subrange(k, b.len() as int));
    } else {
        assert(s.subrange(pre.len() + k, pre.len() + e) =~= b.subrange(k, e));
        lemma_lines_shift(pre, b, e + 1);
        assert(pre.len() + e + 1 == pre.len() + (e + 1));
    }
}

/// The lines of `a`, a newline and `b` are the lines of `a` followed by those of `b`.
proof fn lemma_lines_concat(a: Seq<char>, b: Seq<char>, from: int)
    requires
        0 <= from <= a.len(),
    ensures
        lines_from(a + seq!['\n'] + b, from) == lines_from(a, from) + lines_from(b, 0),
    decreases a.len() - from,
{
    let s = a + seq!['\n'] + b;
    lemma_index_of_from_bounds(a, '\n', from);
    let e = index_of_from(a, '\n', from);
    assert forall|j: int| from <= j < e implies s[j] != '\n' by {
        assert(s[j] == a[j]);
    }
    if e < a.len() {
        assert(s[e] == a[e]);
        lemma_index_of_from_is(s, '\n', from, e);
        assert(s.subrange(from, e) =~= a.subrange(from, e));
        lemma_lines_concat(a, b, e + 1);
        assert(lines_from(s, from) =~= lines_from(a, from) + lines_from(b, 0));
    } else {
        assert(s[a.len() as int] == '\n');
        lemma_index_of_from_is(s, '\n', from, a.len() as int);
        assert(s.subrange(from, a.len() as int) =~= a.subrange(from, a.len() as int));
        assert(s == (a + seq!['\n']) + b);
        lemma_lines_shift(a + seq!['\n'], b, 0);
        assert(lines_from(s, from) =~= lines_from(a, from) + lines_from(b, 0));
    }
}

/// Parsing two runs of lines that each parse gives their entries, in order.
proof fn lemma_parse_lines_concat(l1: Seq<Seq<char>>, l2: Seq<Seq<char>>)
    requires
        parse_env_lines(l1) is Ok,
        parse_env_lines(l2) is Ok,
    ensures
        parse_env_lines(l1 + l2) == Ok::<Seq<Pair>, (int, Seq<char>)>(
            parse_env_lines(l1)->Ok_0 + parse_env_lines(l2)->Ok_0,
        ),
    decreases l2.len(),
{
    if l2.len() == 0 {
        assert(l1 + l2 == l1);
        assert(parse_env_lines(l2)->Ok_0 =~= Seq::<Pair>::empty());
        assert(parse_env_lines(l1)->Ok_0 + parse_env_lines(l2)->Ok_0 =~= parse_env_lines(l1)->Ok_0);
    } else {
        let d2 = l2.drop_last();
        assert(parse_env_lines(d2) is Ok);
        lemma_parse_lines_concat(l1, d2);
        assert((l1 + l2).drop_last() == l1 + d2);
        assert((l1 + l2).last() == l2.last());
        let x = parse_env_lines(l1)->Ok_0;
        let y2 = parse_env_lines(d2)->Ok_0;
        let t = trim(l2.last());
        if !is_skipped(t) && index_of_from(t, '=', 0) != t.len() {
            assert((x + y2).push(entry_of(t)) =~= x + y2.push(entry_of(t)));
        }
    }
}

/// Two `.env` texts that each parse, joined by a newline, parse to the
/// entries of the first followed by those of the second.
pub proof fn parse_concat(a: Seq<char>, b: Seq<char>)
    requires
        parse_env(a) is Ok,
        parse_env(b) is Ok,
    ensures
        parse_env(a + seq!['\n'] + b) == Ok::<Seq<Pair>, (int, Seq<char>)>(
            parse_env(a)->Ok_0 + parse_env(b)->Ok_0,
        ),
{
    lemma_lines_concat(a, b, 0);
    lemma_parse_lines_concat(env_lines(a), env_lines(b));
}

/// Text that trimming leaves as it is: empty, or without whitespace at
/// either end.
pub open spec fn is_trimmed(s: Seq<char>) -> bool {
    s.len() > 0 ==> !is_space(s[0]) && !is_space(s[s.len() - 1])
}

proof fn lemma_trim_of_trimmed(s: Seq<char>)
    requires
        is_trimmed(s),
    ensures
        trim(s) == s,
{
    if s.len() > 0 {
        assert(trim_end(s) == s);
        assert(trim_start(s) == s);
    } else {
        assert(trim_end(s) == s);
    }
}

/// A one-line entry `KEY=VALUE` parses to that key and the whole value,
/// whatever characters the value holds (`#` and `=` among them), when the
/// key is a plain name and the value is already trimmed and not quoted.
pub proof fn single_entry_parses_to_its_value(k: Seq<char>, v: Seq<char>)
    requires
        k.len() > 0,
        k[0] != '#',
        is_trimmed(k),
        forall|i: int| 0 <= i < k.len() ==> k[i] != '=' && k[i] != '\n',
        forall|i: int| 0 <= i < v.len() ==> v[i] != '\n',
        is_trimmed(v),
        !(v.len() >= 2 && ((v[0] == '"' && v[v.len() - 1] == '"') || (v[0] == '\'' && v[v.len() - 1]
            == '\''))),
    ensures
        parse_env(k + seq!['='] + v) == Ok::<Seq<Pair>, (int, Seq<char>)>(seq![(k, v)]),
{
    let line = k + seq!['='] + v;
    assert forall|i: int| 0 <= i < line.len() implies line[i] != '\n' by {
        if i < k.len() {
            assert(line[i] == k[i]);
        } else if i > k.len() {
            assert(line[i] == v[i - k.len() - 1]);
        }
    }
    lemma_index_of_from_is(line, '\n', 0, line.len() as int);
    assert(line.subrange(0, line.len() as int) =~= line);
    assert(env_lines(line) =~= seq![line]);
    assert(line[0] == k[0]);
    if v.len() > 0 {
        assert(line[line.len() - 1] == v[v.len() - 1]);
    } else {
        assert(line[line.len() - 1] == '=');
    }
    lemma_trim_of_trimmed(line);
    assert forall|i: int| 0 <= i < k.len() implies line[i] != '=' by {
        assert(line[i] == k[i]);
    }
    lemma_index_of_from_is(line, '=', 0, k.len() as int);
    assert(line.subrange(0, k.len() as int) =~= k);
    assert(line.subrange(k.len() + 1int, line.len() as int) =~= v);
    lemma_trim_of_trimmed(k);
    lemma_trim_of_trimmed(v);
    assert(seq![line].drop_last() =~= Seq::<Seq<char>>::empty());
    assert(seq![line].last() == line);
    assert(entry_of(line) == (k, v));
    assert(Seq::<Pair>::empty().push((k, v)) =~= seq![(k, v)]);
    assert(parse_env_lines(Seq::<Seq<char>>::empty()) == Ok::<Seq<Pair>, (int, Seq<char>)>(
        seq![],
    ));
    assert(!is_skipped(trim(line)));
    assert(index_of_from(trim(line), '=', 0) != trim(line).len());
    assert(parse_env_lines(seq![line]) == Ok::<Seq<Pair>, (int, Seq<char>)>(
        Seq::<Pair>::empty().push(entry_of(line)),
    ));
}

/// A one-line entry with a double-quoted value parses to exactly the text
/// between the quotes, inner spaces, `#` and `=` included.
pub proof fn quoted_entry_parses_to_its_value(k: Seq<char>, v: Seq<char>)
    requires
        k.len() > 0,
        k[0] != '#',
        is_trimmed(k),
        forall|i: int| 0 <= i < k.len() ==> k[i] != '=' && k[i] != '\n',
        forall|i: int| 0 <= i < v.len() ==> v[i] != '\n',
    ensures
        parse_env(k + seq!['='] + (seq!['"'] + v + seq!['"'])) == Ok::<Seq<Pair>, (int, Seq<char>)>(
            seq![(k, v)],
        ),
{
    let q = seq!['"'] + v + seq!['"'];
    let line = k + seq!['='] + q;
    assert forall|i: int| 0 <= i < line.len() implies line[i] != '\n' by {
        if i < k.len() {
            assert(line[i] == k[i]);
        } else if i > k.len() + 1 && i < line.len() - 1 {
            assert(line[i] == v[i - k.len() - 2]);
        }
    }
    lemma_index_of_from_is(line, '\n', 0, line.len() as int);
    assert(line.subrange(0, line.len() as int) =~= line);
    assert(env_lines(line) =~= seq![line]);
    assert(line[0] == k[0]);
    assert(line[line.len() - 1] == '"');
    lemma_trim_of_trimmed(line);
    assert forall|i: int| 0 <= i < k.len() implies line[i] != '=' by {
        assert(line[i] == k[i]);
    }
    lemma_index_of_from_is(line, '=', 0, k.len() as int);
    assert(line.subrange(0, k.len() as int) =~= k);
    assert(line.subrange(k.len() + 1int, line.len() as int) =~= q);
    lemma_trim_of_trimmed(k);
    assert(q[0] == '"' && q[q.len() - 1] == '"');
    lemma_trim_of_trimmed(q);
    assert(q.subrange(1, q.len() - 1) =~= v);
    assert(strip_quotes(q) == v);
    assert(seq![line].drop_last() =~= Seq::<Seq<char>>::empty());
    assert(seq![line].last() == line);
    assert(entry_of(line) == (k, v));
    assert(Seq::<Pair>::empty().push((k, v)) =~= seq![(k, v)]);
    assert(parse_env_lines(Seq::<Seq<char>>::empty()) == Ok::<Seq<Pair>, (int, Seq<char>)>(
        seq![],
    ));
    assert(!is_skipped(trim(line)));
    assert(index_of_from(trim(line), '=', 0) != trim(line).len());
    assert(parse_env_lines(seq![line]) == Ok::<Seq<Pair>, (int, Seq<char>)>(
        Seq::<Pair>::empty().push(entry_of(line)),
    ));
}

} // verus!
