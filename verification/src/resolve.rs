//! The decisions of resolving references through the cache: each reference
//! is first looked up in the cache; the ones it does not hold are resolved
//! together in a single `op inject` call, and the results join the ones
//! the cache served. The lookups and the `op inject` call themselves are
//! made by the caller, which hands their results in.

use vstd::prelude::*;
use crate::env_file::pairs_view;
use crate::inject::{
    all_distinct, lemma_inject_map_exact, build_inject_template, inject_map, inject_template, parse_inject_output, split_on, strs_view,
    InjectError,
};
use crate::secret_map::{SecretMap, map_of};
use crate::text::trim_end;

verus! {

broadcast use vstd::string::group_string_axioms;

/// The views of a sequence of strings.
pub open spec fn strings_view(s: Seq<String>) -> Seq<Seq<char>> {
    s.map_values(|x: String| x@)
}

/// Every reference of `refs` is a key of `inject_map(refs, values)`.
pub proof fn lemma_inject_map_covers(refs: Seq<Seq<char>>, values: Seq<Seq<char>>)
    ensures
        forall|i: int| 0 <= i < refs.len() ==> inject_map(refs, values).contains_key(#[trigger] refs[i]),
    decreases refs.len(),
{
    if refs.len() > 0 {
        lemma_inject_map_covers(refs.drop_last(), values);
        assert forall|i: int| 0 <= i < refs.len() implies inject_map(refs, values).contains_key(
            #[trigger] refs[i],
        ) by {
            if i < refs.len() - 1 {
                assert(refs.drop_last()[i] == refs[i]);
            }
        }
    }
}

/// The state of a resolution as the contracts see it: the values found so
/// far, and the references still missing.
pub type ResolutionView = (Map<Seq<char>, Seq<char>>, Seq<Seq<char>>);

/// One cache answer taken in: a hit is resolved, a miss is queued.
pub open spec fn lookup_step(st: ResolutionView, reference: Seq<char>, cached: Option<Seq<char>>) -> ResolutionView {
    match cached {
        Some(v) => (st.0.insert(reference, v), st.1),
        None => (st.0, st.1.push(reference)),
    }
}

/// The state after the cache's answers for `refs`, taken in from the first on.
pub open spec fn lookups(refs: Seq<Seq<char>>, answers: Seq<Option<Seq<char>>>) -> ResolutionView
    decreases refs.len(),
{
    if refs.len() == 0 {
        (Map::empty(), seq![])
    } else {
        lookup_step(lookups(refs.drop_last(), answers), refs.last(), answers[refs.len() - 1])
    }
}

/// After the cache has answered for every reference, each reference is
/// either resolved or queued for `op inject`, and only references the cache
/// missed are queued.
pub proof fn lookups_sort_every_reference(refs: Seq<Seq<char>>, answers: Seq<Option<Seq<char>>>)
    requires
        answers.len() == refs.len(),
    ensures
        forall|i: int|
            0 <= i < refs.len() ==> lookups(refs, answers).0.contains_key(#[trigger] refs[i])
                || lookups(refs, answers).1.contains(refs[i]),
        forall|i: int|
            0 <= i < refs.len() && answers[i] is Some ==> lookups(refs, answers).0.contains_key(
                #[trigger] refs[i],
            ),
        forall|j: int|
            0 <= j < lookups(refs, answers).1.len() ==> exists|i: int|
                0 <= i < refs.len() && refs[i] == #[trigger] lookups(refs, answers).1[j]
                    && answers[i] is None,
    decreases refs.len(),
{
    if refs.len() > 0 {
        let n = refs.len();
        let pr = refs.drop_last();
        let pa = answers.drop_last();
        lookups_sort_every_reference(pr, pa);
        lemma_lookups_prefix(pr, answers, pa);
        let prev = lookups(pr, pa);
        let cur = lookups(refs, answers);
        assert forall|i: int| 0 <= i < n implies cur.0.contains_key(#[trigger] refs[i])
            || cur.1.contains(refs[i]) by {
            if i < n - 1 {
                assert(pr[i] == refs[i]);
                if prev.1.contains(refs[i]) {
                    let k = choose|k: int| 0 <= k < prev.1.len() && prev.1[k] == refs[i];
                    assert(cur.1[k] == refs[i]);
                }
            } else {
                if answers[i] is None {
                    assert(cur.1[prev.1.len() as int] == refs[i]);
                }
            }
        }
        assert forall|i: int| 0 <= i < n && answers[i] is Some implies cur.0.contains_key(
            #[trigger] refs[i],
        ) by {
            if i < n - 1 {
                assert(pr[i] == refs[i]);
                assert(pa[i] == answers[i]);
            }
        }
        assert forall|j: int| 0 <= j < cur.1.len() implies exists|i: int|
            0 <= i < refs.len() && refs[i] == #[trigger] cur.1[j] && answers[i] is None by {
            if j < prev.1.len() {
                let i = choose|i: int|
                    0 <= i < pr.len() && pr[i] == #[trigger] prev.1[j] && pa[i] is None;
                assert(refs[i] == cur.1[j] && answers[i] is None);
            } else {
                assert(refs[n - 1] == cur.1[j]);
            }
        }
    }
}

/// `lookups` reads only as many answers as there are references.
proof fn lemma_lookups_prefix(
    refs: Seq<Seq<char>>,
    answers: Seq<Option<Seq<char>>>,
    fewer: Seq<Option<Seq<char>>>,
)
    requires
        refs.len() <= fewer.len() <= answers.len(),
        forall|i: int| 0 <= i < fewer.len() ==> fewer[i] == answers[i],
    ensures
        lookups(refs, answers) == lookups(refs, fewer),
    decreases refs.len(),
{
    if refs.len() > 0 {
        lemma_lookups_prefix(refs.drop_last(), answers, fewer);
    }
}

/// Every reference ends up resolved: once the cache has answered for each
/// one and the single `op inject` answer splits into as many values as
/// references were missing, the values found cover all the references.
pub proof fn resolution_covers_every_reference(
    refs: Seq<Seq<char>>,
    answers: Seq<Option<Seq<char>>>,
    output: Seq<char>,
    delimiter: Seq<char>,
)
    requires
        answers.len() == refs.len(),
        split_on(output, delimiter).len() == lookups(refs, answers).1.len(),
    ensures
        forall|i: int|
            0 <= i < refs.len() ==> lookups(refs, answers).0.union_prefer_right(
                inject_map(lookups(refs, answers).1, split_on(output, delimiter)),
            ).contains_key(#[trigger] refs[i]),
{
    let st = lookups(refs, answers);
    let fetched = inject_map(st.1, split_on(output, delimiter));
    lookups_sort_every_reference(refs, answers);
    lemma_inject_map_covers(st.1, split_on(output, delimiter));
    assert forall|i: int| 0 <= i < refs.len() implies st.0.union_prefer_right(fetched).contains_key(
        #[trigger] refs[i],
    ) by {
        if !st.0.contains_key(refs[i]) {
            let k = choose|k: int| 0 <= k < st.1.len() && st.1[k] == refs[i];
            assert(fetched.contains_key(st.1[k]));
        }
    }
}

/// The references the cache missed, in lookup order.
pub open spec fn missed(refs: Seq<Seq<char>>, answers: Seq<Option<Seq<char>>>) -> Seq<Seq<char>>
    decreases refs.len(),
{
    if refs.len() == 0 {
        seq![]
    } else if answers[refs.len() - 1] is None {
        missed(refs.drop_last(), answers).push(refs.last())
    } else {
        missed(refs.drop_last(), answers)
    }
}

/// The map a whole resolution gives: the cache's values, joined by the
/// values that the single `op inject` answer gives for the misses.
pub open spec fn resolution_result(
    refs: Seq<Seq<char>>,
    answers: Seq<Option<Seq<char>>>,
    output: Seq<char>,
    delimiter: Seq<char>,
) -> Map<Seq<char>, Seq<char>> {
    lookups(refs, answers).0.union_prefer_right(
        inject_map(lookups(refs, answers).1, split_on(output, delimiter)),
    )
}

/// The queue for `op inject` is exactly the references the cache missed, in
/// lookup order; so an `op inject` is needed exactly when some lookup missed.
pub proof fn queue_is_the_misses(refs: Seq<Seq<char>>, answers: Seq<Option<Seq<char>>>)
    requires
        answers.len() == refs.len(),
    ensures
        lookups(refs, answers).1 == missed(refs, answers),
        lookups(refs, answers).1.len() > 0 <==> exists|i: int|
            0 <= i < refs.len() && #[trigger] answers[i] is None,
    decreases refs.len(),
{
    if refs.len() > 0 {
        let pa = answers.drop_last();
        queue_is_the_misses(refs.drop_last(), pa);
        lemma_lookups_prefix(refs.drop_last(), answers, pa);
        lemma_missed_prefix(refs.drop_last(), answers, pa);
        if exists|i: int| 0 <= i < refs.len() && #[trigger] answers[i] is None {
            let i = choose|i: int| 0 <= i < refs.len() && #[trigger] answers[i] is None;
            if i < refs.len() - 1 {
                assert(pa[i] is None);
            }
        }
        if exists|i: int| 0 <= i < refs.len() - 1 && #[trigger] pa[i] is None {
            let i = choose|i: int| 0 <= i < refs.len() - 1 && #[trigger] pa[i] is None;
            assert(answers[i] is None);
        }
    }
}

/// `missed` reads only as many answers as there are references.
proof fn lemma_missed_prefix(
    refs: Seq<Seq<char>>,
    answers: Seq<Option<Seq<char>>>,
    fewer: Seq<Option<Seq<char>>>,
)
    requires
        refs.len() <= fewer.len() <= answers.len(),
        forall|i: int| 0 <= i < fewer.len() ==> fewer[i] == answers[i],
    ensures
        missed(refs, answers) == missed(refs, fewer),
    decreases refs.len(),
{
    if refs.len() > 0 {
        lemma_missed_prefix(refs.drop_last(), answers, fewer);
    }
}

/// `x` is one of the references that the cache missed.
pub open spec fn was_missed(refs: Seq<Seq<char>>, answers: Seq<Option<Seq<char>>>, x: Seq<char>) -> bool {
    exists|i: int| 0 <= i < refs.len() && refs[i] == x && answers[i] is None
}

/// Every queued reference is one the cache missed.
proof fn lemma_missed_origin_at(refs: Seq<Seq<char>>, answers: Seq<Option<Seq<char>>>, j: int)
    requires
        answers.len() >= refs.len(),
        0 <= j < missed(refs, answers).len(),
    ensures
        was_missed(refs, answers, missed(refs, answers)[j]),
    decreases refs.len(),
{
    let n = refs.len();
    let dl = refs.drop_last();
    let pq = missed(dl, answers);
    if j < pq.len() {
        lemma_missed_origin_at(dl, answers, j);
        let i = choose|i: int| 0 <= i < dl.len() && dl[i] == pq[j] && answers[i] is None;
        assert(refs[i] == missed(refs, answers)[j]);
    } else {
        assert(refs[n - 1] == missed(refs, answers)[j]);
    }
}

/// Every queued reference is one the cache missed.
proof fn lemma_missed_origin(refs: Seq<Seq<char>>, answers: Seq<Option<Seq<char>>>)
    requires
        answers.len() >= refs.len(),
    ensures
        forall|j: int|
            0 <= j < missed(refs, answers).len() ==> was_missed(
                refs,
                answers,
                #[trigger] missed(refs, answers)[j],
            ),
{
    assert forall|j: int| 0 <= j < missed(refs, answers).len() implies was_missed(
        refs,
        answers,
        #[trigger] missed(refs, answers)[j],
    ) by {
        lemma_missed_origin_at(refs, answers, j);
    }
}

/// A missed reference sits in the queue at the number of misses before it.
proof fn lemma_missed_position_at(refs: Seq<Seq<char>>, answers: Seq<Option<Seq<char>>>, i: int)
    requires
        answers.len() >= refs.len(),
        0 <= i < refs.len(),
        answers[i] is None,
    ensures
        missed(refs.take(i), answers).len() < missed(refs, answers).len(),
        missed(refs, answers)[missed(refs.take(i), answers).len() as int] == refs[i],
    decreases refs.len(),
{
    let n = refs.len();
    let dl = refs.drop_last();
    if i < n - 1 {
        lemma_missed_position_at(dl, answers, i);
        assert(refs.take(i) == dl.take(i));
        assert(dl[i] == refs[i]);
    } else {
        assert(refs.take(i) == dl);
    }
}

/// Distinct references are queued distinctly.
proof fn lemma_missed_distinct(refs: Seq<Seq<char>>, answers: Seq<Option<Seq<char>>>)
    requires
        answers.len() >= refs.len(),
        all_distinct(refs),
    ensures
        all_distinct(missed(refs, answers)),
    decreases refs.len(),
{
    if refs.len() > 0 {
        let n = refs.len();
        let dl = refs.drop_last();
        assert(all_distinct(dl));
        lemma_missed_distinct(dl, answers);
        lemma_missed_origin(dl, answers);
        let q = missed(refs, answers);
        let pq = missed(dl, answers);
        assert forall|a: int, b: int| 0 <= a < b < q.len() implies q[a] != q[b] by {
            if b == pq.len() {
                assert(was_missed(dl, answers, pq[a]));
                let i = choose|i: int| 0 <= i < dl.len() && dl[i] == pq[a] && answers[i] is None;
                assert(refs[i] == q[a]);
                assert(q[b] == refs[n - 1]);
            }
        }
    }
}

/// With distinct references, the cache's values map each hit to its value
/// and hold no other key.
proof fn lemma_hits(refs: Seq<Seq<char>>, answers: Seq<Option<Seq<char>>>)
    requires
        answers.len() >= refs.len(),
        all_distinct(refs),
    ensures
        forall|i: int|
            0 <= i < refs.len() && answers[i] is Some ==> lookups(refs, answers).0.contains_key(
                #[trigger] refs[i],
            ) && lookups(refs, answers).0[refs[i]] == answers[i]->Some_0,
        forall|k: Seq<char>|
            #[trigger] lookups(refs, answers).0.contains_key(k) ==> exists|i: int|
                0 <= i < refs.len() && refs[i] == k && answers[i] is Some,
    decreases refs.len(),
{
    if refs.len() > 0 {
        let n = refs.len();
        let dl = refs.drop_last();
        assert(all_distinct(dl));
        lemma_hits(dl, answers);
        let m = lookups(refs, answers).0;
        let pm = lookups(dl, answers).0;
        assert forall|i: int|
            0 <= i < refs.len() && answers[i] is Some implies m.contains_key(#[trigger] refs[i])
            && m[refs[i]] == answers[i]->Some_0 by {
            if i < n - 1 {
                assert(dl[i] == refs[i]);
                assert(refs[i] != refs[n - 1]);
            }
        }
        assert forall|k: Seq<char>| #[trigger] m.contains_key(k) implies exists|i: int|
            0 <= i < refs.len() && refs[i] == k && answers[i] is Some by {
            if k != refs[n - 1] || answers[n - 1] is None {
                if k == refs[n - 1] {
                    assert(pm.contains_key(k));
                }
                let i = choose|i: int| 0 <= i < dl.len() && dl[i] == k && answers[i] is Some;
                assert(refs[i] == k);
            }
        }
    }
}

/// The result of a whole resolution of distinct references, once the cache
/// has answered for each and the single `op inject` answer splits into as
/// many pieces as there were misses: its keys are exactly the references; a
/// reference the cache held maps to the cached value; a missed reference
/// maps to the inject piece at its place in the queue (the number of misses
/// before it), without trailing whitespace.
pub proof fn resolution_gives_each_reference_its_value(
    refs: Seq<Seq<char>>,
    answers: Seq<Option<Seq<char>>>,
    output: Seq<char>,
    delimiter: Seq<char>,
)
    requires
        answers.len() == refs.len(),
        all_distinct(refs),
        split_on(output, delimiter).len() == missed(refs, answers).len(),
    ensures
        forall|k: Seq<char>|
            #[trigger] resolution_result(refs, answers, output, delimiter).contains_key(k)
                <==> refs.contains(k),
        forall|i: int|
            0 <= i < refs.len() && answers[i] is Some ==> resolution_result(
                refs,
                answers,
                output,
                delimiter,
            )[#[trigger] refs[i]] == answers[i]->Some_0,
        forall|i: int|
            0 <= i < refs.len() && answers[i] is None ==> resolution_result(
                refs,
                answers,
                output,
                delimiter,
            )[#[trigger] refs[i]] == trim_end(
                split_on(output, delimiter)[missed(refs.take(i), answers).len() as int],
            ),
{
    let pieces = split_on(output, delimiter);
    let st = lookups(refs, answers);
    let q = missed(refs, answers);
    let fetched = inject_map(st.1, pieces);
    let res = resolution_result(refs, answers, output, delimiter);
    queue_is_the_misses(refs, answers);
    lemma_missed_origin(refs, answers);
    lemma_missed_distinct(refs, answers);
    lemma_hits(refs, answers);
    lemma_inject_map_exact(q, pieces);
    assert forall|k: Seq<char>| #[trigger] res.contains_key(k) <==> refs.contains(k) by {
        if res.contains_key(k) {
            if st.0.contains_key(k) {
                let i = choose|i: int| 0 <= i < refs.len() && refs[i] == k && answers[i] is Some;
            } else {
                assert(fetched.contains_key(k));
                let j = choose|j: int| 0 <= j < q.len() && q[j] == k;
                assert(was_missed(refs, answers, q[j]));
                let i = choose|i: int| 0 <= i < refs.len() && refs[i] == q[j] && answers[i] is None;
            }
        }
        if refs.contains(k) {
            let i = choose|i: int| 0 <= i < refs.len() && refs[i] == k;
            if answers[i] is Some {
                assert(st.0.contains_key(refs[i]));
            } else {
                lemma_missed_position_at(refs, answers, i);
                let p = missed(refs.take(i), answers).len() as int;
                assert(q[p] == refs[i]);
                assert(fetched.contains_key(q[p]));
            }
        }
    }
    assert forall|i: int| 0 <= i < refs.len() && answers[i] is Some implies res[
        #[trigger] refs[i]] == answers[i]->Some_0 by {
        assert(st.0.contains_key(refs[i]));
        if fetched.contains_key(refs[i]) {
            let j = choose|j: int| 0 <= j < q.len() && q[j] == refs[i];
            assert(was_missed(refs, answers, q[j]));
            let i2 = choose|i2: int| 0 <= i2 < refs.len() && refs[i2] == q[j] && answers[i2] is None;
            assert(i2 != i);
        }
    }
    assert forall|i: int| 0 <= i < refs.len() && answers[i] is None implies res[
        #[trigger] refs[i]] == trim_end(pieces[missed(refs.take(i), answers).len() as int]) by {
        lemma_missed_position_at(refs, answers, i);
        let p = missed(refs.take(i), answers).len() as int;
        assert(q[p] == refs[i]);
        assert(fetched.contains_key(q[p]));
    }
}

/// The state of a resolution: the values found so far, and the references
/// that the cache did not hold, in the order they were looked up.
pub struct RefResolution {
    resolved: SecretMap,
    missing: Vec<String>,
}

impl View for RefResolution {
    type V = ResolutionView;

    closed spec fn view(&self) -> ResolutionView {
        (self.resolved@, strings_view(self.missing@))
    }
}

impl RefResolution {
    /// A resolution with nothing found and nothing missing.
    pub fn new() -> (r: RefResolution)
        ensures
            r@.0 == Map::<Seq<char>, Seq<char>>::empty(),
            r@.1 == Seq::<Seq<char>>::empty(),
    {
        let r = RefResolution { resolved: SecretMap::new(), missing: Vec::new() };
        assert(strings_view(r.missing@) =~= Seq::<Seq<char>>::empty());
        r
    }

    /// Takes in the cache's answer for `reference`: a cached value is
    /// resolved at once and never sent to `op inject`; a miss is queued.
    pub fn record_lookup(&mut self, reference: &str, cached: Option<String>)
        ensures
            final(self)@ == lookup_step(
                old(self)@,
                reference@,
                match cached {
                    Some(v) => Some(v@),
                    None => None,
                },
            ),
    {
        match cached {
            Some(v) => {
                self.resolved.insert(reference.to_owned(), v);
            },
            None => {
                let ghost before = self.missing@;
                self.missing.push(reference.to_owned());
                assert(strings_view(self.missing@) =~= strings_view(before).push(reference@));
            },
        }
    }

    /// Whether some reference still needs `op inject`.
    pub fn needs_inject(&self) -> (r: bool)
        ensures
            r == (self@.1.len() > 0),
    {
        self.missing.len() > 0
    }

    /// The references that still need `op inject`, in lookup order.
    pub fn missing_refs(&self) -> (r: Vec<&str>)
        ensures
            strs_view(r@) == self@.1,
    {
        let mut r: Vec<&str> = Vec::new();
        let n = self.missing.len();
        for i in 0..n
            invariant
                n == self.missing@.len(),
                strs_view(r@) == strings_view(self.missing@).take(i as int),
        {
            let ghost before = r@;
            r.push(self.missing[i].as_str());
            assert(strs_view(r@) =~= strs_view(before).push(self.missing@[i as int]@));
            assert(strings_view(self.missing@).take(i + 1) =~= strings_view(self.missing@).take(
                i as int,
            ).push(self.missing@[i as int]@));
        }
        assert(strings_view(self.missing@).take(n as int) =~= strings_view(self.missing@));
        r
    }

    /// The single `op inject` template for every reference still missing.
    pub fn inject_template(&self, delimiter: &str) -> (t: String)
        ensures
            t@ == inject_template(self@.1, delimiter@),
    {
        let refs = self.missing_refs();
        build_inject_template(refs.as_slice(), delimiter)
    }

    /// Takes in the output of the `op inject` call made with
    /// `inject_template(delimiter)`. On success every missing reference is
    /// resolved, and the values fetched are returned (for the cache); on
    /// failure nothing changes.
    pub fn apply_inject_output(&mut self, output: &str, delimiter: &str) -> (r: Result<
        SecretMap,
        InjectError,
    >)
        ensures
            r is Ok <==> split_on(output@, delimiter@).len() == old(self)@.1.len(),
            match r {
                Ok(fetched) => {
                    &&& fetched@ == inject_map(old(self)@.1, split_on(output@, delimiter@))
                    &&& final(self)@.0 == old(self)@.0.union_prefer_right(fetched@)
                    &&& final(self)@.1 == old(self)@.1
                    &&& forall|i: int|
                        0 <= i < old(self)@.1.len() ==> final(self)@.0.contains_key(
                            #[trigger] old(self)@.1[i],
                        )
                },
                Err(InjectError::ValueCountMismatch { values, references }) => {
                    &&& final(self)@ == old(self)@
                    &&& values == split_on(output@, delimiter@).len()
                    &&& references == old(self)@.1.len()
                },
            },
    {
        let refs = self.missing_refs();
        let parsed = parse_inject_output(output, delimiter, refs.as_slice());
        match parsed {
            Err(e) => Err(e),
            Ok(fetched) => {
                let ghost start = self.resolved@;
                let entries = fetched.entries();
                let ghost pv = pairs_view(entries@);
                let n = entries.len();
                for i in 0..n
                    invariant
                        n == entries@.len(),
                        pv == pairs_view(entries@),
                        self.resolved@ == start.union_prefer_right(map_of(pv.take(i as int))),
                        self.missing@ == old(self).missing@,
                {
                    let ghost before = self.resolved@;
                    self.resolved.insert(entries[i].0.clone(), entries[i].1.clone());
                    assert(pv.take(i + 1).drop_last() == pv.take(i as int));
                    assert(self.resolved@ =~= start.union_prefer_right(map_of(pv.take(i + 1))));
                }
                assert(pv.take(n as int) == pv);
                proof {
                    lemma_inject_map_covers(strs_view(refs@), split_on(output@, delimiter@));
                }
                Ok(fetched)
            },
        }
    }

    /// The values found so far.
    pub fn resolved(&self) -> (m: &SecretMap)
        ensures
            m@ == self@.0,
    {
        &self.resolved
    }

    /// The values found, ending the resolution.
    pub fn into_resolved(self) -> (m: SecretMap)
        ensures
            m@ == self@.0,
    {
        self.resolved
    }
}

} // verus!

verus! {

/// Every key the cache's values hold is a reference whose answer gave that value.
proof fn lemma_hits_origin(refs: Seq<Seq<char>>, answers: Seq<Option<Seq<char>>>)
    requires
        answers.len() >= refs.len(),
    ensures
        forall|k: Seq<char>|
            #[trigger] lookups(refs, answers).0.contains_key(k) ==> exists|j: int|
                0 <= j < refs.len() && refs[j] == k && answers[j] == Some(
                    lookups(refs, answers).0[k],
                ),
    decreases refs.len(),
{
    if refs.len() > 0 {
        let n = refs.len();
        let dl = refs.drop_last();
        lemma_hits_origin(dl, answers);
        let m = lookups(refs, answers).0;
        let pm = lookups(dl, answers).0;
        assert forall|k: Seq<char>| #[trigger] m.contains_key(k) implies exists|j: int|
            0 <= j < refs.len() && refs[j] == k && answers[j] == Some(m[k]) by {
            if answers[n - 1] is Some && k == refs[n - 1] {
                assert(refs[n - 1] == k && answers[n - 1] == Some(m[k]));
            } else {
                assert(pm.contains_key(k));
                let j = choose|j: int| 0 <= j < dl.len() && dl[j] == k && answers[j] == Some(pm[k]);
                assert(refs[j] == k && answers[j] == Some(m[k]));
            }
        }
    }
}

/// Every key of `inject_map(q, values)` is in the queue `q`.
proof fn lemma_inject_map_keys(q: Seq<Seq<char>>, values: Seq<Seq<char>>)
    ensures
        forall|x: Seq<char>| #[trigger] inject_map(q, values).contains_key(x) ==> q.contains(x),
    decreases q.len(),
{
    if q.len() > 0 {
        let dl = q.drop_last();
        lemma_inject_map_keys(dl, values);
        assert forall|x: Seq<char>| #[trigger] inject_map(q, values).contains_key(x) implies q.contains(
            x,
        ) by {
            if x != q[q.len() - 1] {
                assert(inject_map(dl, values).contains_key(x));
                let j = choose|j: int| 0 <= j < dl.len() && dl[j] == x;
                assert(q[j] == x);
            } else {
                assert(q[q.len() - 1] == x);
            }
        }
    }
}

/// The result of a whole resolution when references may repeat, each asked
/// of the cache every time it occurs and answered alike each time: its keys
/// are exactly the references; a reference the cache held maps to the cached
/// value; a missed one maps to what the `op inject` answer gives it.
pub proof fn resolution_with_repeats(
    refs: Seq<Seq<char>>,
    answers: Seq<Option<Seq<char>>>,
    output: Seq<char>,
    delimiter: Seq<char>,
)
    requires
        answers.len() == refs.len(),
        split_on(output, delimiter).len() == missed(refs, answers).len(),
        forall|i: int, j: int|
            0 <= i < refs.len() && 0 <= j < refs.len() && refs[i] == refs[j] ==> answers[i]
                == answers[j],
    ensures
        forall|k: Seq<char>|
            #[trigger] resolution_result(refs, answers, output, delimiter).contains_key(k)
                <==> refs.contains(k),
        forall|i: int|
            0 <= i < refs.len() && answers[i] is Some ==> resolution_result(
                refs,
                answers,
                output,
                delimiter,
            )[#[trigger] refs[i]] == answers[i]->Some_0,
        forall|i: int|
            0 <= i < refs.len() && answers[i] is None ==> inject_map(
                missed(refs, answers),
                split_on(output, delimiter),
            ).contains_key(#[trigger] refs[i]) && resolution_result(
                refs,
                answers,
                output,
                delimiter,
            )[refs[i]] == inject_map(missed(refs, answers), split_on(output, delimiter))[refs[i]],
{
    let pieces = split_on(output, delimiter);
    let st = lookups(refs, answers);
    let q = missed(refs, answers);
    let fetched = inject_map(st.1, pieces);
    let res = resolution_result(refs, answers, output, delimiter);
    queue_is_the_misses(refs, answers);
    lookups_sort_every_reference(refs, answers);
    lemma_hits_origin(refs, answers);
    lemma_inject_map_keys(q, pieces);
    lemma_inject_map_covers(q, pieces);
    lemma_missed_origin(refs, answers);
    assert forall|k: Seq<char>| #[trigger] res.contains_key(k) <==> refs.contains(k) by {
        if res.contains_key(k) {
            if st.0.contains_key(k) {
                let j = choose|j: int| 0 <= j < refs.len() && refs[j] == k && answers[j] == Some(st.0[k]);
            } else {
                assert(fetched.contains_key(k));
                let j = choose|j: int| 0 <= j < q.len() && q[j] == k;
                assert(was_missed(refs, answers, q[j]));
                let i = choose|i: int| 0 <= i < refs.len() && refs[i] == q[j] && answers[i] is None;
            }
        }
        if refs.contains(k) {
            let i = choose|i: int| 0 <= i < refs.len() && refs[i] == k;
            if !st.0.contains_key(refs[i]) {
                let j = choose|j: int| 0 <= j < q.len() && q[j] == refs[i];
                assert(fetched.contains_key(q[j]));
            }
        }
    }
    assert forall|i: int| 0 <= i < refs.len() && answers[i] is Some implies res[#[trigger] refs[i]]
        == answers[i]->Some_0 by {
        assert(st.0.contains_key(refs[i]));
        if fetched.contains_key(refs[i]) {
            let j = choose|j: int| 0 <= j < q.len() && q[j] == refs[i];
            assert(was_missed(refs, answers, q[j]));
            let i2 = choose|i2: int| 0 <= i2 < refs.len() && refs[i2] == q[j] && answers[i2] is None;
            assert(answers[i2] == answers[i]);
        }
        let j = choose|j: int| 0 <= j < refs.len() && refs[j] == refs[i] && answers[j] == Some(st.0[refs[i]]);
        assert(answers[j] == answers[i]);
    }
    assert forall|i: int| 0 <= i < refs.len() && answers[i] is None implies fetched.contains_key(
        #[trigger] refs[i],
    ) && res[refs[i]] == fetched[refs[i]] by {
        if !st.0.contains_key(refs[i]) {
            let j = choose|j: int| 0 <= j < q.len() && q[j] == refs[i];
            assert(fetched.contains_key(q[j]));
        } else {
            let j = choose|j: int| 0 <= j < refs.len() && refs[j] == refs[i] && answers[j] == Some(st.0[refs[i]]);
            assert(answers[j] == answers[i]);
        }
    }
}

} // verus!
