//! The n-gram model: training, seed selection, and generation.

use vstd::prelude::*;
use crate::counter::{
    Counter, count_in, entries_wf, has_item, lemma_count_in_first_match,
    lemma_prefix_sum_mono, lemma_wf_entries, prefix_sum, sum_counts,
};
use crate::dist::{
    cumulative_distribution, first_reaching, lemma_first_reaching_bounds, pick_from_distribution,
    spec_cdf,
};
use vstd::string::StringExecFns;

verus! {

/// The abstract model: windows (as token sequences) paired with the
/// entries of their continuation counters, in insertion order.
pub type ModelView = Seq<(Seq<Seq<char>>, Seq<(Seq<char>, u64)>)>;

/// Failures the model reports.
#[derive(Clone, Copy, Debug, PartialEq, Eq, Structural)]
pub enum ModelError {
    /// The requested window size is unusable (zero).
    Configuration,
    /// The model holds no windows, so generation has no seed.
    EmptyModel,
}

/// Whether the model records the window `w`.
pub open spec fn has_window(m: ModelView, w: Seq<Seq<char>>) -> bool {
    exists|i: int| 0 <= i < m.len() && m[i].0 == w
}

/// The counter entries recorded for `w`: those of the first (only)
/// matching window, or the empty sequence when `w` is unknown.
pub open spec fn counter_entries_of(m: ModelView, w: Seq<Seq<char>>) -> Seq<(Seq<char>, u64)>
    decreases m.len(),
{
    if m.len() == 0 {
        Seq::empty()
    } else if m[0].0 == w {
        m[0].1
    } else {
        counter_entries_of(m.drop_first(), w)
    }
}

/// How often token `t` was observed to continue window `w`.
pub open spec fn model_count(m: ModelView, w: Seq<Seq<char>>, t: Seq<char>) -> int {
    count_in(counter_entries_of(m, w), t)
}

/// The total number of window observations the model accumulated.
pub open spec fn total_observations(m: ModelView) -> int
    decreases m.len(),
{
    if m.len() == 0 {
        0
    } else {
        sum_counts(m[0].1) + total_observations(m.drop_first())
    }
}

/// The window of `n` consecutive tokens starting at position `i`.
pub open spec fn window_at(toks: Seq<Seq<char>>, n: int, i: int) -> Seq<Seq<char>> {
    toks.subrange(i, i + n)
}

/// Among the first `upto` window positions of `toks`, how often the
/// window `w` is immediately followed by the token `t`.
pub open spec fn continuation_count(
    toks: Seq<Seq<char>>,
    n: int,
    w: Seq<Seq<char>>,
    t: Seq<char>,
    upto: int,
) -> int
    decreases upto,
{
    if upto <= 0 {
        0
    } else {
        continuation_count(toks, n, w, t, upto - 1) + if window_at(toks, n, upto - 1) == w
            && toks[upto - 1 + n] == t {
            1int
        } else {
            0int
        }
    }
}

/// Among the first `upto` window positions of `toks`, how often the
/// window `w` occurs.
pub open spec fn window_occurrences(
    toks: Seq<Seq<char>>,
    n: int,
    w: Seq<Seq<char>>,
    upto: int,
) -> int
    decreases upto,
{
    if upto <= 0 {
        0
    } else {
        window_occurrences(toks, n, w, upto - 1) + if window_at(toks, n, upto - 1) == w {
            1int
        } else {
            0int
        }
    }
}

/// The number of window observations a training pass over `toks`
/// contributes: one per window position.
pub open spec fn trained_positions(toks: Seq<Seq<char>>, n: int) -> int {
    if toks.len() > n {
        toks.len() - n
    } else {
        0
    }
}

/// The token a draw selects for window `w`: the first entry of the
/// window's cumulative distribution whose cumulative count reaches
/// the draw; `None` when the window is unknown or no entry reaches it.
pub open spec fn spec_step(m: ModelView, w: Seq<Seq<char>>, draw: u64) -> Option<Seq<char>> {
    if has_window(m, w) {
        let d = spec_cdf(counter_entries_of(m, w));
        let k = first_reaching(d, draw);
        if k < d.len() {
            Some(d[k].0)
        } else {
            None
        }
    } else {
        None
    }
}

/// The sequence obtained by extending `acc` for up to `steps` steps,
/// consuming one draw per step: each step selects a continuation of
/// the window formed by the last `n` elements and appends it; the
/// walk stops early when a step selects nothing or the draws run out.
pub open spec fn spec_walk(
    m: ModelView,
    n: int,
    acc: Seq<Seq<char>>,
    draws: Seq<u64>,
    steps: int,
) -> Seq<Seq<char>>
    decreases steps,
{
    if steps <= 0 || draws.len() == 0 {
        acc
    } else {
        match spec_step(m, acc.subrange(acc.len() - n, acc.len() as int), draws[0]) {
            Option::None => acc,
            Option::Some(t) => spec_walk(m, n, acc.push(t), draws.drop_first(), steps - 1),
        }
    }
}

/// Continuation and window occurrence counts are never negative.
pub proof fn lemma_occurrence_counts_nonneg(
    toks: Seq<Seq<char>>,
    n: int,
    w: Seq<Seq<char>>,
    t: Seq<char>,
    upto: int,
)
    ensures
        continuation_count(toks, n, w, t, upto) >= 0,
        window_occurrences(toks, n, w, upto) >= 0,
    decreases upto,
{
    if upto > 0 {
        lemma_occurrence_counts_nonneg(toks, n, w, t, upto - 1);
    }
}

/// At a first match at index `i`, `counter_entries_of` yields exactly
/// the entries stored there.
pub proof fn lemma_counter_entries_at(m: ModelView, i: int)
    requires
        0 <= i < m.len(),
        forall|l: int| 0 <= l < i ==> (#[trigger] m[l]).0 != m[i].0,
    ensures
        counter_entries_of(m, m[i].0) == m[i].1,
    decreases i,
{
    if i > 0 {
        assert(forall|l: int|
            0 <= l < m.drop_first().len() ==> (#[trigger] m.drop_first()[l]) == m[l + 1]);
        lemma_counter_entries_at(m.drop_first(), i - 1);
    }
}

/// An unknown window has no counter entries.
pub proof fn lemma_counter_entries_absent(m: ModelView, w: Seq<Seq<char>>)
    requires
        !has_window(m, w),
    ensures
        counter_entries_of(m, w) == Seq::<(Seq<char>, u64)>::empty(),
    decreases m.len(),
{
    if m.len() > 0 {
        assert(m[0].0 != w);
        assert(forall|l: int|
            0 <= l < m.drop_first().len() ==> (#[trigger] m.drop_first()[l]) == m[l + 1]);
        lemma_counter_entries_absent(m.drop_first(), w);
    }
}

/// A window known to a model whose head is another window is known to
/// the tail, and conversely.
pub proof fn lemma_has_window_drop_first(m: ModelView, w: Seq<Seq<char>>)
    requires
        m.len() > 0,
        m[0].0 != w,
    ensures
        has_window(m, w) <==> has_window(m.drop_first(), w),
{
    if has_window(m, w) {
        let i = choose|i: int| 0 <= i < m.len() && m[i].0 == w;
        assert(m.drop_first()[i - 1].0 == w);
    }
    if has_window(m.drop_first(), w) {
        let i = choose|i: int| 0 <= i < m.drop_first().len() && m.drop_first()[i].0 == w;
        assert(m[i + 1].0 == w);
    }
}

/// Models with the same windows at the same positions know the same
/// windows.
pub proof fn lemma_has_window_same_keys(m1: ModelView, m2: ModelView)
    requires
        m1.len() == m2.len(),
        forall|j: int| 0 <= j < m1.len() ==> (#[trigger] m1[j]).0 == m2[j].0,
    ensures
        forall|w: Seq<Seq<char>>| #[trigger] has_window(m1, w) <==> #[trigger] has_window(m2, w),
{
    assert forall|w: Seq<Seq<char>>| #[trigger] has_window(m1, w) <==> #[trigger] has_window(
        m2,
        w,
    ) by {
        if has_window(m1, w) {
            let i = choose|i: int| 0 <= i < m1.len() && m1[i].0 == w;
            assert(m2[i].0 == w);
        }
        if has_window(m2, w) {
            let i = choose|i: int| 0 <= i < m2.len() && m2[i].0 == w;
            assert(m1[i].0 == w);
        }
    }
}

/// Replacing the counter entries at a first match: the entries of that
/// window become the new ones, all other windows are unaffected.
pub proof fn lemma_counter_entries_update(
    m: ModelView,
    i: int,
    newc: Seq<(Seq<char>, u64)>,
    w: Seq<Seq<char>>,
)
    requires
        0 <= i < m.len(),
        forall|l: int| 0 <= l < i ==> (#[trigger] m[l]).0 != m[i].0,
    ensures
        counter_entries_of(m.update(i, (m[i].0, newc)), w) == if w == m[i].0 {
            newc
        } else {
            counter_entries_of(m, w)
        },
    decreases i,
{
    let t = m.update(i, (m[i].0, newc));
    if i == 0 {
        assert(t[0] == (m[0].0, newc));
        if w != m[0].0 {
            assert(t.drop_first() =~= m.drop_first());
        }
    } else {
        assert(t[0] == m[0]);
        if m[0].0 == w {
        } else {
            assert(t.drop_first() =~= m.drop_first().update(i - 1, (m[i].0, newc)));
            assert(forall|l: int|
                0 <= l < m.drop_first().len() ==> (#[trigger] m.drop_first()[l]) == m[l + 1]);
            assert(m.drop_first()[i - 1] == m[i]);
            lemma_counter_entries_update(m.drop_first(), i - 1, newc, w);
        }
    }
}

/// Appending a window: entries of known windows are unaffected; the
/// appended window's entries become visible; others stay empty.
pub proof fn lemma_counter_entries_push(
    m: ModelView,
    e: (Seq<Seq<char>>, Seq<(Seq<char>, u64)>),
    w: Seq<Seq<char>>,
)
    ensures
        counter_entries_of(m.push(e), w) == if has_window(m, w) {
            counter_entries_of(m, w)
        } else if e.0 == w {
            e.1
        } else {
            Seq::<(Seq<char>, u64)>::empty()
        },
    decreases m.len(),
{
    if m.len() == 0 {
        assert(m.push(e)[0] == e);
        assert(m.push(e).drop_first() =~= Seq::<(Seq<Seq<char>>, Seq<(Seq<char>, u64)>)>::empty());
        assert(counter_entries_of(
            Seq::<(Seq<Seq<char>>, Seq<(Seq<char>, u64)>)>::empty(),
            w,
        ) == Seq::<(Seq<char>, u64)>::empty());
    } else {
        assert(m.push(e)[0] == m[0]);
        assert(m.push(e).drop_first() =~= m.drop_first().push(e));
        if m[0].0 == w {
            assert(has_window(m, w));
        } else {
            lemma_has_window_drop_first(m, w);
            lemma_counter_entries_push(m.drop_first(), e, w);
        }
    }
}

/// Replacing the counter entries at `i` shifts the total observation
/// count by the difference of the sums.
pub proof fn lemma_total_observations_update(m: ModelView, i: int, newc: Seq<(Seq<char>, u64)>)
    requires
        0 <= i < m.len(),
    ensures
        total_observations(m.update(i, (m[i].0, newc))) == total_observations(m) - sum_counts(
            m[i].1,
        ) + sum_counts(newc),
    decreases i,
{
    let t = m.update(i, (m[i].0, newc));
    if i == 0 {
        assert(t[0] == (m[0].0, newc));
        assert(t.drop_first() =~= m.drop_first());
    } else {
        assert(t[0] == m[0]);
        assert(t.drop_first() =~= m.drop_first().update(i - 1, (m[i].0, newc)));
        assert(m.drop_first()[i - 1] == m[i]);
        lemma_total_observations_update(m.drop_first(), i - 1, newc);
    }
}

/// Appending a window adds its sum of counts to the total observation
/// count.
pub proof fn lemma_total_observations_push(
    m: ModelView,
    e: (Seq<Seq<char>>, Seq<(Seq<char>, u64)>),
)
    ensures
        total_observations(m.push(e)) == total_observations(m) + sum_counts(e.1),
    decreases m.len(),
{
    if m.len() == 0 {
        assert(m.push(e)[0] == e);
        assert(m.push(e).drop_first() =~= Seq::<(Seq<Seq<char>>, Seq<(Seq<char>, u64)>)>::empty());
        assert(total_observations(
            Seq::<(Seq<Seq<char>>, Seq<(Seq<char>, u64)>)>::empty(),
        ) == 0);
    } else {
        assert(m.push(e)[0] == m[0]);
        assert(m.push(e).drop_first() =~= m.drop_first().push(e));
        lemma_total_observations_push(m.drop_first(), e);
    }
}

/// A model's total observation count is never negative.
pub proof fn lemma_total_observations_nonneg(m: ModelView)
    ensures
        total_observations(m) >= 0,
    decreases m.len(),
{
    if m.len() > 0 {
        lemma_prefix_sum_mono(m[0].1, 0, m[0].1.len() as int);
        lemma_total_observations_nonneg(m.drop_first());
    }
}

/// Each window's sum of counts is at most the model's total
/// observation count.
pub proof fn lemma_entry_observations_le(m: ModelView, i: int)
    requires
        0 <= i < m.len(),
    ensures
        sum_counts(m[i].1) <= total_observations(m),
        total_observations(m) >= 0,
    decreases i,
{
    lemma_total_observations_nonneg(m);
    if i == 0 {
        lemma_total_observations_nonneg(m.drop_first());
    } else {
        lemma_prefix_sum_mono(m[0].1, 0, m[0].1.len() as int);
        assert(m.drop_first()[i - 1] == m[i]);
        lemma_entry_observations_le(m.drop_first(), i - 1);
    }
}

/// Builds an n-gram model from token sequences and generates text by
/// a random walk over the learned continuation distributions.
pub struct MarkovBuilder {
    n: usize,
    ngrams: Vec<(Vec<String>, Counter)>,
}

impl View for MarkovBuilder {
    type V = ModelView;

    closed spec fn view(&self) -> ModelView {
        Seq::new(self.ngrams@.len(), |i: int| (self.ngrams@[i].0.deep_view(), self.ngrams@[i].1@))
    }
}

impl MarkovBuilder {
    /// The window size `n` the model was configured with.
    pub closed spec fn window_size(self) -> usize {
        self.n
    }

    /// Well-formed: the window size is positive, windows are pairwise
    /// distinct sequences of exactly `n` tokens, and every window's
    /// counter is well-formed and non-empty.
    pub closed spec fn wf(self) -> bool {
        &&& self.n >= 1
        &&& forall|i: int| 0 <= i < self.ngrams@.len() ==> (#[trigger] self.ngrams@[i]).1.wf()
        &&& forall|i: int, j: int| 0 <= i < j < self@.len() ==> self@[i].0 != self@[j].0
        &&& forall|i: int| 0 <= i < self@.len() ==> (#[trigger] self@[i]).0.len() == self.n
        &&& forall|i: int| 0 <= i < self@.len() ==> (#[trigger] self@[i]).1.len() >= 1
    }

    /// What well-formedness guarantees about the abstract model.
    pub proof fn lemma_wf_model(self)
        requires
            self.wf(),
        ensures
            self.window_size() >= 1,
            forall|i: int, j: int| 0 <= i < j < self@.len() ==> self@[i].0 != self@[j].0,
            forall|i: int|
                0 <= i < self@.len() ==> (#[trigger] self@[i]).0.len() == self.window_size(),
            forall|i: int|
                0 <= i < self@.len() ==> entries_wf((#[trigger] self@[i]).1) && self@[i].1.len()
                    >= 1 && 1 <= sum_counts(self@[i].1) <= u64::MAX,
    {
        assert forall|i: int|
            0 <= i < self@.len() implies entries_wf((#[trigger] self@[i]).1) && self@[i].1.len()
            >= 1 && 1 <= sum_counts(self@[i].1) <= u64::MAX by {
            lemma_wf_entries(self.ngrams@[i].1);
            assert(self@[i].1 == self.ngrams@[i].1@);
            lemma_prefix_sum_mono(self@[i].1, 1, self@[i].1.len() as int);
            assert(prefix_sum(self@[i].1, 0) == 0);
            assert(prefix_sum(self@[i].1, 1) == self@[i].1[0].1);
            assert(sum_counts(self@[i].1) >= self@[i].1[0].1 >= 1);
        }
    }

    /// A model with the default window size of 2 and no windows.
    pub fn new() -> (m: MarkovBuilder)
        ensures
            m.wf(),
            m.window_size() == 2,
            m@.len() == 0,
    {
        let m = MarkovBuilder { n: 2, ngrams: Vec::new() };
        m
    }

    /// A model with window size `n` and no windows; a window size of
    /// zero is rejected.
    pub fn with_n(n: usize) -> (r: Result<MarkovBuilder, ModelError>)
        ensures
            match r {
                Ok(m) => n >= 1 && m.wf() && m.window_size() == n && m@.len() == 0,
                Err(e) => n == 0 && e == ModelError::Configuration,
            },
    {
        if n == 0 {
            Err(ModelError::Configuration)
        } else {
            Ok(MarkovBuilder { n, ngrams: Vec::new() })
        }
    }
}

/// Element-wise equality of two token vectors.
fn tokens_eq(a: &Vec<String>, b: &Vec<String>) -> (r: bool)
    ensures
        r == (a.deep_view() == b.deep_view()),
{
    let n = a.len();
    if n != b.len() {
        proof {
            assert(a.deep_view().len() != b.deep_view().len());
        }
        return false;
    }
    let mut i: usize = 0;
    while i < n
        invariant
            n == a@.len() && n == b@.len(),
            i <= n,
            forall|l: int| 0 <= l < i ==> (#[trigger] a.deep_view()[l]) == b.deep_view()[l],
        decreases n - i,
    {
        proof {
            assert(a.deep_view()[i as int] == a@[i as int]@);
            assert(b.deep_view()[i as int] == b@[i as int]@);
        }
        if a[i] == b[i] {
            i += 1;
        } else {
            proof {
                assert(a.deep_view()[i as int] != b.deep_view()[i as int]);
            }
            return false;
        }
    }
    proof {
        assert(a.deep_view() =~= b.deep_view());
    }
    true
}

/// Copies the `n` tokens of `words` starting at `start`.
fn clone_window(words: &Vec<String>, start: usize, n: usize) -> (w: Vec<String>)
    requires
        start + n <= words@.len(),
    ensures
        w.deep_view() == words.deep_view().subrange(start as int, start as int + n as int),
        w@.len() == n,
{
    let wl = words.len();
    let mut w: Vec<String> = Vec::new();
    let mut l: usize = 0;
    while l < n
        invariant
            start + n <= words@.len(),
            wl == words@.len(),
            l <= n,
            w@.len() == l,
            forall|k: int| 0 <= k < l ==> (#[trigger] w.deep_view()[k]) == words.deep_view()[
                start + k
            ],
        decreases n - l,
    {
        let ghost wdv = w.deep_view();
        w.push(words[start + l].clone());
        proof {
            assert(w.deep_view()[l as int] == words@[start + l]@);
            assert(forall|k: int| 0 <= k < l ==> (#[trigger] w.deep_view()[k]) == wdv[k]);
        }
        l += 1;
    }
    proof {
        assert(w.deep_view() =~= words.deep_view().subrange(
            start as int,
            start as int + n as int,
        ));
    }
    w
}

impl MarkovBuilder {
    /// Learns, from an ordered token sequence, which tokens follow
    /// which windows of `n` consecutive tokens, and how often: for
    /// each of the `len - n` window positions, the window's counter
    /// accumulates one observation of the token that immediately
    /// follows it. A sequence of at most `n` tokens changes nothing.
    pub fn train(&mut self, words: &Vec<String>)
        requires
            old(self).wf(),
            total_observations(old(self)@) + words@.len() <= u64::MAX,
        ensures
            final(self).wf(),
            final(self).window_size() == old(self).window_size(),
            forall|w: Seq<Seq<char>>, t: Seq<char>|
                #[trigger] model_count(final(self)@, w, t) == model_count(old(self)@, w, t)
                    + continuation_count(
                    words.deep_view(),
                    old(self).window_size() as int,
                    w,
                    t,
                    trained_positions(words.deep_view(), old(self).window_size() as int),
                ),
            forall|w: Seq<Seq<char>>|
                #[trigger] has_window(final(self)@, w) <==> (has_window(old(self)@, w)
                    || window_occurrences(
                    words.deep_view(),
                    old(self).window_size() as int,
                    w,
                    trained_positions(words.deep_view(), old(self).window_size() as int),
                ) > 0),
            total_observations(final(self)@) == total_observations(old(self)@)
                + trained_positions(words.deep_view(), old(self).window_size() as int),
    {
        let ghost toks = words.deep_view();
        let ghost m0 = self@;
        let n = self.n;
        let ghost nn = n as int;
        let len = words.len();
        if len <= n {
            proof {
                assert(trained_positions(toks, nn) == 0);
                assert forall|w: Seq<Seq<char>>, t: Seq<char>|
                    #[trigger] model_count(self@, w, t) == model_count(m0, w, t)
                        + continuation_count(toks, nn, w, t, trained_positions(toks, nn)) by {
                    assert(continuation_count(toks, nn, w, t, 0) == 0);
                }
                assert forall|w: Seq<Seq<char>>|
                    #[trigger] has_window(self@, w) <==> (has_window(m0, w)
                        || window_occurrences(toks, nn, w, trained_positions(toks, nn))
                            > 0) by {
                    assert(window_occurrences(toks, nn, w, 0) == 0);
                }
            }
            return ;
        }
        let count = len - n;
        let mut i: usize = 0;
        while i < count
            invariant
                self.wf(),
                self.window_size() == n,
                nn == n as int,
                n >= 1,
                toks == words.deep_view(),
                m0 == old(self)@,
                len == words@.len(),
                count == len - n,
                i <= count,
                total_observations(m0) + len <= u64::MAX,
                forall|w: Seq<Seq<char>>, t: Seq<char>|
                    #[trigger] model_count(self@, w, t) == model_count(m0, w, t)
                        + continuation_count(toks, nn, w, t, i as int),
                forall|w: Seq<Seq<char>>|
                    #[trigger] has_window(self@, w) <==> (has_window(m0, w)
                        || window_occurrences(toks, nn, w, i as int) > 0),
                total_observations(self@) == total_observations(m0) + i,
            decreases count - i,
        {
            let w = clone_window(words, i, n);
            let ghost wv = w.deep_view();
            let tok = words[i + n].clone();
            let ghost tv = tok@;
            proof {
                assert(wv == window_at(toks, nn, i as int));
                assert(toks[i as int + nn] == words@[i as int + nn]@);
                assert(tv == toks[i as int + nn]);
                lemma_total_observations_nonneg(m0);
            }
            let ghost pre = self@;
            match self.find_window(&w) {
                Some(idx) => {
                    proof {
                        lemma_entry_observations_le(pre, idx as int);
                        lemma_counter_entries_at(pre, idx as int);
                        lemma_wf_entries(self.ngrams@[idx as int].1);
                        assert(pre[idx as int].1 == self.ngrams@[idx as int].1@);
                    }
                    let e = &mut self.ngrams[idx];
                    let ghost cpre = e.1@;
                    e.1.increment(tok);
                    let ghost cpost = self.ngrams@[idx as int].1@;
                    proof {
                        assert(self@.len() == pre.len());
                        assert(self@ =~= pre.update(idx as int, (wv, cpost))) by {
                            assert(forall|l: int|
                                0 <= l < self@.len() && l != idx as int ==> self@[l] == pre[l]);
                            assert(self@[idx as int] == (wv, cpost));
                        };
                        assert(counter_entries_of(pre, wv) == cpre);
                        lemma_total_observations_update(pre, idx as int, cpost);
                        assert forall|ww: Seq<Seq<char>>, t: Seq<char>|
                            #[trigger] model_count(self@, ww, t) == model_count(m0, ww, t)
                                + continuation_count(toks, nn, ww, t, i as int + 1) by {
                            lemma_counter_entries_update(pre, idx as int, cpost, ww);
                            assert(continuation_count(toks, nn, ww, t, i as int + 1)
                                == continuation_count(toks, nn, ww, t, i as int) + if window_at(
                                toks,
                                nn,
                                i as int,
                            ) == ww && toks[i as int + nn] == t {
                                1int
                            } else {
                                0int
                            });
                            assert(model_count(pre, ww, t) == model_count(m0, ww, t)
                                + continuation_count(toks, nn, ww, t, i as int));
                            if ww == wv {
                                assert(counter_entries_of(self@, ww) == cpost);
                                assert(model_count(self@, ww, t) == count_in(cpost, t));
                                assert(model_count(pre, ww, t) == count_in(cpre, t));
                                if t == tv {
                                    assert(count_in(cpost, t) == count_in(cpre, t) + 1);
                                } else {
                                    assert(count_in(cpost, t) == count_in(cpre, t));
                                }
                            } else {
                                assert(counter_entries_of(self@, ww) == counter_entries_of(
                                    pre,
                                    ww,
                                ));
                                assert(window_at(toks, nn, i as int) != ww);
                            }
                        }
                        lemma_has_window_same_keys(pre, self@);
                        assert forall|ww: Seq<Seq<char>>|
                            #[trigger] has_window(self@, ww) <==> (has_window(m0, ww)
                                || window_occurrences(toks, nn, ww, i as int + 1) > 0) by {
                            lemma_occurrence_counts_nonneg(toks, nn, ww, tv, i as int);
                            assert(window_occurrences(toks, nn, ww, i as int + 1)
                                == window_occurrences(toks, nn, ww, i as int) + if window_at(
                                toks,
                                nn,
                                i as int,
                            ) == ww {
                                1int
                            } else {
                                0int
                            });
                            assert(has_window(self@, ww) <==> has_window(pre, ww));
                            assert(has_window(pre, ww) <==> (has_window(m0, ww)
                                || window_occurrences(toks, nn, ww, i as int) > 0));
                            if ww == wv {
                                assert(pre[idx as int].0 == wv);
                                assert(has_window(pre, wv));
                            }
                        }
                        assert forall|l: int|
                            0 <= l < self.ngrams@.len() implies (#[trigger] self.ngrams@[l]).1
                            .wf() by {};
                    }
                },
                None => {
                    let mut c = Counter::new();
                    proof {
                        assert(sum_counts(c@) == 0) by {
                            assert(prefix_sum(c@, 0) == 0);
                        };
                    }
                    c.increment(tok);
                    let ghost cv = c@;
                    proof {
                        assert(cv.len() == 1) by {
                            assert(has_item(cv, tv));
                            let ghost witness = choose|x: int| 0 <= x < cv.len() && cv[x].0 == tv;
                            assert(cv.len() >= 1);
                        };
                    }
                    self.ngrams.push((w, c));
                    proof {
                        assert(self@.len() == pre.len() + 1);
                        assert(self@ =~= pre.push((wv, cv))) by {
                            assert(forall|l: int| 0 <= l < pre.len() ==> self@[l] == pre[l]);
                            assert(self@[pre.len() as int] == (wv, cv));
                        };
                        assert(!has_window(pre, wv));
                        lemma_counter_entries_absent(pre, wv);
                        lemma_total_observations_push(pre, (wv, cv));
                        assert forall|l: int| 0 <= l < pre.len() implies (#[trigger] pre[l]).0
                            != wv by {
                            if pre[l].0 == wv {
                                assert(has_window(pre, wv));
                            }
                        }
                        assert forall|ww: Seq<Seq<char>>, t: Seq<char>|
                            #[trigger] model_count(self@, ww, t) == model_count(m0, ww, t)
                                + continuation_count(toks, nn, ww, t, i as int + 1) by {
                            lemma_counter_entries_push(pre, (wv, cv), ww);
                            assert(model_count(pre, ww, t) == model_count(m0, ww, t)
                                + continuation_count(toks, nn, ww, t, i as int));
                            assert(continuation_count(toks, nn, ww, t, i as int + 1)
                                == continuation_count(toks, nn, ww, t, i as int) + if window_at(
                                toks,
                                nn,
                                i as int,
                            ) == ww && toks[i as int + nn] == t {
                                1int
                            } else {
                                0int
                            });
                            if ww == wv {
                                assert(model_count(pre, wv, t) == 0) by {
                                    assert(count_in(Seq::<(Seq<char>, u64)>::empty(), t) == 0);
                                };
                                assert(!has_window(m0, wv)) by {
                                    assert(has_window(pre, wv) <==> (has_window(m0, wv)
                                        || window_occurrences(toks, nn, wv, i as int) > 0));
                                };
                                lemma_counter_entries_absent(m0, wv);
                                assert(model_count(m0, wv, t) == 0) by {
                                    assert(count_in(Seq::<(Seq<char>, u64)>::empty(), t) == 0);
                                };
                                assert(counter_entries_of(self@, wv) == cv);
                                if t == tv {
                                } else {
                                    assert(count_in(cv, t) == 0);
                                }
                            } else {
                                if has_window(pre, ww) {
                                    assert(counter_entries_of(self@, ww) == counter_entries_of(
                                        pre,
                                        ww,
                                    ));
                                } else {
                                    lemma_counter_entries_absent(pre, ww);
                                    assert(counter_entries_of(self@, ww)
                                        == Seq::<(Seq<char>, u64)>::empty());
                                    assert(count_in(Seq::<(Seq<char>, u64)>::empty(), t) == 0);
                                }
                            }
                        }
                        assert forall|ww: Seq<Seq<char>>|
                            #[trigger] has_window(self@, ww) <==> (has_window(m0, ww)
                                || window_occurrences(toks, nn, ww, i as int + 1) > 0) by {
                            lemma_occurrence_counts_nonneg(toks, nn, ww, tv, i as int);
                            assert(window_occurrences(toks, nn, ww, i as int + 1)
                                == window_occurrences(toks, nn, ww, i as int) + if window_at(
                                toks,
                                nn,
                                i as int,
                            ) == ww {
                                1int
                            } else {
                                0int
                            });
                            if has_window(self@, ww) {
                                let x = choose|x: int|
                                    0 <= x < self@.len() && self@[x].0 == ww;
                                if x < pre.len() {
                                    assert(pre[x].0 == ww);
                                    assert(has_window(pre, ww));
                                } else {
                                    assert(ww == wv);
                                }
                            }
                            if has_window(pre, ww) {
                                let x = choose|x: int| 0 <= x < pre.len() && pre[x].0 == ww;
                                assert(self@[x].0 == ww);
                                assert(has_window(self@, ww));
                            }
                            if ww == wv {
                                assert(self@[pre.len() as int].0 == wv);
                                assert(has_window(self@, wv));
                                assert(!has_window(m0, wv)) by {
                                    assert(has_window(pre, wv) <==> (has_window(m0, wv)
                                        || window_occurrences(toks, nn, wv, i as int) > 0));
                                };
                            }
                        }
                        assert(total_observations(self@) == total_observations(m0) + i + 1);
                        assert forall|l: int|
                            0 <= l < self.ngrams@.len() implies (#[trigger] self.ngrams@[l]).1
                            .wf() by {};
                        assert(self.wf()) by {
                            assert(forall|a: int, b: int|
                                0 <= a < b < self@.len() ==> self@[a].0 != self@[b].0);
                            assert(forall|a: int|
                                0 <= a < self@.len() ==> (#[trigger] self@[a]).0.len() == n);
                            assert(forall|a: int|
                                0 <= a < self@.len() ==> (#[trigger] self@[a]).1.len() >= 1);
                        };
                    }
                },
            }
            i += 1;
        }
        proof {
            assert(trained_positions(toks, nn) == count);
        }
    }

    /// Index of the entry whose window equals `w`, if any.
    fn find_window(&self, w: &Vec<String>) -> (r: Option<usize>)
        ensures
            match r {
                Some(i) => {
                    &&& 0 <= i < self@.len()
                    &&& self@[i as int].0 == w.deep_view()
                    &&& forall|l: int| 0 <= l < i ==> (#[trigger] self@[l]).0 != w.deep_view()
                },
                None => !has_window(self@, w.deep_view()),
            },
    {
        let n = self.ngrams.len();
        let mut j: usize = 0;
        while j < n
            invariant
                n == self.ngrams@.len(),
                j <= n,
                forall|l: int| 0 <= l < j ==> (#[trigger] self@[l]).0 != w.deep_view(),
            decreases n - j,
        {
            proof {
                assert(self@[j as int].0 == self.ngrams@[j as int].0.deep_view());
            }
            if tokens_eq(&self.ngrams[j].0, w) {
                return Some(j);
            }
            j += 1;
        }
        None
    }

    /// Chooses a uniformly random window of the model as the seed of
    /// a generation run; `None` when the model has no windows.
    pub fn choose_seed(&self) -> (r: Option<Vec<String>>)
        requires
            self.wf(),
        ensures
            match r {
                Some(w) => self@.len() > 0 && (exists|i: int|
                    0 <= i < self@.len() && w.deep_view() == self@[i].0),
                None => self@.len() == 0,
            },
    {
        let len = self.ngrams.len();
        if len == 0 {
            return None;
        }
        let idx = crate::rng::random_index(len);
        let seed = clone_tokens(&self.ngrams[idx].0);
        proof {
            assert(seed.deep_view() == self@[idx as int].0);
        }
        Some(seed)
    }

    /// Extends a random seed window of the model by up to `size`
    /// sampled tokens: each step draws uniformly from the counter of
    /// the window formed by the last `n` tokens, appends the selected
    /// continuation, and slides the window forward; the walk stops
    /// early when it reaches a window the model does not know. On a
    /// model with no windows it reports the empty-model failure.
    pub fn generate(&self, size: usize) -> (r: Result<Vec<String>, ModelError>)
        requires
            self.wf(),
        ensures
            match r {
                Ok(out) => {
                    &&& self@.len() > 0
                    &&& out.deep_view().len() >= self.window_size()
                    &&& out.deep_view().len() <= self.window_size() + size
                    &&& (exists|i: int|
                        0 <= i < self@.len() && out.deep_view().subrange(
                            0,
                            self.window_size() as int,
                        ) == self@[i].0)
                    &&& (forall|j: int|
                        self.window_size() <= j < out.deep_view().len() ==> model_count(
                            self@,
                            out.deep_view().subrange(j - self.window_size(), j),
                            #[trigger] out.deep_view()[j],
                        ) >= 1)
                    &&& (out.deep_view().len() < self.window_size() + size ==> !has_window(
                        self@,
                        out.deep_view().subrange(
                            out.deep_view().len() - self.window_size(),
                            out.deep_view().len() as int,
                        ),
                    ))
                },
                Err(e) => e == ModelError::EmptyModel && self@.len() == 0,
            },
    {
        let n = self.n;
        let ghost nn = n as int;
        let len = self.ngrams.len();
        if len == 0 {
            return Err(ModelError::EmptyModel);
        }
        let dists = self.build_distributions();
        let seed_idx = crate::rng::random_index(len);
        let mut out = clone_tokens(&self.ngrams[seed_idx].0);
        proof {
            self.lemma_wf_model();
            assert(out.deep_view() == self@[seed_idx as int].0);
            assert(out.deep_view().subrange(0, nn) =~= out.deep_view());
        }
        let mut steps: usize = 0;
        let mut stopped = false;
        while steps < size && !stopped
            invariant
                self.wf(),
                nn == n as int,
                n == self.window_size(),
                len == self.ngrams@.len(),
                len >= 1,
                dists@.len() == len,
                forall|l: int|
                    0 <= l < len ==> (#[trigger] dists@[l]).deep_view() == spec_cdf(self@[l].1),
                steps <= size,
                out@.len() == out.deep_view().len(),
                out.deep_view().len() == n + steps,
                exists|i0: int|
                    0 <= i0 < self@.len() && out.deep_view().subrange(0, nn) == self@[i0].0,
                forall|jj: int|
                    nn <= jj < out.deep_view().len() ==> model_count(
                        self@,
                        out.deep_view().subrange(jj - nn, jj),
                        #[trigger] out.deep_view()[jj],
                    ) >= 1,
                stopped ==> !has_window(
                    self@,
                    out.deep_view().subrange(
                        out.deep_view().len() - nn,
                        out.deep_view().len() as int,
                    ),
                ),
            decreases size - steps + if stopped {
                0int
            } else {
                1int
            },
        {
            let start = out.len() - n;
            let cur = clone_window(&out, start, n);
            match self.find_window(&cur) {
                None => {
                    stopped = true;
                },
                Some(idx) => {
                    proof {
                        self.lemma_wf_model();
                        lemma_counter_entries_at(self@, idx as int);
                        assert(self@[idx as int].1 == self.ngrams@[idx as int].1@);
                        lemma_wf_entries(self.ngrams@[idx as int].1);
                    }
                    let total = self.ngrams[idx].1.total();
                    let draw = crate::rng::random_draw(total);
                    let ghost entries = self@[idx as int].1;
                    let ghost d = dists@[idx as int].deep_view();
                    proof {
                        assert(d == spec_cdf(entries));
                        assert(d.len() == entries.len());
                        assert(d[d.len() - 1].1 == prefix_sum(entries, entries.len() as int)
                            as u64);
                        assert(d[d.len() - 1].1 >= draw);
                    }
                    let choice = pick_from_distribution(&dists[idx], draw);
                    match choice {
                        Some(word) => {
                            let ghost k = first_reaching(d, draw);
                            let ghost olddv = out.deep_view();
                            proof {
                                lemma_first_reaching_bounds(d, draw);
                                assert(k < d.len());
                                assert(word@ == d[k].0);
                                assert(d[k].0 == entries[k].0);
                                lemma_count_in_first_match(entries, entries[k].0, k);
                                assert(count_in(entries, word@) >= 1);
                                assert(cur.deep_view() == olddv.subrange(
                                    start as int,
                                    start as int + nn,
                                ));
                                assert(counter_entries_of(self@, cur.deep_view()) == entries);
                                assert(model_count(self@, cur.deep_view(), word@) >= 1);
                            }
                            out.push(word);
                            steps += 1;
                            proof {
                                let newdv = out.deep_view();
                                assert(newdv =~= olddv.push(d[k].0));
                                assert(newdv.subrange(0, nn) =~= olddv.subrange(0, nn));
                                assert forall|jj: int|
                                    nn <= jj < newdv.len() implies model_count(
                                    self@,
                                    newdv.subrange(jj - nn, jj),
                                    #[trigger] newdv[jj],
                                ) >= 1 by {
                                    if jj < newdv.len() - 1 {
                                        assert(newdv.subrange(jj - nn, jj) =~= olddv.subrange(
                                            jj - nn,
                                            jj,
                                        ));
                                        assert(newdv[jj] == olddv[jj]);
                                    } else {
                                        assert(newdv.subrange(jj - nn, jj) =~= olddv.subrange(
                                            start as int,
                                            start as int + nn,
                                        ));
                                        assert(newdv[jj] == word@);
                                    }
                                }
                            }
                        },
                        None => {
                            proof {
                                lemma_first_reaching_bounds(d, draw);
                                assert(d[d.len() - 1].1 < draw);
                                assert(false);
                            }
                            stopped = true;
                        },
                    }
                },
            }
        }
        Ok(out)
    }

    /// The deterministic core of generation, with the random source
    /// made explicit: the seed is the window at `seed_index` (taken
    /// modulo the number of windows) and step `j` consumes `draws[j]`
    /// as its draw. The result is exactly the walk those draws
    /// determine; it stops early when a window is unknown, a draw
    /// reaches no entry, or the draws run out.
    pub fn generate_with_draws(&self, seed_index: usize, draws: &Vec<u64>, size: usize) -> (r:
        Result<Vec<String>, ModelError>)
        requires
            self.wf(),
        ensures
            match r {
                Ok(out) => self@.len() > 0 && out.deep_view() == spec_walk(
                    self@,
                    self.window_size() as int,
                    self@[(seed_index as int) % (self@.len() as int)].0,
                    draws@,
                    size as int,
                ),
                Err(e) => e == ModelError::EmptyModel && self@.len() == 0,
            },
    {
        let n = self.n;
        let ghost nn = n as int;
        let len = self.ngrams.len();
        if len == 0 {
            return Err(ModelError::EmptyModel);
        }
        let dists = self.build_distributions();
        let sidx = seed_index % len;
        let mut out = clone_tokens(&self.ngrams[sidx].0);
        let ghost walk_total = spec_walk(self@, nn, self@[sidx as int].0, draws@, size as int);
        proof {
            self.lemma_wf_model();
            assert(out.deep_view() == self@[sidx as int].0);
            assert((seed_index as int) % (self@.len() as int) == sidx as int);
            assert(draws@.skip(0) =~= draws@);
        }
        let mut steps: usize = 0;
        let mut stopped = false;
        while steps < size && steps < draws.len() && !stopped
            invariant
                self.wf(),
                nn == n as int,
                n == self.window_size(),
                len == self.ngrams@.len(),
                len >= 1,
                dists@.len() == len,
                forall|l: int|
                    0 <= l < len ==> (#[trigger] dists@[l]).deep_view() == spec_cdf(self@[l].1),
                steps <= size,
                steps <= draws@.len(),
                out@.len() == out.deep_view().len(),
                out.deep_view().len() == n + steps,
                !stopped ==> walk_total == spec_walk(
                    self@,
                    nn,
                    out.deep_view(),
                    draws@.skip(steps as int),
                    size - steps,
                ),
                stopped ==> out.deep_view() == walk_total,
            decreases size - steps + if stopped {
                0int
            } else {
                1int
            },
        {
            let ghost st0 = steps as int;
            let start = out.len() - n;
            let cur = clone_window(&out, start, n);
            let ghost acc = out.deep_view();
            let ghost rem = draws@.skip(st0);
            let draw = draws[steps];
            proof {
                assert(rem[0] == draws@[st0]);
                assert(acc.subrange(acc.len() - nn, acc.len() as int) == cur.deep_view()) by {
                    assert(cur.deep_view() == acc.subrange(start as int, start as int + nn));
                    assert(acc.subrange(acc.len() - nn, acc.len() as int) =~= acc.subrange(
                        start as int,
                        start as int + nn,
                    ));
                };
            }
            match self.find_window(&cur) {
                None => {
                    proof {
                        assert(spec_step(self@, cur.deep_view(), rem[0]) is None);
                        assert(spec_walk(self@, nn, acc, rem, size - st0) == acc);
                    }
                    stopped = true;
                },
                Some(idx) => {
                    proof {
                        self.lemma_wf_model();
                        lemma_counter_entries_at(self@, idx as int);
                    }
                    let ghost entries = self@[idx as int].1;
                    let ghost d = dists@[idx as int].deep_view();
                    let choice = pick_from_distribution(&dists[idx], draw);
                    let ghost k = first_reaching(d, draw);
                    proof {
                        assert(d == spec_cdf(entries));
                        assert(self@[idx as int].0 == cur.deep_view());
                        assert(has_window(self@, cur.deep_view()));
                        assert(counter_entries_of(self@, cur.deep_view()) == entries);
                        lemma_first_reaching_bounds(d, draw);
                    }
                    match choice {
                        Some(word) => {
                            proof {
                                assert(k < d.len());
                                assert(spec_step(self@, cur.deep_view(), rem[0]) == Some(
                                    d[k].0,
                                ));
                                assert(word@ == d[k].0);
                            }
                            out.push(word);
                            steps += 1;
                            proof {
                                assert(out.deep_view() =~= acc.push(d[k].0));
                                assert(rem.drop_first() =~= draws@.skip(st0 + 1));
                                assert(spec_walk(self@, nn, acc, rem, size - st0) == spec_walk(
                                    self@,
                                    nn,
                                    acc.push(d[k].0),
                                    rem.drop_first(),
                                    size - st0 - 1,
                                ));
                            }
                        },
                        None => {
                            proof {
                                assert(k == d.len());
                                assert(spec_step(self@, cur.deep_view(), rem[0]) is None);
                                assert(spec_walk(self@, nn, acc, rem, size - st0) == acc);
                            }
                            stopped = true;
                        },
                    }
                },
            }
        }
        proof {
            if !stopped {
                assert(spec_walk(
                    self@,
                    nn,
                    out.deep_view(),
                    draws@.skip(steps as int),
                    size - steps,
                ) == out.deep_view());
            }
        }
        Ok(out)
    }

    /// The (token, count) pairs accumulated for `window`, in entry
    /// order, if the model knows that window.
    pub fn continuations(&self, window: &Vec<String>) -> (r: Option<crate::counter::Counts>)
        requires
            self.wf(),
        ensures
            match r {
                Some(c) => {
                    &&& has_window(self@, window.deep_view())
                    &&& c.wf()
                    &&& c.remaining() == counter_entries_of(self@, window.deep_view())
                },
                None => !has_window(self@, window.deep_view()),
            },
    {
        match self.find_window(window) {
            Some(idx) => {
                proof {
                    lemma_counter_entries_at(self@, idx as int);
                    assert(self@[idx as int].1 == self.ngrams@[idx as int].1@);
                    assert(has_window(self@, window.deep_view()));
                }
                Some(self.ngrams[idx].1.counts())
            },
            None => None,
        }
    }

    /// The number of windows the model has recorded.
    pub fn window_count(&self) -> (r: usize)
        ensures
            r == self@.len(),
    {
        self.ngrams.len()
    }

    /// The configured window size.
    pub fn n(&self) -> (r: usize)
        ensures
            r == self.window_size(),
    {
        self.n
    }

    /// The cumulative distribution of every window's counter, in the
    /// model's window order.
    fn build_distributions(&self) -> (dists: Vec<Vec<(String, u64)>>)
        requires
            self.wf(),
        ensures
            dists@.len() == self@.len(),
            forall|l: int|
                0 <= l < self@.len() ==> (#[trigger] dists@[l]).deep_view() == spec_cdf(
                    self@[l].1,
                ),
    {
        let len = self.ngrams.len();
        let mut dists: Vec<Vec<(String, u64)>> = Vec::new();
        let mut j: usize = 0;
        while j < len
            invariant
                self.wf(),
                len == self.ngrams@.len(),
                j <= len,
                dists@.len() == j,
                forall|l: int|
                    0 <= l < j ==> (#[trigger] dists@[l]).deep_view() == spec_cdf(self@[l].1),
            decreases len - j,
        {
            proof {
                assert(self@[j as int].1 == self.ngrams@[j as int].1@);
                lemma_wf_entries(self.ngrams@[j as int].1);
            }
            let d = cumulative_distribution(&self.ngrams[j].1);
            dists.push(d);
            j += 1;
        }
        dists
    }
}

/// The tokens joined into one sequence of characters, with a single
/// space between consecutive tokens.
pub open spec fn spec_join(toks: Seq<Seq<char>>) -> Seq<char>
    decreases toks.len(),
{
    if toks.len() == 0 {
        Seq::empty()
    } else if toks.len() == 1 {
        toks[0]
    } else {
        spec_join(toks.drop_last()) + seq![' '] + toks.last()
    }
}

/// Joins tokens into a single space-delimited string.
pub fn join_with_spaces(tokens: &Vec<String>) -> (s: String)
    ensures
        s@ == spec_join(tokens.deep_view()),
{
    let mut s = String::new();
    let n = tokens.len();
    let mut i: usize = 0;
    while i < n
        invariant
            n == tokens@.len(),
            i <= n,
            s@ == spec_join(tokens.deep_view().take(i as int)),
        decreases n - i,
    {
        let ghost dv = tokens.deep_view();
        let ghost pre = s@;
        if i > 0 {
            s.append(" ");
        }
        s.append(tokens[i].as_str());
        proof {
            reveal_strlit(" ");
            assert(" "@ =~= seq![' ']);
            assert(dv[i as int] == tokens@[i as int]@);
            assert(dv.take(i as int + 1).drop_last() =~= dv.take(i as int));
            assert(dv.take(i as int + 1).last() == dv[i as int]);
            if i == 0 {
                assert(dv.take(0int) =~= Seq::<Seq<char>>::empty());
                assert(pre =~= Seq::<char>::empty());
                assert(s@ =~= dv.take(1int)[0]);
            } else {
                assert(dv.take(i as int + 1).len() >= 2);
                assert(s@ == pre + seq![' '] + dv[i as int]);
            }
        }
        i += 1;
    }
    proof {
        assert(tokens.deep_view().take(n as int) =~= tokens.deep_view());
    }
    s
}

/// Every window that arises along a generated sequence is known to
/// the model, as long as every observed continuation of a known
/// window leads again to a known window.
pub proof fn lemma_windows_known_upto(m: ModelView, n: int, out: Seq<Seq<char>>, j: int)
    requires
        n >= 1,
        n <= j <= out.len(),
        exists|i: int| 0 <= i < m.len() && out.subrange(0, n) == m[i].0,
        forall|jj: int|
            n <= jj < out.len() ==> model_count(m, out.subrange(jj - n, jj), #[trigger] out[jj])
                >= 1,
        forall|w: Seq<Seq<char>>, t: Seq<char>|
            has_window(m, w) && model_count(m, w, t) >= 1 ==> #[trigger] has_window(
                m,
                w.drop_first().push(t),
            ),
    ensures
        has_window(m, out.subrange(j - n, j)),
    decreases j,
{
    if j == n {
        let i = choose|i: int| 0 <= i < m.len() && out.subrange(0, n) == m[i].0;
        assert(m[i].0 == out.subrange(0, n));
    } else {
        lemma_windows_known_upto(m, n, out, j - 1);
        let wp = out.subrange(j - 1 - n, j - 1);
        assert(model_count(m, wp, out[j - 1]) >= 1);
        assert(has_window(m, wp.drop_first().push(out[j - 1])));
        assert(wp.drop_first().push(out[j - 1]) =~= out.subrange(j - n, j));
    }
}

/// Law: on a model closed under its own continuations (every observed
/// continuation of a known window leads again to a known window), a
/// generated sequence that may stop early only at an unknown window
/// has the full requested length.
pub proof fn lemma_closed_model_full_length(
    m: ModelView,
    n: int,
    out: Seq<Seq<char>>,
    size: int,
)
    requires
        n >= 1,
        size >= 0,
        n <= out.len() <= n + size,
        exists|i: int| 0 <= i < m.len() && out.subrange(0, n) == m[i].0,
        forall|jj: int|
            n <= jj < out.len() ==> model_count(m, out.subrange(jj - n, jj), #[trigger] out[jj])
                >= 1,
        out.len() < n + size ==> !has_window(m, out.subrange(out.len() - n, out.len() as int)),
        forall|w: Seq<Seq<char>>, t: Seq<char>|
            has_window(m, w) && model_count(m, w, t) >= 1 ==> #[trigger] has_window(
                m,
                w.drop_first().push(t),
            ),
    ensures
        out.len() == n + size,
{
    lemma_windows_known_upto(m, n, out, out.len() as int);
}

/// Copies a token vector.
fn clone_tokens(v: &Vec<String>) -> (w: Vec<String>)
    ensures
        w.deep_view() == v.deep_view(),
        w@.len() == v@.len(),
{
    let w = clone_window(v, 0, v.len());
    proof {
        assert(v.deep_view().subrange(0, v.deep_view().len() as int) =~= v.deep_view());
    }
    w
}

} // verus!
