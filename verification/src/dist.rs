//! Cumulative distributions over a counter's entries, and inverse-CDF
//! selection of an entry from a draw.

use vstd::prelude::*;
use crate::counter::{
    Counter, entries_wf, has_item, lemma_prefix_sum_mono, lemma_wf_entries, prefix_sum,
    sum_counts,
};

verus! {

/// The cumulative distribution of an entry sequence: each item paired
/// with the running sum of the counts up to and including its own.
pub open spec fn spec_cdf(entries: Seq<(Seq<char>, u64)>) -> Seq<(Seq<char>, u64)> {
    Seq::new(entries.len(), |k: int| (entries[k].0, prefix_sum(entries, k + 1) as u64))
}

/// Index of the first entry whose cumulative value reaches `draw`,
/// or the length of the distribution when none does.
pub open spec fn first_reaching(d: Seq<(Seq<char>, u64)>, draw: u64) -> int
    decreases d.len(),
{
    if d.len() == 0 {
        0
    } else if d[0].1 >= draw {
        0
    } else {
        1 + first_reaching(d.drop_first(), draw)
    }
}

/// `first_reaching` is the index of the first entry reaching `draw`.
pub proof fn lemma_first_reaching_bounds(d: Seq<(Seq<char>, u64)>, draw: u64)
    ensures
        0 <= first_reaching(d, draw) <= d.len(),
        first_reaching(d, draw) < d.len() ==> d[first_reaching(d, draw)].1 >= draw,
        forall|j: int| 0 <= j < first_reaching(d, draw) ==> (#[trigger] d[j]).1 < draw,
    decreases d.len(),
{
    if d.len() > 0 && d[0].1 < draw {
        lemma_first_reaching_bounds(d.drop_first(), draw);
        assert forall|j: int| 0 <= j < first_reaching(d, draw) implies (#[trigger] d[j]).1
            < draw by {
            if j > 0 {
                assert(d.drop_first()[j - 1] == d[j]);
            }
        }
    }
}

/// An index below which every cumulative value misses `draw`, and
/// which itself reaches it (or is the length), is `first_reaching`.
pub proof fn lemma_first_reaching_is(d: Seq<(Seq<char>, u64)>, draw: u64, i: int)
    requires
        0 <= i <= d.len(),
        forall|j: int| 0 <= j < i ==> (#[trigger] d[j]).1 < draw,
        i < d.len() ==> d[i].1 >= draw,
    ensures
        first_reaching(d, draw) == i,
    decreases d.len(),
{
    if d.len() > 0 && d[0].1 < draw {
        assert(forall|j: int| 0 <= j < d.drop_first().len() ==> d.drop_first()[j] == d[j + 1]);
        lemma_first_reaching_is(d.drop_first(), draw, i - 1);
    }
}

/// Converts a counter into its cumulative distribution, iterating the
/// counter's entries in their stored order. Cumulative values strictly
/// increase along the result and the final one equals the counter's
/// total.
pub fn cumulative_distribution(counter: &Counter) -> (d: Vec<(String, u64)>)
    requires
        counter.wf(),
    ensures
        d.deep_view() == spec_cdf(counter@),
        forall|a: int, b: int|
            0 <= a < b < d.deep_view().len() ==> (#[trigger] d.deep_view()[a]).1
                < (#[trigger] d.deep_view()[b]).1,
        d.deep_view().len() > 0 ==> d.deep_view()[d.deep_view().len() - 1].1 as int == sum_counts(
            counter@,
        ),
{
    proof {
        lemma_wf_entries(*counter);
    }
    let ghost s = counter@;
    let mut it = counter.counts();
    let mut d: Vec<(String, u64)> = Vec::new();
    let mut cum: u64 = 0;
    let mut going = true;
    while going
        invariant
            it.wf(),
            going ==> it.remaining() =~= s.skip(d.deep_view().len() as int),
            !going ==> it.remaining().len() == 0 && d.deep_view().len() == s.len(),
            d.deep_view().len() <= s.len(),
            entries_wf(s),
            sum_counts(s) <= u64::MAX,
            cum as int == prefix_sum(s, d.deep_view().len() as int),
            forall|l: int|
                0 <= l < d.deep_view().len() ==> (#[trigger] d.deep_view()[l]) == (
                s[l].0,
                prefix_sum(s, l + 1) as u64,
                ),
        decreases it.remaining().len() + (if going { 1int } else { 0int }),
    {
        let ghost done = d.deep_view().len() as int;
        match it.next() {
            Some(p) => {
                proof {
                    assert(it.remaining() =~= s.skip(done).drop_first());
                    assert(s.skip(done)[0] == s[done]);
                    lemma_prefix_sum_mono(s, 0, done + 1);
                    lemma_prefix_sum_mono(s, done + 1, s.len() as int);
                    assert(prefix_sum(s, done + 1) == prefix_sum(s, done) + s[done].1);
                }
                let ghost old_dv = d.deep_view();
                cum = cum + p.1;
                d.push((p.0, cum));
                proof {
                    assert(d.deep_view().len() == done + 1);
                    assert(d.deep_view()[done] == (s[done].0, prefix_sum(s, done + 1) as u64));
                    assert forall|l: int| 0 <= l < done implies (#[trigger] d.deep_view()[l]) == (
                    s[l].0,
                    prefix_sum(s, l + 1) as u64,
                    ) by {
                        assert(d.deep_view()[l] == old_dv[l]);
                    };
                    assert(it.remaining() =~= s.skip(done + 1));
                }
            },
            None => {
                proof {
                    assert(s.skip(done).len() == 0);
                }
                going = false;
            },
        }
    }
    proof {
        assert(d.deep_view() =~= spec_cdf(s));
        assert forall|a: int, b: int| 0 <= a < b < d.deep_view().len() implies (
        #[trigger] d.deep_view()[a]).1 < (#[trigger] d.deep_view()[b]).1 by {
            lemma_prefix_sum_mono(s, a + 1, b);
            assert(prefix_sum(s, b + 1) == prefix_sum(s, b) + s[b].1);
            assert(s[b].1 >= 1);
            lemma_prefix_sum_mono(s, 0, a + 1);
            lemma_prefix_sum_mono(s, b + 1, s.len() as int);
        };
        if d.deep_view().len() > 0 {
            assert(d.deep_view()[s.len() - 1].1 as int == prefix_sum(s, s.len() as int)) by {
                lemma_prefix_sum_mono(s, 0, s.len() as int);
            };
        }
    }
    d
}

/// Scans a distribution in stored order and selects the first entry
/// whose cumulative value reaches `draw`; `None` when the distribution
/// is empty or no entry reaches it.
pub fn pick_from_distribution(dist: &Vec<(String, u64)>, draw: u64) -> (r: Option<String>)
    ensures
        ({
            let d = dist.deep_view();
            let k = first_reaching(d, draw);
            match r {
                Some(t) => k < d.len() && t@ == d[k].0,
                None => k == d.len(),
            }
        }),
{
    let n = dist.len();
    let mut j: usize = 0;
    while j < n
        invariant
            n == dist.len(),
            j <= n,
            dist.deep_view().len() == n,
            forall|l: int| 0 <= l < j ==> (#[trigger] dist.deep_view()[l]).1 < draw,
        decreases n - j,
    {
        proof {
            assert(dist.deep_view()[j as int] == (dist@[j as int].0@, dist@[j as int].1));
        }
        if dist[j].1 >= draw {
            proof {
                lemma_first_reaching_is(dist.deep_view(), draw, j as int);
            }
            return Some(dist[j].0.clone());
        }
        j += 1;
    }
    proof {
        lemma_first_reaching_is(dist.deep_view(), draw, n as int);
    }
    None
}

/// Law: a draw no greater than the first cumulative value always
/// selects the first entry.
pub proof fn lemma_draw_low_selects_first(d: Seq<(Seq<char>, u64)>, draw: u64)
    requires
        d.len() > 0,
        draw <= d[0].1,
    ensures
        first_reaching(d, draw) == 0,
{
}

/// Law: when cumulative values strictly increase along a distribution,
/// a draw equal to the final cumulative value selects the last entry.
pub proof fn lemma_draw_total_selects_last(d: Seq<(Seq<char>, u64)>, draw: u64)
    requires
        d.len() > 0,
        draw == d[d.len() - 1].1,
        forall|a: int, b: int| 0 <= a < b < d.len() ==> (#[trigger] d[a]).1 < (#[trigger] d[b]).1,
    ensures
        first_reaching(d, draw) == d.len() - 1,
{
    lemma_first_reaching_is(d, draw, d.len() - 1);
}

} // verus!
