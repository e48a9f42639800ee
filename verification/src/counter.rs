//! A frequency counter: a multiset of string items, each with an
//! occurrence count, together with a running total of all counts.

use vstd::prelude::*;

verus! {

/// Sum of the counts of the first `upto` entries.
pub open spec fn prefix_sum(s: Seq<(Seq<char>, u64)>, upto: int) -> int
    decreases upto,
{
    if upto <= 0 {
        0
    } else {
        prefix_sum(s, upto - 1) + s[upto - 1].1
    }
}

/// Sum of all counts stored in an entry sequence.
pub open spec fn sum_counts(s: Seq<(Seq<char>, u64)>) -> int {
    prefix_sum(s, s.len() as int)
}

/// The count recorded for `key`: the count of the first entry whose
/// item equals `key`, or 0 when no entry has it.
pub open spec fn count_in(s: Seq<(Seq<char>, u64)>, key: Seq<char>) -> int
    decreases s.len(),
{
    if s.len() == 0 {
        0
    } else if s[0].0 == key {
        s[0].1 as int
    } else {
        count_in(s.drop_first(), key)
    }
}

/// Whether some entry records the item `key`.
pub open spec fn has_item(s: Seq<(Seq<char>, u64)>, key: Seq<char>) -> bool {
    exists|i: int| 0 <= i < s.len() && s[i].0 == key
}

/// Well-formed entries: items are pairwise distinct and every stored
/// count is at least 1.
pub open spec fn entries_wf(s: Seq<(Seq<char>, u64)>) -> bool {
    &&& forall|i: int, j: int| 0 <= i < j < s.len() ==> s[i].0 != s[j].0
    &&& forall|i: int| 0 <= i < s.len() ==> (#[trigger] s[i]).1 >= 1
}

/// Counts string items. The view is the sequence of (item, count)
/// entries in first-increment order.
pub struct Counter {
    entries: Vec<(String, u64)>,
    total: u64,
}

impl View for Counter {
    type V = Seq<(Seq<char>, u64)>;

    closed spec fn view(&self) -> Seq<(Seq<char>, u64)> {
        self.entries.deep_view()
    }
}

impl Counter {
    /// Well-formed: entries are well-formed and the running total
    /// equals the sum of all counts.
    pub closed spec fn wf(self) -> bool {
        &&& entries_wf(self@)
        &&& self.total as int == sum_counts(self@)
    }

    /// The running total, as a specification value.
    pub closed spec fn spec_total(self) -> u64 {
        self.total
    }

    pub fn new() -> (c: Counter)
        ensures
            c.wf(),
            c@ =~= Seq::<(Seq<char>, u64)>::empty(),
    {
        let c = Counter { entries: Vec::new(), total: 0 };
        proof {
            assert(c@ =~= Seq::<(Seq<char>, u64)>::empty());
        }
        c
    }

    /// Returns the stored count for `key`, or 0 if it was never observed.
    pub fn get(&self, key: &String) -> (r: u64)
        ensures
            r as int == count_in(self@, key@),
    {
        let n = self.entries.len();
        let mut j: usize = 0;
        while j < n
            invariant
                n == self.entries.len(),
                j <= n,
                forall|l: int| 0 <= l < j ==> (#[trigger] self@[l]).0 != key@,
            decreases n - j,
        {
            assert(self@[j as int].0 == self.entries[j as int].0@);
            if self.entries[j].0 == *key {
                proof {
                    lemma_count_in_first_match(self@, key@, j as int);
                }
                return self.entries[j].1;
            }
            j += 1;
        }
        proof {
            lemma_count_in_absent(self@, key@);
        }
        0
    }

    /// Index of the first entry recording `key`, if any.
    fn find_entry(&self, key: &String) -> (r: Option<usize>)
        ensures
            match r {
                Some(i) => {
                    &&& 0 <= i < self@.len()
                    &&& self@[i as int].0 == key@
                    &&& forall|l: int| 0 <= l < i ==> (#[trigger] self@[l]).0 != key@
                },
                None => !has_item(self@, key@),
            },
    {
        let n = self.entries.len();
        let mut j: usize = 0;
        while j < n
            invariant
                n == self.entries.len(),
                j <= n,
                forall|l: int| 0 <= l < j ==> (#[trigger] self@[l]).0 != key@,
            decreases n - j,
        {
            assert(self@[j as int].0 == self.entries[j as int].0@);
            if self.entries[j].0 == *key {
                return Some(j);
            }
            j += 1;
        }
        None
    }

    /// Adds 1 to the count of `key` (inserting it with count 1 when
    /// absent) and 1 to the running total.
    pub fn increment(&mut self, key: String)
        requires
            old(self).wf(),
            sum_counts(old(self)@) < u64::MAX,
        ensures
            final(self).wf(),
            count_in(final(self)@, key@) == count_in(old(self)@, key@) + 1,
            forall|k: Seq<char>| k != key@ ==> count_in(final(self)@, k) == count_in(
                old(self)@,
                k,
            ),
            sum_counts(final(self)@) == sum_counts(old(self)@) + 1,
            final(self).spec_total() == old(self).spec_total() + 1,
            forall|k: Seq<char>| #[trigger] has_item(final(self)@, k) <==> (has_item(
                old(self)@,
                k,
            ) || k == key@),
            old(self)@.len() <= final(self)@.len() <= old(self)@.len() + 1,
            forall|i: int| 0 <= i < old(self)@.len() ==> (#[trigger] final(self)@[i]).0 == old(
                self,
            )@[i].0,
    {
        let ghost s0 = self@;
        match self.find_entry(&key) {
            Some(i) => {
                proof {
                    lemma_entry_le_sum(s0, i as int);
                    lemma_count_in_first_match(s0, key@, i as int);
                }
                let e = &mut self.entries[i];
                let ghost oldcount = e.1;
                e.1 = e.1 + 1;
                self.total = self.total + 1;
                proof {
                    let ghost v = (key@, (oldcount + 1) as u64);
                    assert(self@ =~= s0.update(i as int, v)) by {
                        assert(forall|l: int|
                            0 <= l < self@.len() && l != i ==> self@[l]
                                == s0.update(i as int, v)[l]);
                    };
                    lemma_prefix_sum_update(s0, i as int, v, s0.len() as int);
                    assert forall|k: Seq<char>| k != key@ implies count_in(self@, k) == count_in(
                        s0,
                        k,
                    ) by {
                        lemma_count_in_update(s0, i as int, v, k);
                    };
                    lemma_count_in_update(s0, i as int, v, key@);
                    lemma_has_item_same_keys(s0, self@);
                    assert(has_item(self@, key@));
                }
            },
            None => {
                proof {
                    lemma_count_in_absent(s0, key@);
                }
                let ghost kview = key@;
                self.entries.push((key, 1));
                self.total = self.total + 1;
                proof {
                    let ghost p = (kview, 1u64);
                    assert(self@ =~= s0.push(p)) by {
                        assert(forall|l: int| 0 <= l < s0.len() ==> self@[l] == s0[l]);
                        assert(self@[s0.len() as int] == p);
                    };
                    lemma_sum_counts_push(s0, p);
                    assert forall|k: Seq<char>| k != kview implies count_in(self@, k) == count_in(
                        s0,
                        k,
                    ) by {
                        lemma_count_in_push(s0, p, k);
                        if !has_item(s0, k) {
                            lemma_count_in_absent(s0, k);
                        }
                    };
                    lemma_count_in_push(s0, p, kview);
                    assert forall|k: Seq<char>| #[trigger] has_item(self@, k) implies (has_item(
                        s0,
                        k,
                    ) || k == kview) by {
                        let w = choose|w: int| 0 <= w < self@.len() && self@[w].0 == k;
                        if w < s0.len() {
                            assert(s0[w].0 == k);
                        }
                    };
                    assert(has_item(self@, kview)) by {
                        assert(self@[s0.len() as int].0 == kview);
                    };
                    assert forall|k: Seq<char>| has_item(s0, k) implies #[trigger] has_item(
                        self@,
                        k,
                    ) by {
                        let w = choose|w: int| 0 <= w < s0.len() && s0[w].0 == k;
                        assert(self@[w].0 == k);
                    };
                }
            },
        }
    }

    /// Returns the running sum of all increments ever applied.
    pub fn total(&self) -> (r: u64)
        requires
            self.wf(),
        ensures
            r == self.spec_total(),
            r as int == sum_counts(self@),
    {
        self.total
    }

    /// Returns a one-shot sequence of all (item, count) pairs, in the
    /// counter's entry order.
    pub fn counts(&self) -> (c: Counts)
        ensures
            c.wf(),
            c.remaining() == self@,
    {
        let n = self.entries.len();
        let mut items: Vec<(String, u64)> = Vec::new();
        let mut j: usize = 0;
        while j < n
            invariant
                n == self.entries.len(),
                j <= n,
                items.deep_view().len() == j,
                forall|l: int| 0 <= l < j ==> items.deep_view()[l] == self@[l],
            decreases n - j,
        {
            let e = &self.entries[j];
            items.push((e.0.clone(), e.1));
            proof {
                assert(items.deep_view()[j as int] == self@[j as int]);
            }
            j += 1;
        }
        let c = Counts { items, pos: 0 };
        proof {
            assert(c.remaining() =~= self@);
        }
        c
    }
}

/// A one-shot sequence of the (item, count) pairs of a counter.
pub struct Counts {
    items: Vec<(String, u64)>,
    pos: usize,
}

impl Counts {
    /// Well-formed: the read position lies within the items.
    pub closed spec fn wf(self) -> bool {
        self.pos <= self.items.len()
    }

    /// The pairs not yet handed out.
    pub closed spec fn remaining(self) -> Seq<(Seq<char>, u64)> {
        self.items.deep_view().skip(self.pos as int)
    }

    /// Hands out the next (item, count) pair, or `None` when all
    /// pairs have been handed out.
    pub fn next(&mut self) -> (r: Option<(String, u64)>)
        requires
            old(self).wf(),
        ensures
            final(self).wf(),
            match r {
                Some(p) => {
                    &&& old(self).remaining().len() > 0
                    &&& p.0@ == old(self).remaining()[0].0
                    &&& p.1 == old(self).remaining()[0].1
                    &&& final(self).remaining() == old(self).remaining().drop_first()
                },
                None => {
                    &&& old(self).remaining().len() == 0
                    &&& final(self).remaining() == old(self).remaining()
                },
            },
    {
        if self.pos < self.items.len() {
            let e = &self.items[self.pos];
            let r = (e.0.clone(), e.1);
            proof {
                assert(self.items.deep_view()[self.pos as int] == (e.0@, e.1));
                assert(self.remaining()[0] == self.items.deep_view()[self.pos as int]);
                assert(self.items.deep_view().skip(self.pos + 1 as int) =~= self.remaining()
                    .drop_first());
            }
            self.pos = self.pos + 1;
            Some(r)
        } else {
            proof {
                assert(self.remaining() =~= self.items.deep_view().skip(self.pos as int));
            }
            None
        }
    }
}

/// A well-formed counter has well-formed entries, and its sum of
/// counts equals the running total, so the sum fits in a `u64`.
pub proof fn lemma_wf_entries(c: Counter)
    requires
        c.wf(),
    ensures
        entries_wf(c@),
        sum_counts(c@) == c.spec_total() as int,
        0 <= sum_counts(c@) <= u64::MAX,
{
}

/// Law: the running total reported by `total` equals the sum of all
/// counts reported by `counts`.
pub proof fn lemma_total_is_sum_of_counts(c: Counter)
    requires
        c.wf(),
    ensures
        c.spec_total() as int == sum_counts(c@),
{
}

/// Law: an item never passed to `increment` has count 0. A fresh
/// counter records no item and `increment(key)` records `key` alone,
/// so an item that no entry records was never incremented, and `get`
/// returns 0 for it.
pub proof fn lemma_never_incremented_is_zero(c: Counter, key: Seq<char>)
    requires
        !has_item(c@, key),
    ensures
        count_in(c@, key) == 0,
{
    lemma_count_in_absent(c@, key);
}

/// Prefix sums never decrease as the prefix grows.
pub proof fn lemma_prefix_sum_mono(s: Seq<(Seq<char>, u64)>, a: int, b: int)
    requires
        0 <= a <= b <= s.len(),
    ensures
        prefix_sum(s, a) <= prefix_sum(s, b),
    decreases b,
{
    if a < b {
        lemma_prefix_sum_mono(s, a, b - 1);
    }
}

/// Each stored count is at most the sum of all counts.
pub proof fn lemma_entry_le_sum(s: Seq<(Seq<char>, u64)>, i: int)
    requires
        0 <= i < s.len(),
    ensures
        s[i].1 <= sum_counts(s),
        sum_counts(s) >= 0,
{
    lemma_prefix_sum_mono(s, 0, i);
    lemma_prefix_sum_mono(s, i + 1, s.len() as int);
}

/// Appending an entry leaves the sums over the old entries unchanged.
pub proof fn lemma_prefix_sum_push(s: Seq<(Seq<char>, u64)>, p: (Seq<char>, u64), k: int)
    requires
        0 <= k <= s.len(),
    ensures
        prefix_sum(s.push(p), k) == prefix_sum(s, k),
    decreases k,
{
    if k > 0 {
        lemma_prefix_sum_push(s, p, k - 1);
    }
}

/// Appending an entry adds its count to the total sum.
pub proof fn lemma_sum_counts_push(s: Seq<(Seq<char>, u64)>, p: (Seq<char>, u64))
    ensures
        sum_counts(s.push(p)) == sum_counts(s) + p.1,
{
    lemma_prefix_sum_push(s, p, s.len() as int);
}

/// Replacing the entry at `i` shifts each prefix sum that covers `i`
/// by the difference of the counts.
pub proof fn lemma_prefix_sum_update(
    s: Seq<(Seq<char>, u64)>,
    i: int,
    v: (Seq<char>, u64),
    k: int,
)
    requires
        0 <= i < s.len(),
        0 <= k <= s.len(),
    ensures
        prefix_sum(s.update(i, v), k) == prefix_sum(s, k) + if i < k {
            v.1 - s[i].1
        } else {
            0
        },
    decreases k,
{
    if k > 0 {
        lemma_prefix_sum_update(s, i, v, k - 1);
    }
}

/// An item present in a sequence whose head records another item is
/// present in the tail, and conversely.
pub proof fn lemma_has_item_drop_first(s: Seq<(Seq<char>, u64)>, key: Seq<char>)
    requires
        s.len() > 0,
        s[0].0 != key,
    ensures
        has_item(s, key) <==> has_item(s.drop_first(), key),
{
    if has_item(s, key) {
        let i = choose|i: int| 0 <= i < s.len() && s[i].0 == key;
        assert(s.drop_first()[i - 1].0 == key);
    }
    if has_item(s.drop_first(), key) {
        let i = choose|i: int| 0 <= i < s.drop_first().len() && s.drop_first()[i].0 == key;
        assert(s[i + 1].0 == key);
    }
}

/// Sequences with the same items at the same positions record the
/// same items.
pub proof fn lemma_has_item_same_keys(s1: Seq<(Seq<char>, u64)>, s2: Seq<(Seq<char>, u64)>)
    requires
        s1.len() == s2.len(),
        forall|j: int| 0 <= j < s1.len() ==> (#[trigger] s1[j]).0 == s2[j].0,
    ensures
        forall|k: Seq<char>| #[trigger] has_item(s1, k) <==> #[trigger] has_item(s2, k),
{
    assert forall|k: Seq<char>| #[trigger] has_item(s1, k) <==> #[trigger] has_item(s2, k) by {
        if has_item(s1, k) {
            let i = choose|i: int| 0 <= i < s1.len() && s1[i].0 == k;
            assert(s2[i].0 == k);
        }
        if has_item(s2, k) {
            let i = choose|i: int| 0 <= i < s2.len() && s2[i].0 == k;
            assert(s1[i].0 == k);
        }
    }
}

/// Appending an entry: the count of an item already present is
/// unchanged; the appended item's count becomes visible otherwise.
pub proof fn lemma_count_in_push(
    s: Seq<(Seq<char>, u64)>,
    p: (Seq<char>, u64),
    key: Seq<char>,
)
    ensures
        count_in(s.push(p), key) == if has_item(s, key) {
            count_in(s, key)
        } else if p.0 == key {
            p.1 as int
        } else {
            0
        },
    decreases s.len(),
{
    if s.len() == 0 {
        assert(s.push(p)[0] == p);
        assert(s.push(p).drop_first() =~= Seq::<(Seq<char>, u64)>::empty());
        assert(count_in(Seq::<(Seq<char>, u64)>::empty(), key) == 0);
    } else {
        assert(s.push(p)[0] == s[0]);
        assert(s.push(p).drop_first() =~= s.drop_first().push(p));
        if s[0].0 == key {
            assert(has_item(s, key));
        } else {
            lemma_has_item_drop_first(s, key);
            lemma_count_in_push(s.drop_first(), p, key);
        }
    }
}

/// Replacing the entry at `i` by one with the same item: the count of
/// that item becomes the new count, all other counts are unchanged.
pub proof fn lemma_count_in_update(
    s: Seq<(Seq<char>, u64)>,
    i: int,
    v: (Seq<char>, u64),
    key: Seq<char>,
)
    requires
        0 <= i < s.len(),
        v.0 == s[i].0,
        forall|l: int| 0 <= l < i ==> (#[trigger] s[l]).0 != v.0,
    ensures
        count_in(s.update(i, v), key) == if key == v.0 {
            v.1 as int
        } else {
            count_in(s, key)
        },
    decreases i,
{
    let t = s.update(i, v);
    if i == 0 {
        assert(t[0] == v);
        if key != v.0 {
            assert(t.drop_first() =~= s.drop_first());
        }
    } else {
        assert(t[0] == s[0]);
        if s[0].0 == key {
        } else {
            assert(t.drop_first() =~= s.drop_first().update(i - 1, v));
            assert(forall|l: int|
                0 <= l < i - 1 ==> (#[trigger] s.drop_first()[l]).0 == s[l + 1].0);
            lemma_count_in_update(s.drop_first(), i - 1, v, key);
        }
    }
}

/// If the first `i` entries do not record `key` and entry `i` does,
/// then the count for `key` is the count stored at `i`.
pub proof fn lemma_count_in_first_match(s: Seq<(Seq<char>, u64)>, key: Seq<char>, i: int)
    requires
        0 <= i < s.len(),
        s[i].0 == key,
        forall|l: int| 0 <= l < i ==> (#[trigger] s[l]).0 != key,
    ensures
        count_in(s, key) == s[i].1 as int,
        has_item(s, key),
    decreases i,
{
    if i == 0 {
    } else {
        lemma_count_in_first_match(s.drop_first(), key, i - 1);
    }
}

/// An item recorded by no entry has count 0.
pub proof fn lemma_count_in_absent(s: Seq<(Seq<char>, u64)>, key: Seq<char>)
    requires
        !has_item(s, key),
    ensures
        count_in(s, key) == 0,
    decreases s.len(),
{
    if s.len() > 0 {
        assert(s[0].0 != key);
        assert(forall|i: int| 0 <= i < s.drop_first().len() ==> s.drop_first()[i] == s[i + 1]);
        lemma_count_in_absent(s.drop_first(), key);
    }
}

} // verus!
