use markov::counter::Counter;

fn s(x: &str) -> String {
    x.to_string()
}

#[test]
fn new_counter_reports_zero() {
    let c = Counter::new();
    assert_eq!(c.get(&s("anything")), 0);
    assert_eq!(c.total(), 0);
}

#[test]
fn increment_accumulates_per_item() {
    let mut c = Counter::new();
    c.increment(s("a"));
    c.increment(s("b"));
    c.increment(s("a"));
    assert_eq!(c.get(&s("a")), 2);
    assert_eq!(c.get(&s("b")), 1);
    assert_eq!(c.get(&s("c")), 0);
    assert_eq!(c.total(), 3);
}

#[test]
fn total_equals_sum_of_counts() {
    let mut c = Counter::new();
    for w in ["x", "y", "x", "z", "x", "y"] {
        c.increment(s(w));
    }
    let mut it = c.counts();
    let mut sum: u64 = 0;
    let mut entries: Vec<(String, u64)> = Vec::new();
    while let Some(p) = it.next() {
        sum += p.1;
        entries.push(p);
    }
    assert_eq!(sum, c.total());
    assert_eq!(entries.len(), 3);
}

#[test]
fn counts_keeps_first_increment_order() {
    let mut c = Counter::new();
    c.increment(s("b"));
    c.increment(s("a"));
    c.increment(s("b"));
    let mut it = c.counts();
    assert_eq!(it.next(), Some((s("b"), 2)));
    assert_eq!(it.next(), Some((s("a"), 1)));
    assert_eq!(it.next(), None);
    assert_eq!(it.next(), None);
}
