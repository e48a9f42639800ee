use markov::counter::Counter;
use markov::dist::{cumulative_distribution, pick_from_distribution};

fn counter_of(words: &[&str]) -> Counter {
    let mut c = Counter::new();
    for w in words {
        c.increment(w.to_string());
    }
    c
}

#[test]
fn cumulative_values_never_decrease_and_end_at_total() {
    let c = counter_of(&["a", "b", "b", "c", "b"]);
    let d = cumulative_distribution(&c);
    assert_eq!(d.len(), 3);
    for k in 1..d.len() {
        assert!(d[k - 1].1 <= d[k].1);
    }
    assert_eq!(d[d.len() - 1].1, c.total());
    assert_eq!(
        d,
        vec![
            ("a".to_string(), 1),
            ("b".to_string(), 4),
            ("c".to_string(), 5)
        ]
    );
}

#[test]
fn empty_counter_gives_empty_distribution() {
    let c = Counter::new();
    let d = cumulative_distribution(&c);
    assert!(d.is_empty());
    assert_eq!(pick_from_distribution(&d, 1), None);
}

#[test]
fn lowest_draw_selects_first_entry() {
    let c = counter_of(&["first", "second", "second"]);
    let d = cumulative_distribution(&c);
    assert_eq!(pick_from_distribution(&d, 0), Some("first".to_string()));
    assert_eq!(pick_from_distribution(&d, 1), Some("first".to_string()));
}

#[test]
fn total_draw_selects_last_entry() {
    let c = counter_of(&["first", "second", "second", "third"]);
    let d = cumulative_distribution(&c);
    assert_eq!(
        pick_from_distribution(&d, c.total()),
        Some("third".to_string())
    );
}

#[test]
fn draw_beyond_total_selects_nothing() {
    let c = counter_of(&["only"]);
    let d = cumulative_distribution(&c);
    assert_eq!(pick_from_distribution(&d, 2), None);
}

#[test]
fn draw_lands_on_first_entry_reaching_it() {
    let c = counter_of(&["a", "b", "b", "c"]);
    let d = cumulative_distribution(&c);
    assert_eq!(pick_from_distribution(&d, 2), Some("b".to_string()));
    assert_eq!(pick_from_distribution(&d, 3), Some("b".to_string()));
    assert_eq!(pick_from_distribution(&d, 4), Some("c".to_string()));
}
