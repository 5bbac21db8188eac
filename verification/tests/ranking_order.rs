use wordle_solver::ranking::sort_by_score;

fn scored(ps: &[(&str, i64)]) -> Vec<(String, i64)> {
    ps.iter().map(|(w, s)| (w.to_string(), *s)).collect()
}

#[test]
fn sort_orders_ascending_by_score() {
    let r = sort_by_score(scored(&[("DELTA", 3), ("ALPHA", 1), ("GAMMA", 2)]));
    assert_eq!(r, scored(&[("ALPHA", 1), ("GAMMA", 2), ("DELTA", 3)]));
}

#[test]
fn sort_keeps_first_seen_order_on_ties() {
    let r = sort_by_score(scored(&[
        ("DELTA", 2),
        ("ALPHA", 1),
        ("GAMMA", 2),
        ("BRAVO", 1),
    ]));
    assert_eq!(
        r,
        scored(&[("ALPHA", 1), ("BRAVO", 1), ("DELTA", 2), ("GAMMA", 2)])
    );
}

#[test]
fn sort_of_empty_and_singleton() {
    assert_eq!(sort_by_score(Vec::new()), Vec::new());
    assert_eq!(sort_by_score(scored(&[("ALPHA", 7)])), scored(&[("ALPHA", 7)]));
}
