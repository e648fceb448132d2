use guest_distance_calculator::calculator::GuestDistanceCalculator;
use guest_distance_calculator::distance::{Distance, TotalDistance, MATCHES_LIMIT, SCORE_UNIT};
use guest_distance_calculator::ranking::nearest_matches;

fn s(x: &str) -> String {
    x.to_string()
}

fn ids(xs: &[&str]) -> Vec<String> {
    xs.iter().map(|x| x.to_string()).collect()
}

fn points(d: &TotalDistance) -> f64 {
    let den = if d.thematics == 0 { 1 } else { d.thematics };
    d.sum as f64 / den as f64 / SCORE_UNIT as f64
}

fn example_store() -> GuestDistanceCalculator {
    let mut c = GuestDistanceCalculator::new();
    c.insert_thematic_ids(ids(&["food", "travel"]));
    c.insert_score(s("A"), s("food"), 1_000_000);
    c.insert_score(s("A"), s("travel"), 3_000_000);
    c.insert_score(s("B"), s("food"), 1_500_000);
    c.insert_score(s("B"), s("travel"), 3_500_000);
    c.insert_score(s("C"), s("food"), 5_000_000);
    c.insert_score(s("C"), s("travel"), 5_000_000);
    c.insert_other_guest_ids(ids(&["B", "C"]));
    c
}

#[test]
fn example_scenario_distances() {
    let c = example_store();
    let ab = c.calculate_total_distance(s("A"), s("B"));
    assert_eq!(ab, TotalDistance { sum: 1_000_000, thematics: 2 });
    assert_eq!(points(&ab), 0.5);
    let ac = c.calculate_total_distance(s("A"), s("C"));
    assert_eq!(ac, TotalDistance { sum: 6_000_000, thematics: 2 });
    assert_eq!(points(&ac), 3.0);
    assert!(ac.exceeds_threshold());
    assert!(!ab.exceeds_threshold());
}

#[test]
fn example_scenario_ranking() {
    let c = example_store();
    let r = c.calculate_distances(ids(&["A"]));
    assert_eq!(r.len(), 1);
    assert_eq!(r[0].guest_a_id, "A");
    assert_eq!(r[0].guest_b_id, "B");
    assert_eq!(points(&r[0].distance), 0.5);
}

#[test]
fn filtered_pair_is_absent() {
    let c = example_store();
    assert!(c.sum_distances_on_all_thematics(s("A"), s("C")).is_none());
    let d = c.sum_distances_on_all_thematics(s("A"), s("B")).unwrap();
    assert_eq!(d, Distance::new(s("A"), s("B"), TotalDistance { sum: 1_000_000, thematics: 2 }));
}

#[test]
fn overwrite_keeps_latest_score() {
    let mut c = GuestDistanceCalculator::new();
    c.insert_score(s("A"), s("food"), 1_000_000);
    c.insert_score(s("A"), s("food"), 4_000_000);
    assert_eq!(c.get_score(s("A"), s("food")), Some(4_000_000));
    c.insert_score(s("A"), s("travel"), -7);
    assert_eq!(c.get_score(s("A"), s("food")), Some(4_000_000));
    assert_eq!(c.get_score(s("A"), s("travel")), Some(-7));
}

#[test]
fn missing_score_is_none() {
    let mut c = GuestDistanceCalculator::new();
    assert_eq!(c.get_score(s("A"), s("food")), None);
    c.insert_score(s("A"), s("food"), 1);
    assert_eq!(c.get_score(s("A"), s("travel")), None);
    assert_eq!(c.get_score(s("B"), s("food")), None);
}

#[test]
fn repeated_topic_is_counted_once() {
    let mut c = GuestDistanceCalculator::new();
    c.insert_thematic_ids(ids(&["food", "food", "food"]));
    assert_eq!(c.calculate_total_distance(s("A"), s("B")).thematics, 1);
    c.insert_thematic_ids(ids(&["food", "travel", "travel"]));
    assert_eq!(c.calculate_total_distance(s("A"), s("B")).thematics, 2);
}

#[test]
fn repeated_candidate_is_ranked_once() {
    let mut c = GuestDistanceCalculator::new();
    c.insert_thematic_ids(ids(&["food"]));
    c.insert_other_guest_ids(ids(&["B", "B"]));
    c.insert_other_guest_ids(ids(&["B"]));
    let r = c.calculate_distances(ids(&["A"]));
    assert_eq!(r.len(), 1);
}

#[test]
fn distance_is_symmetric() {
    let c = example_store();
    for (a, b) in [("A", "B"), ("A", "C"), ("B", "C"), ("A", "Z")] {
        assert_eq!(
            c.calculate_total_distance(s(a), s(b)),
            c.calculate_total_distance(s(b), s(a))
        );
    }
}

#[test]
fn topic_missing_on_one_side_adds_nothing_but_counts() {
    let mut c = GuestDistanceCalculator::new();
    c.insert_thematic_ids(ids(&["food", "travel", "music"]));
    c.insert_score(s("A"), s("food"), 0);
    c.insert_score(s("B"), s("food"), 3_000_000);
    c.insert_score(s("A"), s("travel"), 9_000_000);
    assert_eq!(
        c.calculate_total_distance(s("A"), s("B")),
        TotalDistance { sum: 3_000_000, thematics: 3 }
    );
}

#[test]
fn no_topics_gives_zero() {
    let mut c = GuestDistanceCalculator::new();
    c.insert_score(s("A"), s("food"), 0);
    c.insert_score(s("B"), s("food"), 9_000_000);
    let d = c.calculate_total_distance(s("A"), s("B"));
    assert_eq!(d, TotalDistance { sum: 0, thematics: 0 });
    assert_eq!(points(&d), 0.0);
}

#[test]
fn extreme_scores_do_not_overflow() {
    let mut c = GuestDistanceCalculator::new();
    c.insert_thematic_ids(ids(&["t"]));
    c.insert_score(s("A"), s("t"), i64::MIN);
    c.insert_score(s("B"), s("t"), i64::MAX);
    let d = c.calculate_total_distance(s("A"), s("B"));
    assert_eq!(d.sum, u64::MAX as u128);
    assert!(d.exceeds_threshold());
}

#[test]
fn threshold_is_inclusive() {
    let mut c = GuestDistanceCalculator::new();
    c.insert_thematic_ids(ids(&["t1", "t2"]));
    c.insert_score(s("A"), s("t1"), 0);
    c.insert_score(s("A"), s("t2"), 0);
    // exactly two points on average
    c.insert_score(s("B"), s("t1"), 1_000_000);
    c.insert_score(s("B"), s("t2"), 3_000_000);
    // one unit more
    c.insert_score(s("C"), s("t1"), 1_000_000);
    c.insert_score(s("C"), s("t2"), 3_000_001);
    c.insert_other_guest_ids(ids(&["B", "C"]));
    let r = c.calculate_distances(ids(&["A"]));
    assert_eq!(r.len(), 1);
    assert_eq!(r[0].guest_b_id, "B");
    assert_eq!(points(&r[0].distance), 2.0);
}

fn many_candidates(n: usize) -> GuestDistanceCalculator {
    let mut c = GuestDistanceCalculator::new();
    c.insert_thematic_ids(ids(&["t"]));
    c.insert_score(s("Q"), s("t"), 0);
    let mut names = Vec::new();
    // inserted far to near, so that the order of registration is not the answer
    for k in (0..n).rev() {
        let name = format!("G{}", k);
        c.insert_score(name.clone(), s("t"), (k as i64) * 10_000);
        names.push(name);
    }
    c.insert_other_guest_ids(names);
    c
}

#[test]
fn truncates_to_twenty_nearest() {
    let c = many_candidates(25);
    let r = c.calculate_distances(ids(&["Q"]));
    assert_eq!(r.len(), MATCHES_LIMIT);
    assert_eq!(r.len(), 20);
    for (k, d) in r.iter().enumerate() {
        assert_eq!(d.guest_a_id, "Q");
        assert_eq!(d.guest_b_id, format!("G{}", k));
        assert_eq!(d.distance.sum, (k as u128) * 10_000);
    }
}

#[test]
fn fewer_than_limit_returns_all_sorted() {
    let c = many_candidates(7);
    let r = c.calculate_distances(ids(&["Q"]));
    assert_eq!(r.len(), 7);
    for w in r.windows(2) {
        assert!(w[0].distance.le(&w[1].distance));
    }
}

#[test]
fn groups_follow_query_order() {
    let mut c = GuestDistanceCalculator::new();
    c.insert_thematic_ids(ids(&["t"]));
    c.insert_score(s("X"), s("t"), 0);
    c.insert_score(s("Y"), s("t"), 1_000_000);
    c.insert_score(s("P"), s("t"), 1_500_000);
    c.insert_score(s("R"), s("t"), 200_000);
    c.insert_other_guest_ids(ids(&["P", "R"]));
    let r = c.calculate_distances(ids(&["X", "Y"]));
    let got: Vec<(String, String, u128)> = r
        .iter()
        .map(|d| (d.guest_a_id.clone(), d.guest_b_id.clone(), d.distance.sum))
        .collect();
    assert_eq!(
        got,
        vec![
            (s("X"), s("R"), 200_000),
            (s("X"), s("P"), 1_500_000),
            (s("Y"), s("P"), 500_000),
            (s("Y"), s("R"), 800_000),
        ]
    );
}

#[test]
fn empty_query_or_no_candidates_gives_nothing() {
    let c = example_store();
    assert!(c.calculate_distances(Vec::new()).is_empty());
    let mut d = GuestDistanceCalculator::new();
    d.insert_thematic_ids(ids(&["food"]));
    assert!(d.calculate_distances(ids(&["A"])).is_empty());
}

#[test]
fn clear_resets_everything() {
    let mut c = example_store();
    c.clear();
    assert!(c.calculate_distances(ids(&["A", "B"])).is_empty());
    let d = c.calculate_total_distance(s("A"), s("B"));
    assert_eq!(d, TotalDistance { sum: 0, thematics: 0 });
    assert_eq!(points(&d), 0.0);
    assert_eq!(c.get_score(s("A"), s("food")), None);
    c.insert_thematic_ids(ids(&["food"]));
    assert_eq!(c.calculate_total_distance(s("A"), s("B")).thematics, 1);
}

#[test]
fn fractions_compare_exactly() {
    let third = TotalDistance { sum: 1, thematics: 3 };
    let half = TotalDistance { sum: 1, thematics: 2 };
    let two_sixths = TotalDistance { sum: 2, thematics: 6 };
    assert!(third.le(&half));
    assert!(!half.le(&third));
    assert!(third.le(&two_sixths) && two_sixths.le(&third));
    let zero = TotalDistance { sum: 0, thematics: 0 };
    assert!(zero.le(&third));
    let big = TotalDistance { sum: u128::MAX, thematics: usize::MAX };
    let bigger = TotalDistance { sum: u128::MAX, thematics: usize::MAX - 1 };
    assert!(big.le(&bigger));
    assert!(!bigger.le(&big));
}

#[test]
fn threshold_on_fractions() {
    assert!(!TotalDistance { sum: 4_000_000, thematics: 2 }.exceeds_threshold());
    assert!(TotalDistance { sum: 4_000_001, thematics: 2 }.exceeds_threshold());
    assert!(!TotalDistance { sum: 2_000_000, thematics: 0 }.exceeds_threshold());
    assert!(TotalDistance { sum: 2_000_001, thematics: 0 }.exceeds_threshold());
}

#[test]
fn nearest_matches_keeps_smallest_in_order() {
    let mk = |b: &str, sum: u128| Distance::new(s("Q"), s(b), TotalDistance { sum, thematics: 1 });
    let input = vec![mk("a", 5), mk("b", 1), mk("c", 4), mk("d", 2), mk("e", 3)];
    let got: Vec<String> = nearest_matches(input, 3).into_iter().map(|d| d.guest_b_id).collect();
    assert_eq!(got, ids(&["b", "d", "e"]));
    assert!(nearest_matches(Vec::new(), 3).is_empty());
    assert!(nearest_matches(vec![mk("a", 1)], 0).is_empty());
}
