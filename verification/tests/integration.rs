use clustr::{cluster_strings, Fraction, ValueError};

#[test]
fn test_basic_correctness() {
    let inputs = vec!["a", "b", "c", "a", "b", "c"];
    let expected = vec![vec!["a", "a"], vec!["b", "b"], vec!["c", "c"]];
    let results = cluster_strings(&inputs, Fraction::new(0, 1), 6).unwrap();
    for e in expected {
        assert!(results.contains(&e));
    }
}

#[test]
fn test_reject_max_edit_frac_below_zero() {
    let inputs = vec!["a", "b", "c"];
    let expected = Err(ValueError::InvalidFraction);
    let results = cluster_strings(&inputs, Fraction::new(-1, 10), 1);
    assert_eq!(expected, results);
}

#[test]
fn test_reject_edit_frac_above_one() {
    let inputs = vec!["a", "b", "c"];
    let expected = Err(ValueError::InvalidFraction);
    let results = cluster_strings(&inputs, Fraction::new(11, 10), 1);
    assert_eq!(expected, results);
}

#[test]
fn test_edit_frac_zero_accepted() {
    let inputs = vec!["a", "b", "c", "d"];
    let expected = vec![vec!["a"], vec!["b"], vec!["c"], vec!["d"]];
    let results = cluster_strings(&inputs, Fraction::new(0, 1), 4).unwrap();
    for e in expected {
        assert!(results.contains(&e));
    }
}

#[test]
fn test_edit_frac_one_accepted() {
    let inputs = vec!["a", "b", "c", "d"];
    let expected = vec![vec!["a", "b", "c", "d"]];
    let results = cluster_strings(&inputs, Fraction::new(1, 1), 1).unwrap();
    for e in expected {
        assert!(results.contains(&e));
    }
}

#[test]
fn test_edit_frac_applied_correctly() {
    let inputs = vec!["aaaa", "aaax", "bbbb", "bbbz"];
    let expected = vec![vec!["aaaa", "aaax"], vec!["bbbb", "bbbz"]];
    let results = cluster_strings(&inputs, Fraction::new(1, 4), 2).unwrap();
    for e in expected {
        assert!(results.contains(&e));
    }
}

#[test]
fn test_reject_empty_vector() {
    let inputs = Vec::new();
    let expected = Err(ValueError::EmptyVector);
    let results = cluster_strings(&inputs, Fraction::new(0, 1), 1);
    assert_eq!(results, expected);
}

#[test]
fn test_reject_more_threads_than_strings() {
    let inputs = vec!["a", "b", "b"];
    let expected = Err(ValueError::InsufficientWork);
    let results = cluster_strings(&inputs, Fraction::new(0, 1), 4);
    assert_eq!(expected, results);
}

#[test]
fn test_reject_zero_threads_commissioned() {
    let inputs = vec!["a", "b", "c", "d"];
    let expected = Err(ValueError::InsufficientThreadCount);
    let results = cluster_strings(&inputs, Fraction::new(0, 1), 0);
    assert_eq!(expected, results);
}

#[test]
fn test_one_input_string_accepted() {
    let inputs = vec!["a"];
    let expected = vec![vec!["a"]];
    let results = cluster_strings(&inputs, Fraction::new(0, 1), 1).unwrap();
    assert_eq!(results, expected);
}

#[test]
fn test_output_consistent_across_thread_counts() {
    let inputs = vec![
        "aaaa", "aaax", "bbbb", "bbby", "cccc", "cccz", "dddd", "dddw",
    ];
    let expected = vec![
        vec!["aaaa", "aaax"],
        vec!["bbbb", "bbby"],
        vec!["cccc", "cccz"],
        vec!["dddd", "dddw"],
        vec!["aaax", "aaaa"],
        vec!["bbby", "bbbb"],
        vec!["cccz", "cccc"],
        vec!["dddw", "dddd"],
    ];

    for n_threads in 1..=8 {
        let results = cluster_strings(&inputs, Fraction::new(1, 4), n_threads).unwrap();
        for r in results {
            assert!(expected.contains(&r));
        }
    }
}

#[test]
fn zero_tolerance_groups_exact_matches_only() {
    // At tolerance zero, grouping means equality with the representative.
    let inputs = vec!["a", "b", "c", "a", "b", "c"];
    let expected = vec![vec!["a", "a"], vec!["b", "b"], vec!["c", "c"]];
    for n_threads in 1..=6 {
        let results = cluster_strings(&inputs, Fraction::new(0, 1), n_threads).unwrap();
        assert_eq!(results.len(), 3);
        for e in &expected {
            assert!(results.contains(e));
        }
    }
}

#[test]
fn full_tolerance_single_worker_gives_one_cluster() {
    let inputs = vec!["a", "b", "c", "d"];
    let expected = vec![vec!["a", "b", "c", "d"]];
    let results = cluster_strings(&inputs, Fraction::new(1, 1), 1).unwrap();
    assert_eq!(results, expected);
}

#[test]
fn every_input_lands_in_exactly_one_cluster() {
    // Coverage: the members of all clusters are exactly the inputs, with
    // multiplicity, whatever the worker count.
    let inputs = vec!["aaaa", "aaax", "aaaa", "bbbb", "x", "bbbz", "aaax"];
    let mut wanted: Vec<&str> = inputs.clone();
    wanted.sort();
    for n_threads in 1..=7 {
        let results = cluster_strings(&inputs, Fraction::new(1, 4), n_threads).unwrap();
        let mut got: Vec<&str> = results.into_iter().flatten().collect();
        got.sort();
        assert_eq!(got, wanted);
    }
}

#[test]
fn invalid_denominator_rejected() {
    let inputs = vec!["a", "b"];
    let expected = Err(ValueError::InvalidFraction);
    assert_eq!(cluster_strings(&inputs, Fraction::new(1, 0), 1), expected);
    assert_eq!(cluster_strings(&inputs, Fraction::new(1, -2), 1), expected);
}

#[test]
fn validation_order_empty_input_first() {
    // An empty input wins over an invalid fraction and a zero thread count.
    let inputs: Vec<&str> = Vec::new();
    let results = cluster_strings(&inputs, Fraction::new(11, 10), 0);
    assert_eq!(results, Err(ValueError::EmptyVector));
}
