use clustr::{aggregate_results, form_clusters, Fraction};

#[test]
fn test_correct_equal_work_per_thread() {
    let data = vec!["aa", "aa", "bb", "bb"];
    let expected = vec![vec![vec!["aa", "aa"]], vec![vec!["bb", "bb"]]];
    let result = form_clusters(&data, Fraction::new(0, 1), 2);

    for e in expected {
        assert!(result.contains(&e))
    }
}

#[test]
fn test_unequal_work_per_thread() {
    let data = vec!["aa", "aa", "bb", "bb"];
    let expected = vec![vec![vec!["aa"]], vec![vec!["aa"]], vec![vec!["bb", "bb"]]];
    let result = form_clusters(&data, Fraction::new(0, 1), 3);

    for e in expected {
        assert!(result.contains(&e))
    }
}

#[test]
fn test_equal_threads_and_inputs() {
    let data = vec!["aa", "aa", "bb", "bb"];
    let expected = vec![
        vec![vec!["aa"]],
        vec![vec!["aa"]],
        vec![vec!["bb"]],
        vec![vec!["bb"]],
    ];
    let result = form_clusters(&data, Fraction::new(0, 1), 4);

    for e in expected {
        assert!(result.contains(&e))
    }
}

#[test]
fn slices_are_contiguous_and_in_order() {
    let data = vec!["a", "b", "c", "d", "e"];
    let expected = vec![
        vec![vec!["a"], vec!["b"]],
        vec![vec!["c"], vec!["d"], vec!["e"]],
    ];
    let result = form_clusters(&data, Fraction::new(0, 1), 2);
    assert_eq!(result, expected);
}

#[test]
fn test_one_merge() {
    let input = vec![vec![vec!["aa"], vec!["bb"]], vec![vec!["aa"], vec!["bb"]]];
    let expected = vec![vec!["aa", "aa"], vec!["bb", "bb"]];
    let results = aggregate_results(input, Fraction::new(0, 1));

    for e in expected {
        assert!(results.contains(&e));
    }
}

#[test]
fn test_three_merge() {
    let input = vec![
        vec![vec!["aa"]],
        vec![vec!["bb"]],
        vec![vec!["aa"]],
        vec![vec!["bb"]],
    ];
    let expected = vec![vec!["aa", "aa"], vec!["bb", "bb"]];
    let results = aggregate_results(input, Fraction::new(0, 1));

    for e in expected {
        assert!(results.contains(&e));
    }
}

#[test]
fn test_two_merge_one_pass() {
    let input = vec![vec![vec!["aa"]], vec![vec!["bb"]], vec![vec!["aa"]]];
    let expected = vec![vec!["aa", "aa"], vec!["bb"]];
    let results = aggregate_results(input, Fraction::new(0, 1));

    for e in expected {
        assert!(results.contains(&e));
    }
}

#[test]
fn test_six_merge_one_pass() {
    let input = vec![
        vec![vec!["aa"]],
        vec![vec!["bb"]],
        vec![vec!["aa"]],
        vec![vec!["bb"]],
        vec![vec!["aa"]],
        vec![vec!["bb"]],
        vec![vec!["aa"]],
    ];
    let expected = vec![vec!["aa", "aa", "aa", "aa"], vec!["bb", "bb", "bb"]];
    let results = aggregate_results(input, Fraction::new(0, 1));

    for e in expected {
        assert!(results.contains(&e));
    }
}

#[test]
fn test_two_merge_multiple_element_clusters() {
    let input = vec![
        vec![vec!["aaa", "aaa"], vec!["bbb", "bbb"], vec!["ccc", "ccc"]],
        vec![vec!["aaa", "aaa"], vec!["bbb", "bbb"], vec!["ccc", "ccc"]],
        vec![vec!["aaa", "aaa"], vec!["bbb", "bbb"], vec!["ccc", "ccc"]],
    ];
    let expected = vec![
        vec!["aaa", "aaa", "aaa", "aaa", "aaa", "aaa"],
        vec!["bbb", "bbb", "bbb", "bbb", "bbb", "bbb"],
        vec!["ccc", "ccc", "ccc", "ccc", "ccc", "ccc"],
    ];
    let results = aggregate_results(input, Fraction::new(0, 1));

    for e in expected {
        assert!(results.contains(&e));
    }
}

#[test]
fn test_non_zero_max_edit_frac_one_merge() {
    let input = vec![
        vec![vec!["aaaa", "aaaa"], vec!["bbbb", "bbbb"]],
        vec![vec!["aaax", "aaax"], vec!["bbbz", "bbbz"]],
    ];
    let expected = vec![
        vec!["aaaa", "aaaa", "aaax", "aaax"],
        vec!["bbbb", "bbbb", "bbbz", "bbbz"],
    ];
    let results = aggregate_results(input, Fraction::new(1, 4));

    for e in expected {
        assert!(results.contains(&e));
    }
}

#[test]
fn test_no_merge() {
    let input = vec![vec![vec!["aa", "aa"]]];
    let expected = vec![vec!["aa", "aa"]];
    let results = aggregate_results(input, Fraction::new(0, 1));

    assert_eq!(results, expected);
}
