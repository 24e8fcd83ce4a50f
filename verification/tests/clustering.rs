use clustr::{cluster, init_container, Fraction};

#[test]
fn cluster_test_cluster_correct() {
    let inputs = vec!["a", "a", "b", "b"];
    let expected = vec![vec!["a", "a"], vec!["b", "b"]];
    let results = cluster(&inputs, Fraction::new(0, 1));
    assert_eq!(results, expected);
}

#[test]
fn clustering_test_cluster_correct() {
    let inputs = vec!["a", "a", "b", "b"];
    let expected = vec![vec!["a", "a"], vec!["b", "b"]];

    let results = cluster(&inputs, Fraction::new(0, 1));
    assert_eq!(results, expected);
}

#[test]
fn test_clusters_formed_below_tol() {
    let inputs = vec!["aaa", "aac", "bbb", "bbc"];
    let expected = vec![vec!["aaa", "aac"], vec!["bbb", "bbc"]];

    let results = cluster(&inputs, Fraction::new(34, 100));
    assert_eq!(results, expected);
}

#[test]
fn cluster_test_clusters_formed_below_max_edit_frac() {
    let inputs = vec!["aaa", "aac", "bbb", "bbc"];
    let expected = vec![vec!["aaa", "aac"], vec!["bbb", "bbc"]];
    let results = cluster(&inputs, Fraction::new(34, 100));
    assert_eq!(results, expected);
}

#[test]
fn clustering_test_clusters_formed_below_max_edit_frac() {
    let inputs = vec!["aaa", "aac", "bbb", "bbc"];
    let expected = vec![vec!["aaa", "aac"], vec!["bbb", "bbc"]];

    let results = cluster(&inputs, Fraction::new(34, 100));
    assert_eq!(results, expected);
}

#[test]
fn test_clusters_formed_equal_tol() {
    let inputs = vec!["aa", "ab", "cc", "cd"];
    let expected = vec![vec!["aa", "ab"], vec!["cc", "cd"]];

    let results = cluster(&inputs, Fraction::new(1, 2));
    assert_eq!(results, expected);
}

#[test]
fn cluster_test_clusters_formed_equal_max_edit_frac() {
    let inputs = vec!["aa", "ab", "cc", "cd"];
    let expected = vec![vec!["aa", "ab"], vec!["cc", "cd"]];
    let results = cluster(&inputs, Fraction::new(1, 2));
    assert_eq!(results, expected);
}

#[test]
fn clustering_test_clusters_formed_equal_max_edit_frac() {
    let inputs = vec!["aa", "ab", "cc", "cd"];
    let expected = vec![vec!["aa", "ab"], vec!["cc", "cd"]];

    let results = cluster(&inputs, Fraction::new(1, 2));
    assert_eq!(results, expected);
}

#[test]
fn cluster_test_no_clusters() {
    let inputs = vec!["a", "b", "c"];
    let expected = vec![vec!["a"], vec!["b"], vec!["c"]];
    let results = cluster(&inputs, Fraction::new(0, 1));
    assert_eq!(results, expected);
}

#[test]
fn clustering_test_no_clusters() {
    let inputs = vec!["a", "b", "c"];
    let expected = vec![vec!["a"], vec!["b"], vec!["c"]];

    let results = cluster(&inputs, Fraction::new(0, 1));
    assert_eq!(results, expected);
}

#[test]
fn cluster_test_structure_correct() {
    let inputs = vec!["a", "b"];
    let expected = vec![vec!["a"], vec!["b"]];
    let results = init_container(&inputs);
    assert_eq!(results, expected);
}

#[test]
fn clustering_test_structure_correct() {
    let inputs = vec!["a", "b"];
    let expected = vec![vec!["a"], vec!["b"]];

    let results = init_container(&inputs);
    assert_eq!(results, expected);
}

#[test]
fn representative_collects_later_similar_items() {
    // "ab" is similar to the representative "aa" but not to "bb": it joins
    // the first cluster even though "bb" comes between them.
    let inputs = vec!["aa", "bb", "ab"];
    let expected = vec![vec!["aa", "ab"], vec!["bb"]];

    let results = cluster(&inputs, Fraction::new(1, 2));
    assert_eq!(results, expected);
}
