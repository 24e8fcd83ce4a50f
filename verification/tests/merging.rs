use clustr::{merge_clusters, Fraction};

#[test]
fn cluster_test_merge_no_overlap() {
    let set_one = vec![vec!["a"], vec!["b"]];
    let set_two = vec![vec!["c"], vec!["d"]];
    let expected = vec![vec!["a"], vec!["b"], vec!["c"], vec!["d"]];

    let result = merge_clusters(set_one, set_two, Fraction::new(0, 1));
    assert_eq!(result, expected);
}

#[test]
fn clustering_test_merge_no_overlap() {
    let set_one = vec![vec!["a"], vec!["b"]];
    let set_two = vec![vec!["c"], vec!["d"]];
    let expected = vec![vec!["a"], vec!["b"], vec!["c"], vec!["d"]];

    let result = merge_clusters(set_one, set_two, Fraction::new(0, 1));
    assert_eq!(result, expected);
}

#[test]
fn merge_test_merge_no_overlap() {
    let set_one = vec![vec!["a"], vec!["b"]];
    let set_two = vec![vec!["c"], vec!["d"]];
    let expected = vec![vec!["a"], vec!["b"], vec!["c"], vec!["d"]];
    let result = merge_clusters(set_one, set_two, Fraction::new(0, 1));
    assert_eq!(result, expected);
}

#[test]
fn cluster_test_merge_full_overlap() {
    let set_one = vec![vec!["aa"], vec!["bb"]];
    let set_two = vec![vec!["aa"], vec!["bb"]];
    let expected = vec![vec!["aa", "aa"], vec!["bb", "bb"]];

    let result = merge_clusters(set_one, set_two, Fraction::new(1, 2));
    assert_eq!(result, expected);
}

#[test]
fn clustering_test_merge_full_overlap() {
    let set_one = vec![vec!["aa"], vec!["bb"]];
    let set_two = vec![vec!["aa"], vec!["bb"]];
    let expected = vec![vec!["aa", "aa"], vec!["bb", "bb"]];

    let result = merge_clusters(set_one, set_two, Fraction::new(1, 2));
    assert_eq!(result, expected);
}

#[test]
fn merge_test_merge_full_overlap() {
    let set_one = vec![vec!["aa"], vec!["bb"]];
    let set_two = vec![vec!["aa"], vec!["bb"]];
    let expected = vec![vec!["aa", "aa"], vec!["bb", "bb"]];
    let result = merge_clusters(set_one, set_two, Fraction::new(1, 2));
    assert_eq!(result, expected);
}

#[test]
fn cluster_test_partial_overlap() {
    let set_one = vec![vec!["aa"], vec!["bb"]];
    let set_two = vec![vec!["aa"], vec!["bb"], vec!["cc"]];
    let expected = vec![vec!["aa", "aa"], vec!["bb", "bb"], vec!["cc"]];

    let result = merge_clusters(set_one, set_two, Fraction::new(1, 2));
    assert_eq!(result, expected);
}

#[test]
fn clustering_test_partial_overlap() {
    let set_one = vec![vec!["aa"], vec!["bb"]];
    let set_two = vec![vec!["aa"], vec!["bb"], vec!["cc"]];
    let expected = vec![vec!["aa", "aa"], vec!["bb", "bb"], vec!["cc"]];

    let result = merge_clusters(set_one, set_two, Fraction::new(1, 2));
    assert_eq!(result, expected);
}

#[test]
fn merge_test_partial_overlap() {
    let set_one = vec![vec!["aa"], vec!["bb"]];
    let set_two = vec![vec!["aa"], vec!["bb"], vec!["cc"]];
    let expected = vec![vec!["aa", "aa"], vec!["bb", "bb"], vec!["cc"]];
    let result = merge_clusters(set_one, set_two, Fraction::new(1, 2));
    assert_eq!(result, expected);
}

#[test]
fn test_merge_tol_correct() {
    let set_one = vec![vec!["aa"], vec!["cc"]];
    let set_two = vec![vec!["ab"], vec!["cd"]];
    let expected = vec![vec!["aa", "ab"], vec!["cc", "cd"]];

    let result = merge_clusters(set_one, set_two, Fraction::new(1, 2));
    assert_eq!(result, expected);
}

#[test]
fn clustering_test_merge_max_edit_frac_correct() {
    let set_one = vec![vec!["aa"], vec!["cc"]];
    let set_two = vec![vec!["ab"], vec!["cd"]];
    let expected = vec![vec!["aa", "ab"], vec!["cc", "cd"]];

    let result = merge_clusters(set_one, set_two, Fraction::new(1, 2));
    assert_eq!(result, expected);
}

#[test]
fn merge_test_merge_max_edit_frac_correct() {
    let set_one = vec![vec!["aa"], vec!["cc"]];
    let set_two = vec![vec!["ab"], vec!["cd"]];
    let expected = vec![vec!["aa", "ab"], vec!["cc", "cd"]];
    let result = merge_clusters(set_one, set_two, Fraction::new(1, 2));
    assert_eq!(result, expected);
}

#[test]
fn merge_absorbs_several_clusters_into_one() {
    // Both clusters of the second collection match the first representative
    // and are appended in order, their own representatives becoming members.
    let set_one = vec![vec!["aa"]];
    let set_two = vec![vec!["ab", "ab"], vec!["ba"]];
    let expected = vec![vec!["aa", "ab", "ab", "ba"]];

    let result = merge_clusters(set_one, set_two, Fraction::new(1, 2));
    assert_eq!(result, expected);
}

#[test]
fn merge_never_splits_and_keeps_every_member() {
    // Each input cluster survives whole, and the result has no more clusters
    // than both inputs together.
    let set_one = vec![vec!["aa", "ab"], vec!["zz"]];
    let set_two = vec![vec!["ac", "ad"], vec!["qq", "qr"]];
    let expected = vec![vec!["aa", "ab", "ac", "ad"], vec!["zz"], vec!["qq", "qr"]];

    let result = merge_clusters(set_one, set_two, Fraction::new(1, 2));
    assert_eq!(result, expected);
}
