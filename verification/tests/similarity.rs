use clustr::{get_max_edit_dist, is_similar, Fraction};

#[test]
fn is_similar_accepts_below_max_edit() {
    let a = "aaaa";
    let b = "aaab";

    let result = is_similar(&a, &b, Fraction::new(1, 2));
    assert!(result);
}

#[test]
fn is_similar_accepts_max_edit() {
    let a = "aaaa";
    let b = "aabb";

    let result = is_similar(&a, &b, Fraction::new(1, 2));
    assert!(result);
}

#[test]
fn is_similar_rejects_above_max_edit() {
    let a = "a";
    let b = "abbb";

    let result = is_similar(&a, &b, Fraction::new(1, 1));
    assert!(!result);
}

#[test]
fn max_edit_calculation_correct() {
    let a = "aa";
    let b = "bbb";

    let result = get_max_edit_dist(&a, &b, Fraction::new(1, 2));
    assert_eq!(result, 1);
}

#[test]
fn max_edit_calculation_applies_floor() {
    let a = "aaaa";
    let b = "bbbb";

    let result = get_max_edit_dist(&a, &b, Fraction::new(49, 100));
    assert_eq!(result, 1);
}

#[test]
fn max_edit_shorted_string_selected() {
    let a = "aa";
    let b = "bbb";

    let op_one = get_max_edit_dist(&a, &b, Fraction::new(1, 2));
    let op_two = get_max_edit_dist(&b, &a, Fraction::new(1, 2));
    assert_eq!(op_one, op_two);
}

#[test]
fn max_edit_handles_empty() {
    let a = "";
    let b = "bbb";

    let result = get_max_edit_dist(&a, &b, Fraction::new(1, 2));
    assert_eq!(result, 0);
}

#[test]
fn levenshtein_through_similarity() {
    // "kitten" to "sitting" takes three edits; the length difference alone
    // (one) stays within both budgets, so the distance itself must decide.
    assert!(is_similar("kitten", "sitting", Fraction::new(1, 2)));
    assert!(!is_similar("kitten", "sitting", Fraction::new(1, 3)));
}

#[test]
fn tolerance_monotone_on_similar_pair() {
    // A pair similar at a small tolerance stays similar at a larger one.
    assert!(!is_similar("aaaa", "aaab", Fraction::new(0, 1)));
    assert!(is_similar("aaaa", "aaab", Fraction::new(1, 4)));
    assert!(is_similar("aaaa", "aaab", Fraction::new(1, 2)));
    assert!(is_similar("aaaa", "aaab", Fraction::new(1, 1)));
}

#[test]
fn empty_strings_only_match_each_other() {
    assert!(is_similar("", "", Fraction::new(1, 1)));
    assert!(!is_similar("", "x", Fraction::new(1, 1)));
}
