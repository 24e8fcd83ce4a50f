//! The similarity metric: two strings are similar when their Levenshtein
//! distance stays within a tolerated fraction of the shorter string's length.

use vstd::arithmetic::div_mod::{
    lemma_div_is_ordered, lemma_div_multiples_vanish, lemma_fundamental_div_mod,
};
use vstd::arithmetic::mul::{
    lemma_mul_inequality, lemma_mul_is_associative, lemma_mul_is_commutative,
    lemma_mul_is_distributive_add, lemma_mul_upper_bound,
};
use vstd::prelude::*;

use crate::fraction::Fraction;

verus! {

/// The smallest of three naturals.
pub open spec fn min3(x: nat, y: nat, z: nat) -> nat {
    if x <= y && x <= z {
        x
    } else if y <= z {
        y
    } else {
        z
    }
}

/// The Levenshtein distance between two character sequences: the least number
/// of single-character insertions, deletions and substitutions that turns one
/// into the other, written as the standard recurrence.
pub open spec fn levenshtein(a: Seq<char>, b: Seq<char>) -> nat
    decreases a.len(), b.len(),
{
    if a.len() == 0 {
        b.len()
    } else if b.len() == 0 {
        a.len()
    } else {
        let by_deletion = levenshtein(a.drop_last(), b) + 1;
        let by_insertion = levenshtein(a, b.drop_last()) + 1;
        let by_substitution = levenshtein(a.drop_last(), b.drop_last()) + if a.last()
            == b.last() {
            0nat
        } else {
            1nat
        };
        min3(by_deletion, by_insertion, by_substitution)
    }
}

/// The edit budget for two strings of the given lengths: the tolerated
/// fraction of the shorter length, rounded down.
pub open spec fn edit_budget(la: nat, lb: nat, f: Fraction) -> int {
    (if la <= lb {
        la as int
    } else {
        lb as int
    }) * (f.num as int) / (f.den as int)
}

/// Two character sequences are similar when their Levenshtein distance does
/// not exceed the edit budget of their lengths.
pub open spec fn is_similar_spec(a: Seq<char>, b: Seq<char>, f: Fraction) -> bool {
    levenshtein(a, b) <= edit_budget(a.len(), b.len(), f)
}

/// Relies on edit_distance::edit_distance: the Levenshtein distance between
/// the two strings' character sequences, by the standard recurrence.
#[verifier::external_body]
fn levenshtein_distance(a: &str, b: &str) -> (r: usize)
    ensures
        r == levenshtein(a@, b@),
{
    edit_distance::edit_distance(a, b)
}

/// The number of edits tolerated between `a` and `b`: the fraction applied to
/// the shorter string's length, rounded down.
pub fn get_max_edit_dist(a: &str, b: &str, f: Fraction) -> (r: usize)
    requires
        f.is_valid(),
    ensures
        r == edit_budget(a@.len(), b@.len(), f),
{
    let la = a.unicode_len();
    let lb = b.unicode_len();
    let l: usize = if la <= lb {
        la
    } else {
        lb
    };
    proof {
        lemma_budget_bounds(l as int, f);
    }
    let budget: u128 = (l as u128) * (f.num as u128) / (f.den as u128);
    budget as usize
}

/// The edit budget of a length `l` is between 0 and `l`, and the product
/// inside it stays far below `u128::MAX`.
proof fn lemma_budget_bounds(l: int, f: Fraction)
    requires
        0 <= l <= usize::MAX,
        f.is_valid(),
    ensures
        l * (f.num as int) <= u128::MAX,
        0 <= l * (f.num as int) / (f.den as int) <= l,
{
    lemma_mul_upper_bound(l, u64::MAX as int, f.num as int, i64::MAX as int);
    lemma_mul_inequality(f.num as int, f.den as int, l);
    lemma_mul_is_commutative(f.num as int, l);
    lemma_mul_is_commutative(f.den as int, l);
    lemma_div_is_ordered(l * (f.num as int), l * (f.den as int), f.den as int);
    lemma_div_multiples_vanish(l, f.den as int);
    lemma_mul_is_commutative(f.den as int, l);
    lemma_mul_inequality(0, f.num as int, l);
    lemma_mul_is_commutative(f.num as int, l);
    lemma_div_is_ordered(0, l * (f.num as int), f.den as int);
}

/// Whether the two strings are similar under the tolerance `f`: their
/// Levenshtein distance is at most `f` of the shorter string's length,
/// rounded down.
pub fn is_similar(a: &str, b: &str, f: Fraction) -> (r: bool)
    requires
        f.is_valid(),
    ensures
        r == is_similar_spec(a@, b@, f),
{
    let max_edit = get_max_edit_dist(a, b, f);
    let la = a.unicode_len();
    let lb = b.unicode_len();
    let len_diff: usize = if la <= lb {
        lb - la
    } else {
        la - lb
    };

    // A difference in length alone already costs that many edits, so the
    // distance need not be computed when it exceeds the budget.
    if len_diff > max_edit {
        proof {
            lemma_levenshtein_ge_len_diff(a@, b@);
        }
        return false;
    }
    let dist = levenshtein_distance(a, b);
    dist <= max_edit
}

/// The edit distance is at least the difference of the two lengths.
pub proof fn lemma_levenshtein_ge_len_diff(a: Seq<char>, b: Seq<char>)
    ensures
        levenshtein(a, b) >= a.len() - b.len(),
        levenshtein(a, b) >= b.len() - a.len(),
    decreases a.len(), b.len(),
{
    if a.len() == 0 || b.len() == 0 {
    } else {
        lemma_levenshtein_ge_len_diff(a.drop_last(), b);
        lemma_levenshtein_ge_len_diff(a, b.drop_last());
        lemma_levenshtein_ge_len_diff(a.drop_last(), b.drop_last());
    }
}

/// The edit distance is zero exactly when the two sequences are equal.
pub proof fn lemma_levenshtein_zero_iff_eq(a: Seq<char>, b: Seq<char>)
    ensures
        levenshtein(a, b) == 0 <==> a == b,
    decreases a.len(), b.len(),
{
    if a.len() == 0 {
        if b.len() == 0 {
            assert(a =~= b);
        }
    } else if b.len() == 0 {
    } else {
        lemma_levenshtein_zero_iff_eq(a.drop_last(), b.drop_last());
        if a == b {
            assert(a.drop_last() =~= b.drop_last());
        } else if levenshtein(a, b) == 0 {
            assert(a.last() == b.last());
            assert(a.drop_last() == b.drop_last());
            assert(a =~= a.drop_last().push(a.last()));
            assert(a =~= b);
        }
    }
}

/// At a zero tolerance, similarity means equality.
pub proof fn lemma_similar_at_zero_iff_eq(a: Seq<char>, b: Seq<char>, f: Fraction)
    requires
        f.is_valid(),
        f.num == 0,
    ensures
        is_similar_spec(a, b, f) <==> a == b,
{
    let l: int = if a.len() <= b.len() {
        a.len() as int
    } else {
        b.len() as int
    };
    assert(l * (f.num as int) == 0) by {
        lemma_mul_is_commutative(l, f.num as int);
    }
    assert(edit_budget(a.len(), b.len(), f) == 0) by {
        lemma_div_multiples_vanish(0, f.den as int);
    }
    lemma_levenshtein_zero_iff_eq(a, b);
}

/// Law: raising the tolerance never turns a similar pair dissimilar.  When
/// the fraction `f` denotes a value no greater than `g` does, two strings
/// similar at `f` are also similar at `g`.
pub proof fn lemma_similarity_monotone(a: Seq<char>, b: Seq<char>, f: Fraction, g: Fraction)
    requires
        f.is_valid(),
        g.is_valid(),
        (f.num as int) * (g.den as int) <= (g.num as int) * (f.den as int),
    ensures
        is_similar_spec(a, b, f) ==> is_similar_spec(a, b, g),
{
    let l: int = if a.len() <= b.len() {
        a.len() as int
    } else {
        b.len() as int
    };
    lemma_budget_monotone(l, f, g);
}

/// The edit budget of a fixed length grows with the tolerance.
proof fn lemma_budget_monotone(l: int, f: Fraction, g: Fraction)
    requires
        0 <= l,
        f.is_valid(),
        g.is_valid(),
        (f.num as int) * (g.den as int) <= (g.num as int) * (f.den as int),
    ensures
        l * (f.num as int) / (f.den as int) <= l * (g.num as int) / (g.den as int),
{
    let fnum = f.num as int;
    let fden = f.den as int;
    let gnum = g.num as int;
    let gden = g.den as int;
    let q = l * gnum / gden;
    let r = l * gnum % gden;
    lemma_fundamental_div_mod(l * gnum, gden);
    assert(l * gnum == gden * q + r && 0 <= r < gden);

    assert((l * fnum) * gden <= (l * gnum) * fden) by {
        lemma_mul_inequality(fnum * gden, gnum * fden, l);
        lemma_mul_is_commutative(fnum * gden, l);
        lemma_mul_is_commutative(gnum * fden, l);
        lemma_mul_is_associative(l, fnum, gden);
        lemma_mul_is_associative(l, gnum, fden);
    }
    assert((l * gnum) * fden == gden * (q * fden) + r * fden) by {
        lemma_mul_is_distributive_add(fden, gden * q, r);
        lemma_mul_is_commutative(gden * q + r, fden);
        lemma_mul_is_commutative(gden * q, fden);
        lemma_mul_is_commutative(r, fden);
        lemma_mul_is_associative(gden, q, fden);
    }
    assert(r * fden < gden * fden) by {
        lemma_mul_inequality(r + 1, gden, fden);
        lemma_mul_is_distributive_add(fden, r, 1);
        lemma_mul_is_commutative(r + 1, fden);
        lemma_mul_is_commutative(gden, fden);
        lemma_mul_is_commutative(r, fden);
    }
    assert((l * fnum) * gden < gden * ((q + 1) * fden)) by {
        lemma_mul_is_distributive_add(fden, q, 1);
        lemma_mul_is_commutative(q + 1, fden);
        lemma_mul_is_commutative(q, fden);
        lemma_mul_is_distributive_add(gden, q * fden, fden);
    }
    assert(l * fnum < (q + 1) * fden) by {
        if l * fnum >= (q + 1) * fden {
            lemma_mul_inequality((q + 1) * fden, l * fnum, gden);
            lemma_mul_is_commutative((q + 1) * fden, gden);
        }
    }
    assert(l * fnum / fden <= q) by {
        lemma_fundamental_div_mod(l * fnum, fden);
        let qf = l * fnum / fden;
        let rf = l * fnum % fden;
        if qf > q {
            // qf >= q + 1 forces l * fnum >= (q + 1) * fden, a contradiction.
            lemma_mul_inequality(q + 1, qf, fden);
            lemma_mul_is_commutative(q + 1, fden);
            lemma_mul_is_commutative(qf, fden);
        }
    }
}

} // verus!
