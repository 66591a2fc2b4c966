//! The similarity score of two keys: a whole number from 0 to 100 that falls
//! linearly with the edit distance, measured against the longer key.

use crate::edit_distance::{
    edit_distance, lemma_clusters_of_empty, lemma_levenshtein_same, lemma_levenshtein_symmetric,
    lemma_levenshtein_upper_bound, lemma_levenshtein_zero, levenshtein,
};
use crate::segment::{comparison_units, segment};
use vstd::prelude::*;

verus! {

/// The greater of two lengths.
pub open spec fn longer(a: nat, b: nat) -> nat {
    if a >= b {
        a
    } else {
        b
    }
}

/// The score that belongs to an edit distance, given the length of the longer
/// of the two keys: the share of that length which needed no edit, as a
/// percentage rounded down. Two empty keys score 100.
pub open spec fn score(distance: nat, longest: nat) -> nat
    recommends
        distance <= longest,
{
    if longest == 0 {
        100
    } else {
        ((longest - distance) * 100 / (longest as int)) as nat
    }
}

/// The similarity of two sequences of grapheme clusters.
pub open spec fn unit_similarity(left: Seq<Seq<char>>, right: Seq<Seq<char>>) -> nat {
    score(levenshtein(left, right), longer(left.len(), right.len()))
}

/// The similarity of two texts, compared cluster by cluster, after folding
/// their case where case does not matter.
pub open spec fn text_similarity(left: Seq<char>, right: Seq<char>, case_sensitive: bool) -> nat {
    unit_similarity(
        comparison_units(left, case_sensitive),
        comparison_units(right, case_sensitive),
    )
}

/// A score lies between 0 and 100, and it is 100 only at distance zero.
pub proof fn lemma_score_range(distance: nat, longest: nat)
    requires
        distance <= longest,
    ensures
        score(distance, longest) <= 100,
        score(distance, longest) == 100 <==> distance == 0,
        longest > 0 && distance == longest ==> score(distance, longest) == 0,
{
    if longest > 0 {
        let kept = longest - distance;
        let whole = longest as int;
        assert(kept * 100 / whole <= 100) by (nonlinear_arith)
            requires
                0 <= kept <= whole,
                whole > 0,
        ;
        assert(kept * 100 / whole >= 0) by (nonlinear_arith)
            requires
                0 <= kept,
                whole > 0,
        ;
        assert(kept == whole ==> kept * 100 / whole == 100) by (nonlinear_arith)
            requires
                whole > 0,
        ;
        assert(kept < whole ==> kept * 100 / whole < 100) by (nonlinear_arith)
            requires
                0 <= kept,
                whole > 0,
        ;
        assert(kept == 0 ==> kept * 100 / whole == 0) by (nonlinear_arith)
            requires
                whole > 0,
        ;
    }
}

/// The similarity of any two cluster sequences lies between 0 and 100.
pub proof fn lemma_unit_similarity_bounded(left: Seq<Seq<char>>, right: Seq<Seq<char>>)
    ensures
        unit_similarity(left, right) <= 100,
{
    lemma_levenshtein_upper_bound(left, right);
    lemma_score_range(levenshtein(left, right), longer(left.len(), right.len()));
}

/// The similarity of two cluster sequences does not depend on their order.
pub proof fn lemma_unit_similarity_symmetric(left: Seq<Seq<char>>, right: Seq<Seq<char>>)
    ensures
        unit_similarity(left, right) == unit_similarity(right, left),
{
    lemma_levenshtein_symmetric(left, right);
}

/// A cluster sequence is fully similar to itself.
pub proof fn lemma_unit_similarity_same(units: Seq<Seq<char>>)
    ensures
        unit_similarity(units, units) == 100,
{
    lemma_levenshtein_same(units);
    lemma_score_range(0, units.len());
}

/// Only equal cluster sequences reach a similarity of 100.
pub proof fn lemma_unit_similarity_full(left: Seq<Seq<char>>, right: Seq<Seq<char>>)
    requires
        unit_similarity(left, right) >= 100,
    ensures
        left == right,
{
    lemma_levenshtein_upper_bound(left, right);
    lemma_score_range(levenshtein(left, right), longer(left.len(), right.len()));
    lemma_levenshtein_zero(left, right);
}

/// An empty cluster sequence has nothing in common with a sequence that is
/// not empty.
pub proof fn lemma_unit_similarity_with_empty(left: Seq<Seq<char>>, right: Seq<Seq<char>>)
    requires
        left.len() == 0 || right.len() == 0,
    ensures
        unit_similarity(left, right) == if left.len() == 0 && right.len() == 0 {
            100nat
        } else {
            0nat
        },
{
    lemma_score_range(levenshtein(left, right), longer(left.len(), right.len()));
}

/// Every text is fully similar to itself, whether or not case matters.
pub proof fn lemma_similarity_reflexive(text: Seq<char>, case_sensitive: bool)
    ensures
        text_similarity(text, text, case_sensitive) == 100,
{
    lemma_unit_similarity_same(comparison_units(text, case_sensitive));
}

/// Swapping the two texts does not change their similarity.
pub proof fn lemma_similarity_symmetric(left: Seq<char>, right: Seq<char>, case_sensitive: bool)
    ensures
        text_similarity(left, right, case_sensitive) == text_similarity(
            right,
            left,
            case_sensitive,
        ),
{
    lemma_unit_similarity_symmetric(
        comparison_units(left, case_sensitive),
        comparison_units(right, case_sensitive),
    );
}

/// The similarity of any two texts lies between 0 and 100.
pub proof fn lemma_similarity_bounded(left: Seq<char>, right: Seq<char>, case_sensitive: bool)
    ensures
        text_similarity(left, right, case_sensitive) <= 100,
{
    lemma_unit_similarity_bounded(
        comparison_units(left, case_sensitive),
        comparison_units(right, case_sensitive),
    );
}

/// The similarity of two sequences of grapheme clusters.
///
/// The edit distance never exceeds the length of the longer sequence, so the
/// share of that length that needed no edit is never negative. The product
/// by 100 is taken in 128 bits and cannot overflow.
pub fn similarity_of_units(left: &Vec<String>, right: &Vec<String>) -> (result: usize)
    ensures
        result == unit_similarity(left.deep_view(), right.deep_view()),
        result <= 100,
{
    let distance = edit_distance(left, right);
    let longest = if left.len() >= right.len() {
        left.len()
    } else {
        right.len()
    };
    proof {
        lemma_levenshtein_upper_bound(left.deep_view(), right.deep_view());
        lemma_score_range(distance as nat, longest as nat);
    }
    if longest == 0 {
        return 100;
    }
    let kept = (longest - distance) as u128;
    let whole = longest as u128;
    assert(kept * 100 <= u128::MAX) by (nonlinear_arith)
        requires
            kept <= usize::MAX,
    ;
    (kept * 100 / whole) as usize
}

/// The similarity of two texts in which case matters.
pub fn cal_similarity(left: &str, right: &str) -> (result: usize)
    ensures
        result == text_similarity(left@, right@, true),
        result <= 100,
        result == 100 <==> left@ == right@,
        (left@.len() == 0) != (right@.len() == 0) ==> result == 0,
{
    similarity(left, right, true)
}

/// The similarity of two texts in which case does not matter: both are
/// folded to lower case first.
pub fn cal_similarity_case_insentive(left: &str, right: &str) -> (result: usize)
    ensures
        result == text_similarity(left@, right@, false),
        result <= 100,
        left@ == right@ ==> result == 100,
{
    similarity(left, right, false)
}

/// The similarity of two texts: 100 for two empty texts, and otherwise the
/// share of the longer text's grapheme clusters that the edit distance
/// leaves untouched, as a percentage rounded down. Where case does not
/// matter, both texts are folded to lower case first.
pub fn similarity(left: &str, right: &str, case_sensitive: bool) -> (result: usize)
    ensures
        result == text_similarity(left@, right@, case_sensitive),
        result <= 100,
        left@ == right@ ==> result == 100,
        case_sensitive && result == 100 ==> left@ == right@,
        case_sensitive && (left@.len() == 0) != (right@.len() == 0) ==> result == 0,
{
    let l = segment(left, case_sensitive);
    let r = segment(right, case_sensitive);
    proof {
        if left@ == right@ {
            lemma_unit_similarity_same(l.deep_view());
        }
        if unit_similarity(l.deep_view(), r.deep_view()) >= 100 {
            lemma_unit_similarity_full(l.deep_view(), r.deep_view());
        }
        lemma_clusters_of_empty(l.deep_view());
        lemma_clusters_of_empty(r.deep_view());
        if l.len() == 0 || r.len() == 0 {
            lemma_unit_similarity_with_empty(l.deep_view(), r.deep_view());
        }
    }
    similarity_of_units(&l, &r)
}

} // verus!
