//! Levenshtein distance over sequences of grapheme clusters.

use crate::segment::{grapheme_clusters, segment};
use vstd::prelude::*;

verus! {

/// The least of three numbers.
pub open spec fn min3(a: nat, b: nat, c: nat) -> nat {
    if a <= b && a <= c {
        a
    } else if b <= c {
        b
    } else {
        c
    }
}

/// The Levenshtein distance of two sequences: the least number of
/// insertions, deletions and substitutions of single elements that turns
/// `a` into `b`.
pub open spec fn levenshtein<T>(a: Seq<T>, b: Seq<T>) -> nat
    decreases a.len() + b.len(),
{
    if a.len() == 0 {
        b.len()
    } else if b.len() == 0 {
        a.len()
    } else if a.last() == b.last() {
        levenshtein(a.drop_last(), b.drop_last())
    } else {
        1 + min3(
            levenshtein(a.drop_last(), b.drop_last()),
            levenshtein(a.drop_last(), b),
            levenshtein(a, b.drop_last()),
        )
    }
}

/// The distance never exceeds the length of the longer sequence.
pub proof fn lemma_levenshtein_upper_bound<T>(a: Seq<T>, b: Seq<T>)
    ensures
        levenshtein(a, b) <= a.len() || levenshtein(a, b) <= b.len(),
    decreases a.len() + b.len(),
{
    if a.len() > 0 && b.len() > 0 {
        lemma_levenshtein_upper_bound(a.drop_last(), b.drop_last());
    }
}

/// The distance is at least the difference of the two lengths.
pub proof fn lemma_levenshtein_lower_bound<T>(a: Seq<T>, b: Seq<T>)
    ensures
        levenshtein(a, b) >= a.len() - b.len(),
        levenshtein(a, b) >= b.len() - a.len(),
    decreases a.len() + b.len(),
{
    if a.len() > 0 && b.len() > 0 {
        lemma_levenshtein_lower_bound(a.drop_last(), b.drop_last());
        lemma_levenshtein_lower_bound(a.drop_last(), b);
        lemma_levenshtein_lower_bound(a, b.drop_last());
    }
}

/// The distance does not depend on the order of its arguments.
pub proof fn lemma_levenshtein_symmetric<T>(a: Seq<T>, b: Seq<T>)
    ensures
        levenshtein(a, b) == levenshtein(b, a),
    decreases a.len() + b.len(),
{
    if a.len() > 0 && b.len() > 0 {
        lemma_levenshtein_symmetric(a.drop_last(), b.drop_last());
        lemma_levenshtein_symmetric(a.drop_last(), b);
        lemma_levenshtein_symmetric(a, b.drop_last());
    }
}

/// A sequence is at distance zero from itself.
pub proof fn lemma_levenshtein_same<T>(a: Seq<T>)
    ensures
        levenshtein(a, a) == 0,
    decreases a.len(),
{
    if a.len() > 0 {
        lemma_levenshtein_same(a.drop_last());
    }
}

/// Only equal sequences are at distance zero.
pub proof fn lemma_levenshtein_zero<T>(a: Seq<T>, b: Seq<T>)
    requires
        levenshtein(a, b) == 0,
    ensures
        a == b,
    decreases a.len() + b.len(),
{
    if a.len() == 0 || b.len() == 0 {
        assert(a =~= b);
    } else {
        lemma_levenshtein_zero(a.drop_last(), b.drop_last());
        assert(a =~= a.drop_last().push(a.last()));
        assert(b =~= b.drop_last().push(b.last()));
    }
}

/// The distance of two prefixes in terms of the distances of shorter
/// prefixes: the rule by which a table of distances is filled.
pub proof fn lemma_levenshtein_prefixes<T>(a: Seq<T>, b: Seq<T>, i: int, j: int)
    requires
        0 < i <= a.len(),
        0 < j <= b.len(),
    ensures
        levenshtein(a.take(i), b.take(j)) == if a[i - 1] == b[j - 1] {
            levenshtein(a.take(i - 1), b.take(j - 1))
        } else {
            1 + min3(
                levenshtein(a.take(i - 1), b.take(j - 1)),
                levenshtein(a.take(i - 1), b.take(j)),
                levenshtein(a.take(i), b.take(j - 1)),
            )
        },
{
    assert(a.take(i).drop_last() =~= a.take(i - 1));
    assert(b.take(j).drop_last() =~= b.take(j - 1));
}

/// The smallest of three table cells.
fn least(a: usize, b: usize, c: usize) -> (m: usize)
    ensures
        m == min3(a as nat, b as nat, c as nat),
{
    if a <= b && a <= c {
        a
    } else if b <= c {
        b
    } else {
        c
    }
}

/// The Levenshtein distance of two sequences of grapheme clusters.
///
/// Fills the classic table of `right.len() + 1` rows and `left.len() + 1`
/// columns, in which the cell at row `i` and column `j` holds the distance
/// between the first `j` clusters of `left` and the first `i` of `right`.
/// Time and space are proportional to the product of the two lengths.
pub fn edit_distance(left: &Vec<String>, right: &Vec<String>) -> (distance: usize)
    ensures
        distance == levenshtein(left.deep_view(), right.deep_view()),
{
    let ghost l = left.deep_view();
    let ghost r = right.deep_view();
    let columns = left.len();
    let rows = right.len();

    let mut first: Vec<usize> = Vec::new();
    first.push(0);
    let mut col: usize = 0;
    while col < columns
        invariant
            col <= columns,
            first.len() == col + 1,
            forall|j: int| 0 <= j <= col ==> first[j] == j,
        decreases columns - col,
    {
        col = col + 1;
        first.push(col);
    }
    let mut table: Vec<Vec<usize>> = Vec::new();
    table.push(first);

    let mut row: usize = 0;
    while row < rows
        invariant
            row <= rows,
            columns == left.len(),
            rows == right.len(),
            l == left.deep_view(),
            r == right.deep_view(),
            table.len() == row + 1,
            forall|i: int| 0 <= i <= row ==> (#[trigger] table[i]).len() == columns + 1,
            forall|i: int, j: int|
                0 <= i <= row && 0 <= j <= columns ==> #[trigger] table[i][j] == levenshtein(
                    l.take(j),
                    r.take(i),
                ),
        decreases rows - row,
    {
        row = row + 1;
        let mut current: Vec<usize> = Vec::new();
        current.push(row);
        let mut col: usize = 0;
        while col < columns
            invariant
                col <= columns,
                0 < row <= rows,
                columns == left.len(),
                rows == right.len(),
                l == left.deep_view(),
                r == right.deep_view(),
                table.len() == row,
                forall|i: int| 0 <= i < row ==> (#[trigger] table[i]).len() == columns + 1,
                forall|i: int, j: int|
                    0 <= i < row && 0 <= j <= columns ==> #[trigger] table[i][j] == levenshtein(
                        l.take(j),
                        r.take(i),
                    ),
                current.len() == col + 1,
                forall|j: int|
                    0 <= j <= col ==> #[trigger] current[j] == levenshtein(
                        l.take(j),
                        r.take(row as int),
                    ),
            decreases columns - col,
        {
            col = col + 1;
            proof {
                lemma_levenshtein_prefixes(l, r, col as int, row as int);
                lemma_levenshtein_upper_bound(l.take(col - 1), r.take(row - 1));
            }
            let cell = if left[col - 1] == right[row - 1] {
                table[row - 1][col - 1]
            } else {
                least(table[row - 1][col - 1], table[row - 1][col], current[col - 1]) + 1
            };
            current.push(cell);
        }
        table.push(current);
    }
    proof {
        assert(l.take(columns as int) =~= l);
        assert(r.take(rows as int) =~= r);
    }
    table[rows][columns]
}

/// The Levenshtein distance of two strings, counted in grapheme clusters, so
/// that a character made of several code points is one unit of editing.
pub fn levenshtein_distance(left: &str, right: &str) -> (distance: usize)
    ensures
        distance == levenshtein(grapheme_clusters(left@), grapheme_clusters(right@)),
        distance == 0 <==> left@ == right@,
        right@.len() == 0 ==> distance == grapheme_clusters(left@).len(),
        left@.len() == 0 ==> distance == grapheme_clusters(right@).len(),
{
    let l = segment(left, true);
    let r = segment(right, true);
    proof {
        if left@ == right@ {
            lemma_levenshtein_same(l.deep_view());
        }
        if levenshtein(l.deep_view(), r.deep_view()) == 0 {
            lemma_levenshtein_zero(l.deep_view(), r.deep_view());
        }
        lemma_clusters_of_empty(l.deep_view());
        lemma_clusters_of_empty(r.deep_view());
    }
    edit_distance(&l, &r)
}

/// Clusters that are not empty make up an empty text only when there are
/// none of them.
pub proof fn lemma_clusters_of_empty(units: Seq<Seq<char>>)
    requires
        forall|i: int| 0 <= i < units.len() ==> (#[trigger] units[i]).len() > 0,
    ensures
        units.len() == 0 <==> units.flatten().len() == 0,
{
    if units.len() > 0 {
        units.lemma_flatten_length_ge_single_element_length(0);
    }
}

} // verus!
