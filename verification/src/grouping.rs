//! Greedy grouping of rows by the similarity of their keys.
//!
//! Every row is the representative of one group. The groups are filled in
//! row order, and a group takes each row that resembles its representative
//! closely enough, unless an earlier group has taken that row already. A row
//! that was taken still heads its own group, and that group may in turn take
//! rows that nobody has taken yet.

use crate::segment::{comparison_units, segment};
use crate::similarity::{
    lemma_unit_similarity_bounded, lemma_unit_similarity_full, similarity_of_units,
    unit_similarity,
};
use vstd::prelude::*;

verus! {

/// The keys of a table in the form in which they are compared: one sequence
/// of grapheme clusters per row.
pub type Keys = Seq<Seq<Seq<char>>>;

/// Rows `j` and `i` are two different rows whose keys are at least
/// `threshold` similar.
pub open spec fn similar(keys: Keys, threshold: nat, j: int, i: int) -> bool {
    j != i && unit_similarity(keys[j], keys[i]) >= threshold
}

/// Some row before `k` resembles row `i`, so that row `i` has been taken by
/// the time the group of row `k` is filled.
pub open spec fn claimed_before(keys: Keys, threshold: nat, k: int, i: int) -> bool {
    exists|j: int| 0 <= j < k && similar(keys, threshold, j, i)
}

/// The group of row `k` takes row `i`: the two resemble each other, and no
/// earlier group has taken row `i`.
pub open spec fn absorbs(keys: Keys, threshold: nat, k: int, i: int) -> bool {
    similar(keys, threshold, k, i) && !claimed_before(keys, threshold, k, i)
}

/// The row numbers below `n`, in ascending order.
pub open spec fn rows_below(n: nat) -> Seq<int> {
    Seq::new(n, |i: int| i)
}

/// The rows below `limit` that the group of row `k` takes, in ascending
/// order.
pub open spec fn absorbed_below(keys: Keys, threshold: nat, k: int, limit: nat) -> Seq<int> {
    rows_below(limit).filter(|i: int| absorbs(keys, threshold, k, i))
}

/// The rows below `limit` that resemble row `k`, in ascending order.
pub open spec fn similar_below(keys: Keys, threshold: nat, k: int, limit: nat) -> Seq<int> {
    rows_below(limit).filter(|i: int| similar(keys, threshold, k, i))
}

/// The group of row `k` where no row is taken twice: the representative,
/// then the rows it takes in ascending order.
pub open spec fn exclusive_group(keys: Keys, threshold: nat, k: int) -> Seq<int> {
    seq![k] + absorbed_below(keys, threshold, k, keys.len())
}

/// The group of row `k` where groups may overlap: the representative, then
/// every other row that resembles it, in ascending order.
pub open spec fn overlapping_group(keys: Keys, threshold: nat, k: int) -> Seq<int> {
    seq![k] + similar_below(keys, threshold, k, keys.len())
}

/// The row numbers that a group holds, as mathematical integers.
pub open spec fn as_rows(group: Seq<usize>) -> Seq<int> {
    group.map_values(|i: usize| i as int)
}

/// The comparison units of every key of a column.
pub open spec fn key_units(keys: Seq<Seq<char>>, case_sensitive: bool) -> Keys {
    Seq::new(keys.len(), |i: int| comparison_units(keys[i], case_sensitive))
}

/// Extending the range of candidates by one row appends that row to the
/// filtered rows if it passes the filter, and changes nothing otherwise.
pub proof fn lemma_filter_next_row(limit: nat, keep: spec_fn(int) -> bool)
    ensures
        rows_below(limit + 1).filter(keep) == if keep(limit as int) {
            rows_below(limit).filter(keep).push(limit as int)
        } else {
            rows_below(limit).filter(keep)
        },
        rows_below(0).filter(keep) == Seq::<int>::empty(),
{
    reveal(Seq::filter);
    assert(rows_below(limit + 1).drop_last() =~= rows_below(limit));
    assert(rows_below(limit + 1).last() == limit as int);
    assert(rows_below(0).filter(keep) =~= Seq::<int>::empty());
}

/// A row has been taken before group `k + 1` is filled exactly if it had been
/// taken before group `k` was, or resembles row `k`.
pub proof fn lemma_claimed_next_group(keys: Keys, threshold: nat, k: int, i: int)
    requires
        0 <= k,
    ensures
        claimed_before(keys, threshold, k + 1, i) <==> (claimed_before(keys, threshold, k, i)
            || similar(keys, threshold, k, i)),
        !claimed_before(keys, threshold, 0, i),
{
    if claimed_before(keys, threshold, k + 1, i) {
        let j = choose|j: int| 0 <= j < k + 1 && similar(keys, threshold, j, i);
        if j < k {
            assert(claimed_before(keys, threshold, k, i));
        }
    }
    if claimed_before(keys, threshold, k, i) {
        let j = choose|j: int| 0 <= j < k && similar(keys, threshold, j, i);
        assert(0 <= j < k + 1 && similar(keys, threshold, j, i));
    }
    if similar(keys, threshold, k, i) {
        assert(0 <= k < k + 1 && similar(keys, threshold, k, i));
    }
}

/// What a filter keeps of the rows below `limit`: exactly the rows that pass
/// it, each once, in ascending order.
pub proof fn lemma_filtered_rows(limit: nat, keep: spec_fn(int) -> bool)
    ensures
        forall|x: int|
            rows_below(limit).filter(keep).contains(x) <==> (0 <= x < limit && keep(x)),
        forall|a: int, b: int|
            0 <= a < b < rows_below(limit).filter(keep).len() ==> rows_below(limit).filter(
                keep,
            )[a] < rows_below(limit).filter(keep)[b],
    decreases limit,
{
    let kept = rows_below(limit).filter(keep);
    if limit == 0 {
        lemma_filter_next_row(0, keep);
    } else {
        let shorter = rows_below((limit - 1) as nat).filter(keep);
        lemma_filtered_rows((limit - 1) as nat, keep);
        lemma_filter_next_row((limit - 1) as nat, keep);
        assert forall|x: int| kept.contains(x) <==> (0 <= x < limit && keep(x)) by {
            if kept.contains(x) {
                let at = choose|at: int| 0 <= at < kept.len() && kept[at] == x;
                if at < shorter.len() {
                    assert(shorter[at] == x);
                    assert(shorter.contains(x));
                }
            }
            if 0 <= x < limit && keep(x) {
                if x == limit - 1 {
                    assert(kept[kept.len() - 1] == x);
                } else {
                    assert(shorter.contains(x));
                    let at = choose|at: int| 0 <= at < shorter.len() && shorter[at] == x;
                    assert(kept[at] == x);
                }
            }
        }
        assert forall|a: int, b: int| 0 <= a < b < kept.len() implies kept[a] < kept[b] by {
            if b >= shorter.len() {
                assert(shorter[a] == kept[a]);
                assert(shorter.contains(kept[a]));
            } else {
                assert(shorter[a] == kept[a]);
                assert(shorter[b] == kept[b]);
            }
        }
    }
}

/// A filter that no row below `limit` passes keeps nothing.
pub proof fn lemma_filter_none(limit: nat, keep: spec_fn(int) -> bool)
    requires
        forall|i: int| 0 <= i < limit ==> !#[trigger] keep(i),
    ensures
        rows_below(limit).filter(keep) == Seq::<int>::empty(),
    decreases limit,
{
    if limit > 0 {
        lemma_filter_none((limit - 1) as nat, keep);
    }
    lemma_filter_next_row(if limit > 0 {
        (limit - 1) as nat
    } else {
        0
    }, keep);
}

/// A filter that exactly one row below `limit` passes keeps that row alone.
pub proof fn lemma_filter_one(limit: nat, keep: spec_fn(int) -> bool, row: int)
    requires
        0 <= row < limit,
        forall|i: int| 0 <= i < limit ==> (#[trigger] keep(i) <==> i == row),
    ensures
        rows_below(limit).filter(keep) == seq![row],
    decreases limit,
{
    lemma_filter_next_row((limit - 1) as nat, keep);
    if row == limit - 1 {
        lemma_filter_none((limit - 1) as nat, keep);
        assert(Seq::<int>::empty().push(row) =~= seq![row]);
    } else {
        lemma_filter_one((limit - 1) as nat, keep, row);
    }
}

/// A filter that every row below `limit` passes but row 0 keeps rows 1, 2 and
/// so on: with row 0 in front, these are all the rows.
pub proof fn lemma_filter_all_but_first(limit: nat, keep: spec_fn(int) -> bool)
    requires
        limit > 0,
        forall|i: int| 0 <= i < limit ==> (#[trigger] keep(i) <==> i != 0),
    ensures
        seq![0int] + rows_below(limit).filter(keep) == rows_below(limit),
    decreases limit,
{
    lemma_filter_next_row((limit - 1) as nat, keep);
    if limit == 1 {
        lemma_filter_next_row(0, keep);
        assert(seq![0int] + Seq::<int>::empty() =~= rows_below(1));
    } else {
        lemma_filter_all_but_first((limit - 1) as nat, keep);
        let shorter = rows_below((limit - 1) as nat).filter(keep);
        assert(seq![0int] + shorter.push(limit - 1) =~= (seq![0int] + shorter).push(limit - 1));
        assert(rows_below((limit - 1) as nat).push(limit - 1) =~= rows_below(limit));
    }
}

/// While a group is being filled, the next candidate is in it already only
/// if it is the representative: the rows taken so far are smaller.
pub proof fn lemma_candidate_in_group(
    group: Seq<int>,
    k: int,
    candidate: nat,
    keep: spec_fn(int) -> bool,
)
    requires
        group == seq![k] + rows_below(candidate).filter(keep),
    ensures
        group.contains(candidate as int) <==> candidate == k,
{
    let taken = rows_below(candidate).filter(keep);
    lemma_filtered_rows(candidate, keep);
    if group.contains(candidate as int) {
        let at = choose|at: int| 0 <= at < group.len() && group[at] == candidate as int;
        if at > 0 {
            assert(taken[at - 1] == candidate as int);
            assert(taken.contains(candidate as int));
        }
    }
    if candidate == k {
        assert(group[0] == candidate as int);
    }
}

/// A group starts with its representative. After it come exactly the rows
/// that the group takes, each once and in ascending order, so that no row
/// stands twice in one group.
pub proof fn lemma_group_members(keys: Keys, threshold: nat, k: int)
    requires
        0 <= k < keys.len(),
    ensures
        exclusive_group(keys, threshold, k)[0] == k,
        forall|i: int|
            exclusive_group(keys, threshold, k).contains(i) <==> (i == k || (0 <= i < keys.len()
                && absorbs(keys, threshold, k, i))),
        forall|a: int, b: int|
            1 <= a < b < exclusive_group(keys, threshold, k).len() ==> exclusive_group(
                keys,
                threshold,
                k,
            )[a] < exclusive_group(keys, threshold, k)[b],
        exclusive_group(keys, threshold, k).no_duplicates(),
{
    let keep = |i: int| absorbs(keys, threshold, k, i);
    let taken = rows_below(keys.len()).filter(keep);
    let group = exclusive_group(keys, threshold, k);
    lemma_filtered_rows(keys.len(), keep);
    assert(group =~= seq![k] + taken);
    assert forall|i: int|
        group.contains(i) <==> (i == k || (0 <= i < keys.len() && absorbs(
            keys,
            threshold,
            k,
            i,
        ))) by {
        if group.contains(i) {
            let at = choose|at: int| 0 <= at < group.len() && group[at] == i;
            if at > 0 {
                assert(taken[at - 1] == i);
                assert(taken.contains(i));
            }
        }
        if i == k {
            assert(group[0] == i);
        } else if 0 <= i < keys.len() && absorbs(keys, threshold, k, i) {
            assert(taken.contains(i));
            let at = choose|at: int| 0 <= at < taken.len() && taken[at] == i;
            assert(group[at + 1] == i);
        }
    }
    assert forall|a: int, b: int| 1 <= a < b < group.len() implies group[a] < group[b] by {
        assert(group[a] == taken[a - 1]);
        assert(group[b] == taken[b - 1]);
    }
    assert forall|a: int, b: int| 0 <= a < group.len() && 0 <= b < group.len() && a != b implies group[a]
        != group[b] by {
        if a == 0 || b == 0 {
            let other = if a == 0 {
                b
            } else {
                a
            };
            assert(group[other] == taken[other - 1]);
            assert(taken.contains(group[other]));
        } else if a < b {
            assert(group[a] < group[b]);
        } else {
            assert(group[b] < group[a]);
        }
    }
}

/// Every member of a group is the number of a row.
pub proof fn lemma_groups_hold_rows(keys: Keys, threshold: nat, k: int)
    requires
        0 <= k < keys.len(),
    ensures
        forall|m: int|
            0 <= m < exclusive_group(keys, threshold, k).len() ==> 0 <= (
            #[trigger] exclusive_group(keys, threshold, k)[m]) < keys.len(),
        forall|m: int|
            0 <= m < overlapping_group(keys, threshold, k).len() ==> 0 <= (
            #[trigger] overlapping_group(keys, threshold, k)[m]) < keys.len(),
{
    let taken = absorbed_below(keys, threshold, k, keys.len());
    let alike = similar_below(keys, threshold, k, keys.len());
    lemma_filtered_rows(keys.len(), |i: int| absorbs(keys, threshold, k, i));
    lemma_filtered_rows(keys.len(), |i: int| similar(keys, threshold, k, i));
    assert forall|m: int| 0 <= m < exclusive_group(keys, threshold, k).len() implies 0 <= (
    #[trigger] exclusive_group(keys, threshold, k)[m]) < keys.len() by {
        if m > 0 {
            assert(exclusive_group(keys, threshold, k)[m] == taken[m - 1]);
            assert(taken.contains(taken[m - 1]));
        }
    }
    assert forall|m: int| 0 <= m < overlapping_group(keys, threshold, k).len() implies 0 <= (
    #[trigger] overlapping_group(keys, threshold, k)[m]) < keys.len() by {
        if m > 0 {
            assert(overlapping_group(keys, threshold, k)[m] == alike[m - 1]);
            assert(alike.contains(alike[m - 1]));
        }
    }
}

/// No row is taken by two groups.
pub proof fn lemma_taken_once(keys: Keys, threshold: nat, first: int, second: int, i: int)
    requires
        0 <= first,
        0 <= second,
        absorbs(keys, threshold, first, i),
        absorbs(keys, threshold, second, i),
    ensures
        first == second,
{
    if first < second {
        assert(0 <= first < second && similar(keys, threshold, first, i));
    } else if second < first {
        assert(0 <= second < first && similar(keys, threshold, second, i));
    }
}

/// A row that resembles any other row is taken by a group, namely by that of
/// the first row it resembles.
pub proof fn lemma_taken_by_first(keys: Keys, threshold: nat, j: int, i: int) -> (k: int)
    requires
        0 <= j,
        similar(keys, threshold, j, i),
    ensures
        0 <= k <= j,
        absorbs(keys, threshold, k, i),
    decreases j,
{
    if claimed_before(keys, threshold, j, i) {
        let earlier = choose|earlier: int| 0 <= earlier < j && similar(keys, threshold, earlier, i);
        lemma_taken_by_first(keys, threshold, earlier, i)
    } else {
        j
    }
}

/// With a threshold of 100 or more, rows whose keys all differ stay apart:
/// every group holds its representative and nothing else.
pub proof fn lemma_distinct_keys_stay_apart(keys: Keys, threshold: nat, k: int)
    requires
        threshold >= 100,
        0 <= k < keys.len(),
        forall|i: int, j: int|
            0 <= i < keys.len() && 0 <= j < keys.len() && i != j ==> keys[i] != keys[j],
    ensures
        exclusive_group(keys, threshold, k) == seq![k],
        overlapping_group(keys, threshold, k) == seq![k],
{
    assert forall|i: int| 0 <= i < keys.len() implies !similar(keys, threshold, k, i) by {
        if similar(keys, threshold, k, i) {
            lemma_unit_similarity_full(keys[k], keys[i]);
        }
    }
    lemma_filter_none(keys.len(), |i: int| absorbs(keys, threshold, k, i));
    lemma_filter_none(keys.len(), |i: int| similar(keys, threshold, k, i));
    assert(seq![k] + Seq::<int>::empty() =~= seq![k]);
}

/// With a threshold above 100 nothing is ever merged.
pub proof fn lemma_threshold_out_of_reach(keys: Keys, threshold: nat, k: int)
    requires
        threshold > 100,
        0 <= k < keys.len(),
    ensures
        exclusive_group(keys, threshold, k) == seq![k],
        overlapping_group(keys, threshold, k) == seq![k],
{
    assert forall|i: int| 0 <= i < keys.len() implies !similar(keys, threshold, k, i) by {
        lemma_unit_similarity_bounded(keys[k], keys[i]);
    }
    lemma_filter_none(keys.len(), |i: int| absorbs(keys, threshold, k, i));
    lemma_filter_none(keys.len(), |i: int| similar(keys, threshold, k, i));
    assert(seq![k] + Seq::<int>::empty() =~= seq![k]);
}

/// With a threshold of 0 every pair of rows is similar enough. The first
/// group then holds all rows in ascending order. The second group takes the
/// one row that was still free, row 0, and every later group holds its
/// representative alone.
pub proof fn lemma_threshold_zero(keys: Keys, k: int)
    requires
        0 <= k < keys.len(),
    ensures
        k == 0 ==> exclusive_group(keys, 0, k) == rows_below(keys.len()),
        k == 1 ==> exclusive_group(keys, 0, k) == seq![1int, 0int],
        k >= 2 ==> exclusive_group(keys, 0, k) == seq![k],
{
    let keep = |i: int| absorbs(keys, 0, k, i);
    if k == 0 {
        assert forall|i: int| 0 <= i < keys.len() implies (#[trigger] keep(i) <==> i != 0) by {}
        lemma_filter_all_but_first(keys.len(), keep);
    } else if k == 1 {
        assert forall|i: int| 0 <= i < keys.len() implies (#[trigger] keep(i) <==> i == 0) by {
            if i != 0 {
                assert(0 <= 0 < k && similar(keys, 0, 0, i));
            }
        }
        lemma_filter_one(keys.len(), keep, 0);
        assert(seq![1int] + seq![0int] =~= seq![1int, 0int]);
    } else {
        assert forall|i: int| 0 <= i < keys.len() implies !#[trigger] keep(i) by {
            if i != 0 {
                assert(0 <= 0 < k && similar(keys, 0, 0, i));
            } else {
                assert(0 <= 1 < k && similar(keys, 0, 1, i));
            }
        }
        lemma_filter_none(keys.len(), keep);
        assert(seq![k] + Seq::<int>::empty() =~= seq![k]);
    }
}

/// Groups rows whose keys have already been split into grapheme clusters,
/// taking no row into more than one group besides its own.
///
/// The result holds one group per row, in row order. A threshold above 100
/// is allowed and leaves every group with its representative alone.
pub fn group_units(keys: &Vec<Vec<String>>, threshold: usize) -> (groups: Vec<Vec<usize>>)
    ensures
        groups.len() == keys.len(),
        forall|g: int, m: int|
            0 <= g < groups.len() && 0 <= m < groups[g].len() ==> (#[trigger] groups[g][m])
                < keys.len(),
        forall|k: int|
            0 <= k < keys.len() ==> as_rows((#[trigger] groups[k])@) == exclusive_group(
                keys.deep_view(),
                threshold as nat,
                k,
            ),
{
    let ghost units = keys.deep_view();
    let ghost level = threshold as nat;
    let n = keys.len();
    let mut visited: Vec<bool> = Vec::new();
    let mut filled: usize = 0;
    while filled < n
        invariant
            filled <= n,
            visited.len() == filled,
            forall|i: int| 0 <= i < filled ==> !(#[trigger] visited[i]),
        decreases n - filled,
    {
        visited.push(false);
        filled = filled + 1;
    }
    proof {
        assert forall|i: int| 0 <= i < n implies (#[trigger] visited[i]) == claimed_before(
            units,
            level,
            0,
            i,
        ) by {
            lemma_claimed_next_group(units, level, 0, i);
        }
    }

    let mut groups: Vec<Vec<usize>> = Vec::new();
    let mut k: usize = 0;
    while k < n
        invariant
            k <= n,
            n == keys.len(),
            units == keys.deep_view(),
            level == threshold as nat,
            groups.len() == k,
            visited.len() == n,
            forall|g: int|
                0 <= g < k ==> as_rows((#[trigger] groups[g])@) == exclusive_group(
                    units,
                    level,
                    g,
                ),
            forall|i: int|
                0 <= i < n ==> (#[trigger] visited[i]) == claimed_before(units, level, k as int, i),
        decreases n - k,
    {
        let mut group: Vec<usize> = Vec::new();
        group.push(k);
        proof {
            lemma_filter_next_row(0, |i: int| absorbs(units, level, k as int, i));
            assert(as_rows(group@) =~= seq![k as int] + absorbed_below(units, level, k as int, 0));
        }
        let mut i: usize = 0;
        while i < n
            invariant
                i <= n,
                k < n,
                n == keys.len(),
                units == keys.deep_view(),
                level == threshold as nat,
                visited.len() == n,
                as_rows(group@) == seq![k as int] + absorbed_below(
                    units,
                    level,
                    k as int,
                    i as nat,
                ),
                forall|c: int|
                    0 <= c < n ==> (#[trigger] visited[c]) == (claimed_before(
                        units,
                        level,
                        k as int,
                        c,
                    ) || (c < i && similar(units, level, k as int, c))),
            decreases n - i,
        {
            let ghost before = group@;
            proof {
                lemma_filter_next_row(i as nat, |c: int| absorbs(units, level, k as int, c));
                lemma_candidate_in_group(
                    as_rows(group@),
                    k as int,
                    i as nat,
                    |c: int| absorbs(units, level, k as int, c),
                );
                assert(units[k as int] == keys[k as int].deep_view());
                assert(units[i as int] == keys[i as int].deep_view());
            }
            // The candidate is skipped if the group holds it already, which
            // at this point only its representative can be, or if an earlier
            // group has taken it.
            if i != k && !visited[i] {
                let score = similarity_of_units(&keys[k], &keys[i]);
                if score >= threshold {
                    group.push(i);
                    visited.set(i, true);
                    proof {
                        assert(absorbs(units, level, k as int, i as int));
                        assert(as_rows(group@) =~= as_rows(before).push(i as int));
                    }
                }
            }
            proof {
                assert(as_rows(group@) =~= seq![k as int] + absorbed_below(
                    units,
                    level,
                    k as int,
                    (i + 1) as nat,
                ));
            }
            i = i + 1;
        }
        proof {
            assert forall|c: int| 0 <= c < n implies (#[trigger] visited[c]) == claimed_before(
                units,
                level,
                k + 1,
                c,
            ) by {
                lemma_claimed_next_group(units, level, k as int, c);
            }
        }
        groups.push(group);
        k = k + 1;
    }
    proof {
        assert forall|g: int, m: int|
            0 <= g < groups.len() && 0 <= m < groups[g].len() implies (#[trigger] groups[g][m])
            < keys.len() by {
            lemma_groups_hold_rows(units, level, g);
            assert(as_rows(groups[g]@)[m] == groups[g][m] as int);
        }
    }
    groups
}

/// Groups rows whose keys have already been split into grapheme clusters,
/// letting every group take each row that resembles its representative, so
/// that a row may stand in several groups.
pub fn group_units_overlapping(keys: &Vec<Vec<String>>, threshold: usize) -> (groups: Vec<
    Vec<usize>,
>)
    ensures
        groups.len() == keys.len(),
        forall|g: int, m: int|
            0 <= g < groups.len() && 0 <= m < groups[g].len() ==> (#[trigger] groups[g][m])
                < keys.len(),
        forall|k: int|
            0 <= k < keys.len() ==> as_rows((#[trigger] groups[k])@) == overlapping_group(
                keys.deep_view(),
                threshold as nat,
                k,
            ),
{
    let ghost units = keys.deep_view();
    let ghost level = threshold as nat;
    let n = keys.len();
    let mut groups: Vec<Vec<usize>> = Vec::new();
    let mut k: usize = 0;
    while k < n
        invariant
            k <= n,
            n == keys.len(),
            units == keys.deep_view(),
            level == threshold as nat,
            groups.len() == k,
            forall|g: int|
                0 <= g < k ==> as_rows((#[trigger] groups[g])@) == overlapping_group(
                    units,
                    level,
                    g,
                ),
        decreases n - k,
    {
        let mut group: Vec<usize> = Vec::new();
        group.push(k);
        proof {
            lemma_filter_next_row(0, |i: int| similar(units, level, k as int, i));
            assert(as_rows(group@) =~= seq![k as int] + similar_below(units, level, k as int, 0));
        }
        let mut i: usize = 0;
        while i < n
            invariant
                i <= n,
                k < n,
                n == keys.len(),
                units == keys.deep_view(),
                level == threshold as nat,
                as_rows(group@) == seq![k as int] + similar_below(
                    units,
                    level,
                    k as int,
                    i as nat,
                ),
            decreases n - i,
        {
            let ghost before = group@;
            proof {
                lemma_filter_next_row(i as nat, |c: int| similar(units, level, k as int, c));
                lemma_candidate_in_group(
                    as_rows(group@),
                    k as int,
                    i as nat,
                    |c: int| similar(units, level, k as int, c),
                );
                assert(units[k as int] == keys[k as int].deep_view());
                assert(units[i as int] == keys[i as int].deep_view());
            }
            // The candidate is skipped if the group holds it already, which
            // at this point only its representative can be.
            if i != k {
                let score = similarity_of_units(&keys[k], &keys[i]);
                if score >= threshold {
                    group.push(i);
                    proof {
                        assert(as_rows(group@) =~= as_rows(before).push(i as int));
                    }
                }
            }
            proof {
                assert(as_rows(group@) =~= seq![k as int] + similar_below(
                    units,
                    level,
                    k as int,
                    (i + 1) as nat,
                ));
            }
            i = i + 1;
        }
        groups.push(group);
        k = k + 1;
    }
    proof {
        assert forall|g: int, m: int|
            0 <= g < groups.len() && 0 <= m < groups[g].len() implies (#[trigger] groups[g][m])
            < keys.len() by {
            lemma_groups_hold_rows(units, level, g);
            assert(as_rows(groups[g]@)[m] == groups[g][m] as int);
        }
    }
    groups
}

/// Splits every key of a column into the units in which it is compared.
pub fn segment_keys(keys: &Vec<String>, case_sensitive: bool) -> (units: Vec<Vec<String>>)
    ensures
        units.len() == keys.len(),
        units.deep_view() == key_units(keys.deep_view(), case_sensitive),
        forall|i: int|
            0 <= i < keys.len() ==> (#[trigger] units[i]).deep_view().flatten() == crate::segment::folded(
                keys[i]@,
                case_sensitive,
            ),
{
    let mut units: Vec<Vec<String>> = Vec::new();
    let mut i: usize = 0;
    while i < keys.len()
        invariant
            i <= keys.len(),
            units.len() == i,
            forall|j: int|
                0 <= j < i ==> (#[trigger] units[j]).deep_view() == comparison_units(
                    keys[j]@,
                    case_sensitive,
                ),
            forall|j: int|
                0 <= j < i ==> (#[trigger] units[j]).deep_view().flatten()
                    == crate::segment::folded(keys[j]@, case_sensitive),
        decreases keys.len() - i,
    {
        let key = segment(keys[i].as_str(), case_sensitive);
        units.push(key);
        i = i + 1;
    }
    proof {
        assert(units.deep_view() =~= key_units(keys.deep_view(), case_sensitive));
    }
    units
}

/// Groups the rows of a column, letting groups overlap: the group of a row
/// holds that row and then, in ascending order, every other row whose key is
/// at least `similarity` similar to its own.
pub fn group_by_similarity(keys: &Vec<String>, similarity: usize, case_sensitive: bool) -> (groups:
    Vec<Vec<usize>>)
    ensures
        groups.len() == keys.len(),
        forall|g: int, m: int|
            0 <= g < groups.len() && 0 <= m < groups[g].len() ==> (#[trigger] groups[g][m])
                < keys.len(),
        forall|k: int|
            0 <= k < keys.len() ==> as_rows((#[trigger] groups[k])@) == overlapping_group(
                key_units(keys.deep_view(), case_sensitive),
                similarity as nat,
                k,
            ),
{
    let units = segment_keys(keys, case_sensitive);
    group_units_overlapping(&units, similarity)
}

/// Groups the rows of a column in one pass.
///
/// The result holds one group per row, in row order. The group of row `k`
/// starts with `k`. After it come, in ascending order, the rows whose key is
/// at least `similarity` similar to that of row `k` and which no earlier
/// group has taken. A row that an earlier group took still heads its own
/// group, and is itself never marked as taken for that reason, so it can be
/// taken later by a group that it resembles.
///
/// `similarity` is meant to lie between 0 and 100. Above 100 no two rows
/// are merged.
pub fn group_by_similarity_v2(keys: &Vec<String>, similarity: usize, case_sensitive: bool) -> (groups:
    Vec<Vec<usize>>)
    ensures
        groups.len() == keys.len(),
        forall|g: int, m: int|
            0 <= g < groups.len() && 0 <= m < groups[g].len() ==> (#[trigger] groups[g][m])
                < keys.len(),
        forall|k: int|
            0 <= k < keys.len() ==> as_rows((#[trigger] groups[k])@) == exclusive_group(
                key_units(keys.deep_view(), case_sensitive),
                similarity as nat,
                k,
            ),
        case_sensitive && similarity >= 100 && keys.deep_view().no_duplicates() ==> forall|k: int|
            0 <= k < keys.len() ==> (#[trigger] groups[k])@ == seq![k as usize],
{
    let units = segment_keys(keys, case_sensitive);
    let groups = group_units(&units, similarity);
    proof {
        if case_sensitive && similarity >= 100 && keys.deep_view().no_duplicates() {
            let compared = units.deep_view();
            assert forall|i: int, j: int|
                0 <= i < compared.len() && 0 <= j < compared.len() && i != j implies compared[i]
                != compared[j] by {
                assert(compared[i] == units[i].deep_view());
                assert(compared[j] == units[j].deep_view());
                assert(keys.deep_view()[i] == keys[i]@);
                assert(keys.deep_view()[j] == keys[j]@);
            }
            assert forall|k: int| 0 <= k < keys.len() implies (#[trigger] groups[k])@ == seq![
                k as usize,
            ] by {
                lemma_distinct_keys_stay_apart(compared, similarity as nat, k);
                let rows = as_rows(groups[k]@);
                assert(rows.len() == 1);
                assert(rows[0] == groups[k]@[0] as int);
                assert(groups[k]@ =~= seq![k as usize]);
            }
        }
    }
    groups
}

} // verus!
