use fuzzy_group::grouping::{
    group_by_similarity, group_by_similarity_v2, group_units, group_units_overlapping,
    segment_keys,
};

fn keys(texts: &[&str]) -> Vec<String> {
    texts.iter().map(|text| text.to_string()).collect()
}

#[test]
fn distinct_keys_at_full_threshold_stay_single() {
    let column = keys(&["alpha", "beta", "gamma", "delta", "", "Alpha"]);
    let groups = group_by_similarity_v2(&column, 100, true);
    assert_eq!(groups, vec![vec![0], vec![1], vec![2], vec![3], vec![4], vec![5]]);
}

#[test]
fn threshold_zero_puts_every_row_in_first_group() {
    let column = keys(&["one", "two", "three", "four"]);
    let groups = group_by_similarity_v2(&column, 0, true);
    assert_eq!(groups.len(), 4);
    assert_eq!(groups[0], vec![0, 1, 2, 3]);
    // Row 0 heads the first group and is never marked as taken, so the
    // second group takes it. After that nothing is left to take.
    assert_eq!(groups[1], vec![1, 0]);
    assert_eq!(groups[2], vec![2]);
    assert_eq!(groups[3], vec![3]);
}

#[test]
fn threshold_zero_on_small_columns() {
    assert_eq!(group_by_similarity_v2(&keys(&[]), 0, true), Vec::<Vec<usize>>::new());
    assert_eq!(group_by_similarity_v2(&keys(&["only"]), 0, true), vec![vec![0]]);
    assert_eq!(group_by_similarity_v2(&keys(&["a", "b"]), 0, true), vec![vec![0, 1], vec![1, 0]]);
}

#[test]
fn case_decides_whether_rows_merge() {
    let column = keys(&["AB", "ab"]);
    assert_eq!(group_by_similarity_v2(&column, 100, false), vec![vec![0, 1], vec![1, 0]]);
    assert_eq!(group_by_similarity_v2(&column, 100, true), vec![vec![0], vec![1]]);
}

#[test]
fn apple_aple_banana() {
    let column = keys(&["apple", "aple", "banana"]);
    let groups = group_by_similarity_v2(&column, 80, true);
    // "aple" joins "apple". Its own group then takes "apple", which heads a
    // group and so was never marked as taken. "banana" stays alone.
    assert_eq!(groups, vec![vec![0, 1], vec![1, 0], vec![2]]);
    // One point above the score of the pair, nothing merges.
    assert_eq!(group_by_similarity_v2(&column, 81, true), vec![vec![0], vec![1], vec![2]]);
}

#[test]
fn no_row_is_taken_twice() {
    let column = keys(&["aa", "ab", "aa", "bb", "aa"]);
    let groups = group_by_similarity_v2(&column, 50, true);
    assert_eq!(groups, vec![vec![0, 1, 2, 4], vec![1, 0, 3], vec![2], vec![3], vec![4]]);
    let mut times_taken = vec![0usize; column.len()];
    for group in &groups {
        for member in &group[1..] {
            times_taken[*member] += 1;
        }
    }
    assert!(times_taken.iter().all(|times| *times <= 1));
}

#[test]
fn equal_keys_merge_at_full_threshold() {
    let column = keys(&["same", "other", "same", "same"]);
    assert_eq!(
        group_by_similarity_v2(&column, 100, true),
        vec![vec![0, 2, 3], vec![1], vec![2, 0], vec![3]]
    );
}

#[test]
fn threshold_above_the_scale_merges_nothing() {
    let column = keys(&["same", "same", "same"]);
    assert_eq!(group_by_similarity_v2(&column, 101, true), vec![vec![0], vec![1], vec![2]]);
    assert_eq!(group_by_similarity(&column, 101, true), vec![vec![0], vec![1], vec![2]]);
}

#[test]
fn grouping_repeats_itself() {
    let column = keys(&["apple", "aple", "banana", "bandana", "apply", "Apple"]);
    let first = group_by_similarity_v2(&column, 60, false);
    let second = group_by_similarity_v2(&column, 60, false);
    assert_eq!(first, second);
    assert_eq!(first.len(), column.len());
    for (row, group) in first.iter().enumerate() {
        assert_eq!(group[0], row);
        assert!(group[1..].windows(2).all(|pair| pair[0] < pair[1]));
        assert!(group.iter().all(|member| *member < column.len()));
    }
}

#[test]
fn overlapping_groups_hold_every_similar_row() {
    let column = keys(&["aa", "aa", "aa"]);
    assert_eq!(
        group_by_similarity(&column, 100, true),
        vec![vec![0, 1, 2], vec![1, 0, 2], vec![2, 0, 1]]
    );
    assert_eq!(
        group_by_similarity_v2(&column, 100, true),
        vec![vec![0, 1, 2], vec![1, 0], vec![2]]
    );
    let fruit = keys(&["apple", "aple", "banana"]);
    assert_eq!(group_by_similarity(&fruit, 80, true), vec![vec![0, 1], vec![1, 0], vec![2]]);
    assert_eq!(
        group_by_similarity(&keys(&["AB", "ab"]), 100, false),
        vec![vec![0, 1], vec![1, 0]]
    );
    assert_eq!(group_by_similarity(&keys(&["AB", "ab"]), 100, true), vec![vec![0], vec![1]]);
}

#[test]
fn grouping_counts_clusters_not_code_points() {
    // Each key is two clusters, of which the accented one differs: 50.
    let column = keys(&["e\u{301}a", "ea"]);
    assert_eq!(group_by_similarity_v2(&column, 50, true), vec![vec![0, 1], vec![1, 0]]);
    assert_eq!(group_by_similarity_v2(&column, 51, true), vec![vec![0], vec![1]]);
}

#[test]
fn grouping_of_segmented_keys() {
    let column = keys(&["apple", "aple", "banana"]);
    let units = segment_keys(&column, true);
    assert_eq!(units.len(), 3);
    assert_eq!(units[1], keys(&["a", "p", "l", "e"]));
    assert_eq!(group_units(&units, 80), vec![vec![0, 1], vec![1, 0], vec![2]]);
    assert_eq!(group_units_overlapping(&units, 80), vec![vec![0, 1], vec![1, 0], vec![2]]);
    let folded = segment_keys(&keys(&["AB", "ab"]), false);
    assert_eq!(folded[0], folded[1]);
    assert_eq!(group_units(&folded, 100), vec![vec![0, 1], vec![1, 0]]);
}
