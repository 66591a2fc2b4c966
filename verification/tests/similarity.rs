use fuzzy_group::similarity::{
    cal_similarity, cal_similarity_case_insentive, similarity, similarity_of_units,
};

fn units(parts: &[&str]) -> Vec<String> {
    parts.iter().map(|part| part.to_string()).collect()
}

#[test]
fn similarity_of_a_text_with_itself_is_full() {
    for text in ["", "a", "apple", "Apple Pie", "e\u{301}", "日本語"] {
        assert_eq!(similarity(text, text, true), 100);
        assert_eq!(similarity(text, text, false), 100);
        assert_eq!(cal_similarity(text, text), 100);
    }
}

#[test]
fn similarity_is_symmetric() {
    let words = ["", "a", "AB", "ab", "apple", "aple", "banana", "e\u{301}"];
    for left in words {
        for right in words {
            for case_sensitive in [true, false] {
                assert_eq!(
                    similarity(left, right, case_sensitive),
                    similarity(right, left, case_sensitive)
                );
            }
        }
    }
}

#[test]
fn similarity_of_empty_texts() {
    for case_sensitive in [true, false] {
        assert_eq!(similarity("", "", case_sensitive), 100);
        assert_eq!(similarity("", "abc", case_sensitive), 0);
        assert_eq!(similarity("abc", "", case_sensitive), 0);
    }
}

#[test]
fn similarity_stays_in_range() {
    let words = ["", "a", "ab", "abc", "xyz", "apple", "banana", "zzzzzzzzzz"];
    for left in words {
        for right in words {
            for case_sensitive in [true, false] {
                assert!(similarity(left, right, case_sensitive) <= 100);
            }
        }
    }
}

#[test]
fn similarity_follows_the_formula() {
    // (5 - 1) * 100 / 5
    assert_eq!(cal_similarity("apple", "aple"), 80);
    // (7 - 3) * 100 / 7, rounded down
    assert_eq!(cal_similarity("kitten", "sitting"), 57);
    // (3 - 1) * 100 / 3, rounded down
    assert_eq!(cal_similarity("abc", "abd"), 66);
    // (6 - 5) * 100 / 6, rounded down
    assert_eq!(cal_similarity("abcdef", "azzzzz"), 16);
    assert_eq!(cal_similarity("abc", "xyz"), 0);
}

#[test]
fn similarity_measures_length_in_clusters() {
    // One of two clusters differs, although the texts hold three and two
    // code points.
    assert_eq!(cal_similarity("e\u{301}a", "ea"), 50);
    // A single cluster against a different single cluster.
    assert_eq!(cal_similarity("\u{e9}", "e"), 0);
    assert_eq!(cal_similarity("\u{1F1F7}\u{1F1FA}", "x"), 0);
    assert_eq!(cal_similarity("\u{1F1F7}\u{1F1FA}x", "x"), 50);
}

#[test]
fn similarity_can_ignore_case() {
    assert_eq!(cal_similarity("AB", "ab"), 0);
    assert_eq!(cal_similarity_case_insentive("AB", "ab"), 100);
    assert_eq!(similarity("AB", "ab", true), 0);
    assert_eq!(similarity("AB", "ab", false), 100);
    assert_eq!(similarity("Apple", "aPLE", false), 80);
    assert_eq!(similarity("ÉCOLE", "école", false), 100);
}

#[test]
fn similarity_of_cluster_sequences() {
    assert_eq!(similarity_of_units(&units(&[]), &units(&[])), 100);
    assert_eq!(similarity_of_units(&units(&["a"]), &units(&[])), 0);
    assert_eq!(similarity_of_units(&units(&["a", "b"]), &units(&["a", "c"])), 50);
    assert_eq!(
        similarity_of_units(&units(&["a", "p", "p", "l", "e"]), &units(&["a", "p", "l", "e"])),
        80
    );
    assert_eq!(similarity_of_units(&units(&["A"]), &units(&["a"])), 0);
}
