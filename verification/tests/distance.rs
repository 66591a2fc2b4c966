use fuzzy_group::edit_distance::edit_distance;
use fuzzy_group::levenshtein_distance;
use fuzzy_group::segment::segment;

fn units(parts: &[&str]) -> Vec<String> {
    parts.iter().map(|part| part.to_string()).collect()
}

#[test]
fn distance_of_classic_pairs() {
    assert_eq!(levenshtein_distance("kitten", "sitting"), 3);
    assert_eq!(levenshtein_distance("flaw", "lawn"), 2);
    assert_eq!(levenshtein_distance("saturday", "sunday"), 3);
    assert_eq!(levenshtein_distance("apple", "aple"), 1);
    assert_eq!(levenshtein_distance("AB", "ab"), 2);
}

#[test]
fn distance_to_self_is_zero() {
    for text in ["", "a", "apple", "e\u{301}", "日本語", "a\r\nb"] {
        assert_eq!(levenshtein_distance(text, text), 0);
    }
}

#[test]
fn distance_with_empty_is_length() {
    assert_eq!(levenshtein_distance("", ""), 0);
    assert_eq!(levenshtein_distance("", "abc"), 3);
    assert_eq!(levenshtein_distance("abc", ""), 3);
}

#[test]
fn distance_is_symmetric() {
    let words = ["", "a", "ab", "ba", "banana", "bandana", "e\u{301}t\u{e9}"];
    for left in words {
        for right in words {
            assert_eq!(levenshtein_distance(left, right), levenshtein_distance(right, left));
        }
    }
}

#[test]
fn distance_counts_a_cluster_once() {
    // A letter with a combining accent is two code points and one cluster.
    assert_eq!(levenshtein_distance("e\u{301}", ""), 1);
    assert_eq!(levenshtein_distance("", "e\u{301}"), 1);
    // A flag is two regional indicators.
    assert_eq!(levenshtein_distance("\u{1F1F7}\u{1F1FA}", ""), 1);
    // A line break of two characters.
    assert_eq!(levenshtein_distance("\r\n", ""), 1);
    assert_eq!(levenshtein_distance("a\u{310}e\u{301}o\u{308}\u{332}", ""), 3);
    // Replacing the accented letter by a plain one is one substitution.
    assert_eq!(levenshtein_distance("caf\u{65}\u{301}", "cafe"), 1);
}

#[test]
fn distance_never_exceeds_longer_length() {
    let words = ["", "x", "abc", "xyz", "abcdef", "zzzzzzzz"];
    for left in words {
        for right in words {
            let longest = left.len().max(right.len());
            let shortest = left.len().min(right.len());
            let distance = levenshtein_distance(left, right);
            assert!(distance <= longest);
            assert!(distance >= longest - shortest);
        }
    }
}

#[test]
fn distance_of_cluster_sequences() {
    assert_eq!(edit_distance(&units(&[]), &units(&[])), 0);
    assert_eq!(edit_distance(&units(&["a", "b", "c"]), &units(&[])), 3);
    assert_eq!(edit_distance(&units(&[]), &units(&["a", "b"])), 2);
    assert_eq!(edit_distance(&units(&["a", "b", "c"]), &units(&["a", "c"])), 1);
    assert_eq!(edit_distance(&units(&["a", "b", "c"]), &units(&["x", "y", "z"])), 3);
    // Whole clusters are compared, whatever they hold.
    assert_eq!(edit_distance(&units(&["ab", "c"]), &units(&["a", "bc"])), 2);
    assert_eq!(edit_distance(&units(&["e\u{301}"]), &units(&["e"])), 1);
}

#[test]
fn segment_splits_into_clusters() {
    assert_eq!(segment("", true), Vec::<String>::new());
    assert_eq!(segment("abc", true), units(&["a", "b", "c"]));
    assert_eq!(
        segment("a\u{310}e\u{301}o\u{308}\u{332}", true),
        units(&["a\u{310}", "e\u{301}", "o\u{308}\u{332}"])
    );
    assert_eq!(segment("a\r\nb", true), units(&["a", "\r\n", "b"]));
}

#[test]
fn segment_folds_case_on_request() {
    assert_eq!(segment("AbC", false), units(&["a", "b", "c"]));
    assert_eq!(segment("AbC", true), units(&["A", "b", "C"]));
    assert_eq!(segment("ÀÉ", false), units(&["à", "é"]));
}

#[test]
fn segment_gives_the_text_back() {
    for text in ["", "plain", "e\u{301}te\u{301}", "\u{1F1F7}\u{1F1FA}\u{1F1F8}\u{1F1F9}", "a\r\nb"] {
        let clusters = segment(text, true);
        assert!(clusters.iter().all(|cluster| !cluster.is_empty()));
        assert_eq!(clusters.concat(), text);
    }
}
