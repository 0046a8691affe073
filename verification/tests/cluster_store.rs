use word2vec::errors::Word2VecError;
use word2vec::wordclusters::WordClusters;

#[test]
fn test_cluster_scenario() {
    let clusters = WordClusters::load_from_text("apple 3\nbanana 3\ncarrot 7\n").unwrap();
    assert_eq!(
        clusters.get_words_on_cluster(3),
        Some(&vec!["apple".to_string(), "banana".to_string()])
    );
    assert_eq!(clusters.get_words_on_cluster(7), Some(&vec!["carrot".to_string()]));
    assert_eq!(clusters.get_words_on_cluster(4), None);
    assert_eq!(clusters.get_cluster("carrot"), Some(&7));
    assert_eq!(clusters.get_cluster("apple"), Some(&3));
    assert_eq!(clusters.get_cluster("missing"), None);
}

#[test]
fn test_cluster_forward_inverse_consistency() {
    let clusters =
        WordClusters::load_from_text("apple 3\nbanana 3\ncarrot 7\npear -2\nplum 3\n").unwrap();
    for id in [-2, 3, 7] {
        let words = clusters.get_words_on_cluster(id).unwrap();
        for w in words {
            assert_eq!(clusters.get_cluster(w), Some(&id));
        }
    }
}

#[test]
fn test_cluster_negative_ids_and_blank_lines() {
    let clusters = WordClusters::load_from_text("\n\nup -1\n\ndown +2\n\n").unwrap();
    assert_eq!(clusters.get_cluster("up"), Some(&-1));
    assert_eq!(clusters.get_cluster("down"), Some(&2));
}

#[test]
fn test_cluster_empty_text() {
    let clusters = WordClusters::load_from_text("").unwrap();
    assert_eq!(clusters.get_cluster("anything"), None);
    assert_eq!(clusters.get_words_on_cluster(0), None);
}

#[test]
fn test_cluster_malformed_line_fails_load() {
    assert_eq!(
        WordClusters::load_from_text("apple x\n").err(),
        Some(Word2VecError::Decode)
    );
    assert_eq!(
        WordClusters::load_from_text("apple\n").err(),
        Some(Word2VecError::Decode)
    );
    assert_eq!(
        WordClusters::load_from_text("apple 99999999999\n").err(),
        Some(Word2VecError::Decode)
    );
}

#[test]
fn test_cluster_id_range_limits() {
    let clusters = WordClusters::load_from_text("low -2147483648\nhigh 2147483647\n").unwrap();
    assert_eq!(clusters.get_cluster("low"), Some(&i32::MIN));
    assert_eq!(clusters.get_cluster("high"), Some(&i32::MAX));
    assert_eq!(
        WordClusters::load_from_text("over 2147483648\n").err(),
        Some(Word2VecError::Decode)
    );
    assert_eq!(
        WordClusters::load_from_text("under -2147483649\n").err(),
        Some(Word2VecError::Decode)
    );
}

#[test]
fn test_cluster_duplicate_word_first_assignment_wins() {
    let clusters = WordClusters::load_from_text("w 1\nx 2\nw 2\n").unwrap();
    // the word sits in both lists; the scan finds the earlier cluster first
    assert_eq!(clusters.get_cluster("w"), Some(&1));
    assert_eq!(
        clusters.get_words_on_cluster(2),
        Some(&vec!["x".to_string(), "w".to_string()])
    );
}
