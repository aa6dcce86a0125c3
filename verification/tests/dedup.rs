use transcript_merger::deduplicator::DeduplicationLevel;
use transcript_merger::deduplicator::Deduplicator;

#[test]
fn test_deduplicate_words() {
    let words = vec!["hello", "world", "hello", "world"];

    // test consecutive deduplication
    let mut duplicator = Deduplicator::new(DeduplicationLevel::Consecutive);
    let result = duplicator.deduplicate_words(&words).unwrap();
    assert_eq!(result, "hello world hello world");

    // test all deduplication
    let mut duplicator = Deduplicator::new(DeduplicationLevel::All);
    let result = duplicator.deduplicate_words(&words).unwrap();
    assert_eq!(result, "hello world");
}

#[test]
fn test_deduplicate_words_empty_input() {
    let words = vec![];

    let mut duplicator = Deduplicator::new(DeduplicationLevel::Consecutive);
    let result = duplicator.deduplicate_words(&words);
    assert!(result.is_err());
}

#[test]
fn empty_input_reports_message_once() {
    let words: Vec<&str> = Vec::new();
    let mut duplicator = Deduplicator::new(DeduplicationLevel::All);
    let result = duplicator.deduplicate_words(&words);
    assert_eq!(result, Err("Input vector must not be empty".to_string()));
    assert_eq!(duplicator.error_log, vec!["Input vector must not be empty".to_string()]);
}

#[test]
fn handle_error_records_each_message() {
    let mut duplicator = Deduplicator::new(DeduplicationLevel::Consecutive);
    duplicator.handle_error("first failure");
    duplicator.handle_error("second failure");
    assert_eq!(
        duplicator.error_log,
        vec!["first failure".to_string(), "second failure".to_string()]
    );
}

#[test]
fn consecutive_filter_is_idempotent() {
    let words = vec!["a", "a", "b", "b", "a"];
    let mut duplicator = Deduplicator::new(DeduplicationLevel::Consecutive);
    let once = duplicator.deduplicate_words(&words).unwrap();
    assert_eq!(once, "a b a");

    let tokens: Vec<&str> = once.split(' ').collect();
    let twice = duplicator.deduplicate_words(&tokens).unwrap();
    assert_eq!(twice, once);
}

#[test]
fn all_mode_keeps_first_occurrences() {
    let words = vec!["a", "b", "a", "c", "b"];
    let mut duplicator = Deduplicator::new(DeduplicationLevel::All);
    let result = duplicator.deduplicate_words(&words).unwrap();
    assert_eq!(result, "a b c");

    let kept: Vec<&str> = result.split(' ').collect();
    for (i, x) in kept.iter().enumerate() {
        for y in kept.iter().skip(i + 1) {
            assert_ne!(x, y);
        }
    }
    for w in &words {
        assert!(kept.contains(w));
    }
    for k in &kept {
        assert!(words.contains(k));
    }
}

#[test]
fn output_order_is_subsequence_of_input() {
    let words = vec!["x", "x", "y", "x"];
    let mut duplicator = Deduplicator::new(DeduplicationLevel::Consecutive);
    let result = duplicator.deduplicate_words(&words).unwrap();
    assert_eq!(result, "x y x");

    let kept: Vec<&str> = result.split(' ').collect();
    let mut next: usize = 0;
    for k in &kept {
        while next < words.len() && &words[next] != k {
            next += 1;
        }
        assert!(next < words.len(), "output token out of input order");
        next += 1;
    }
}

#[test]
fn single_word_is_kept() {
    let words = vec!["alone"];
    let mut duplicator = Deduplicator::new(DeduplicationLevel::All);
    let result = duplicator.deduplicate_words(&words).unwrap();
    assert_eq!(result, "alone");
}
