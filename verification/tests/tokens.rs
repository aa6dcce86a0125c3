use transcript_merger::deduplicator::DeduplicationLevel;
use transcript_merger::deduplicator::Deduplicator;
use transcript_merger::tokenizer::split_words;
use transcript_merger::transcript_manager::TranscriptMerger;

#[test]
fn split_words_trims_and_collapses_whitespace() {
    let words = split_words("  hello   world ");
    assert_eq!(words, vec!["hello".to_string(), "world".to_string()]);
}

#[test]
fn split_words_empty_text() {
    let words = split_words("");
    assert!(words.is_empty());
}

#[test]
fn split_words_only_whitespace() {
    let words = split_words(" \t \n ");
    assert!(words.is_empty());
}

#[test]
fn split_words_mixed_whitespace_kinds() {
    let words = split_words("a\tb\nc");
    assert_eq!(words, vec!["a".to_string(), "b".to_string(), "c".to_string()]);
}

#[test]
fn pipeline_merges_then_deduplicates() {
    let merger = TranscriptMerger::new("in.txt");
    let lines = vec!["go go there".to_string(), "there there you".to_string()];
    let merged = merger.merge(&lines).unwrap();
    assert_eq!(merged, "go go there there you");

    let words = split_words(&merged);
    let tokens: Vec<&str> = words.iter().map(|w| w.as_str()).collect();
    let mut duplicator = Deduplicator::new(DeduplicationLevel::Consecutive);
    let result = duplicator.deduplicate_words(&tokens).unwrap();
    assert_eq!(result, "go there you");
}
