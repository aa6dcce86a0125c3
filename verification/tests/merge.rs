use transcript_merger::errors::MergeTranscriptError;
use transcript_merger::transcript_manager::TranscriptMerger;

fn lines_of(texts: &[&str]) -> Vec<String> {
    texts.iter().map(|t| t.to_string()).collect()
}

#[test]
fn merge_overlapping_lines() {
    let merger = TranscriptMerger::new("in.txt");
    let lines = lines_of(&["Hello there", "there world"]);
    let merged = merger.merge(&lines).unwrap();
    assert_eq!(merged, "Hello there world");
}

#[test]
fn merge_fully_overlapping_line() {
    let merger = TranscriptMerger::new("in.txt");
    let lines = lines_of(&["abc", "abc"]);
    let merged = merger.merge(&lines).unwrap();
    assert_eq!(merged, "abc");
}

#[test]
fn merge_without_overlap() {
    let merger = TranscriptMerger::new("in.txt");
    let lines = lines_of(&["foo", "bar"]);
    let merged = merger.merge(&lines).unwrap();
    assert_eq!(merged, "foo bar");
}

#[test]
fn merge_empty_input() {
    let merger = TranscriptMerger::new("in.txt");
    let lines: Vec<String> = Vec::new();
    let result = merger.merge(&lines);
    match result {
        Err(MergeTranscriptError::InvalidInput(message)) => {
            assert_eq!(message, "Input file is empty");
        }
        _ => panic!("expected InvalidInput for an empty line sequence"),
    }
}

#[test]
fn merge_identical_lines() {
    let merger = TranscriptMerger::new("in.txt");
    let lines = lines_of(&["same line", "same line", "same line"]);
    let merged = merger.merge(&lines).unwrap();
    assert_eq!(merged, "same line");
}

#[test]
fn merge_single_line() {
    let merger = TranscriptMerger::new("in.txt");
    let lines = lines_of(&["only"]);
    let merged = merger.merge(&lines).unwrap();
    assert_eq!(merged, "only");
}

#[test]
fn merge_chain_of_overlaps() {
    let merger = TranscriptMerger::new("in.txt");
    let lines = lines_of(&["Hello there", "there world", "world peace"]);
    let merged = merger.merge(&lines).unwrap();
    assert_eq!(merged, "Hello there world peace");
}

#[test]
fn merge_multibyte_characters() {
    let merger = TranscriptMerger::new("in.txt");
    let lines = lines_of(&["h\u{e9}llo w\u{f6}rld", "w\u{f6}rld \u{fc}ber"]);
    let merged = merger.merge(&lines).unwrap();
    assert_eq!(merged, "h\u{e9}llo w\u{f6}rld \u{fc}ber");
}

#[test]
fn merge_length_bound() {
    let merger = TranscriptMerger::new("in.txt");
    let lines = lines_of(&["abc", "cde", "xyz"]);
    let merged = merger.merge(&lines).unwrap();
    assert_eq!(merged, "abcde xyz");
    let total: usize = lines.iter().map(|l| l.chars().count()).sum();
    let separators = 1;
    assert!(merged.chars().count() <= total + separators);
}

#[test]
fn merger_remembers_input_path() {
    let merger = TranscriptMerger::new("transcript.txt");
    assert_eq!(merger.input_file, "transcript.txt");
}
