use gemma_rs::memory::{assign_id, count_lines, split_words, tokenize, word_overlap, MemoryEngine};

fn sorted(mut v: Vec<String>) -> Vec<String> {
    v.sort();
    v
}

#[test]
fn tokenize_keeps_distinct_lower_case_words() {
    let words = sorted(tokenize("Fix the Rust build; fix THE rust-build again!"));
    assert_eq!(words, vec!["again", "build", "fix", "rust", "the"]);
}

#[test]
fn tokenize_measures_words_in_bytes() {
    let words = sorted(tokenize("é ab éé a1 abc"));
    assert_eq!(words, vec!["abc", "éé"]);
    assert!(tokenize("").is_empty());
    assert!(tokenize("a, b; c").is_empty());
}

#[test]
fn overlap_counts_shared_and_total_words() {
    assert_eq!(word_overlap("deploy the rust service", "rust service crashed"), (2, 5));
    assert_eq!(word_overlap("", "anything here"), (0, 2));
    assert_eq!(word_overlap("", ""), (0, 0));
}

#[test]
fn ids_are_kept_or_generated() {
    assert_eq!(assign_id("abc".to_string()), "abc");
    let id = assign_id(String::new());
    assert_eq!(id.len(), 36);
    let chars: Vec<char> = id.chars().collect();
    for (i, c) in chars.iter().enumerate() {
        if i == 8 || i == 13 || i == 18 || i == 23 {
            assert_eq!(*c, '-');
        } else {
            assert!(c.is_ascii_hexdigit() && !c.is_ascii_uppercase());
        }
    }
    assert_eq!(chars[14], '4');
    assert!("89ab".contains(chars[19]));
    assert_ne!(assign_id(String::new()), id);
}

#[test]
fn journal_lines_are_counted_like_buffered_lines() {
    assert_eq!(count_lines(b""), 0);
    assert_eq!(count_lines(b"{}\n"), 1);
    assert_eq!(count_lines(b"{}\n\n{}"), 3);
    assert_eq!(count_lines(b"\xff\n{}\r\n"), 2);
}

#[test]
fn journal_lies_in_the_memory_directory() {
    assert_eq!(MemoryEngine::at_dir("mem").path(), "mem/experiences.jsonl");
    assert_eq!(MemoryEngine::at_dir("mem/").path(), "mem/experiences.jsonl");
    assert_eq!(MemoryEngine::at_dir("").path(), "experiences.jsonl");
}

#[test]
fn split_words_splits_at_non_alphanumerics_only() {
    let words = sorted(split_words("abc-déf gh_ijkl ÄBC"));
    assert_eq!(words, vec!["abc", "déf", "ijkl", "ÄBC"]);
    assert_eq!(split_words("aaa aaa"), vec!["aaa"]);
}
