use gemma_rs::args::{parse_string, parse_string_arg, parse_usize, parse_usize_arg, str_eq};

fn argv(items: &[&str]) -> Vec<String> {
    items.iter().map(|s| s.to_string()).collect()
}

#[test]
fn numbers_follow_their_option() {
    let args = argv(&["prog", "--steps", "250", "--grad-accum", "+4", "--tokens", "x"]);
    assert_eq!(parse_usize(&args, "--steps", 500), 250);
    assert_eq!(parse_usize(&args, "--grad-accum", 1), 4);
    assert_eq!(parse_usize(&args, "--tokens", 64), 64);
    assert_eq!(parse_usize(&args, "--missing", 7), 7);
    assert_eq!(parse_usize_arg(&args, "--steps", 1), 250);
}

#[test]
fn first_occurrence_wins_and_last_option_has_no_value() {
    let args = argv(&["prog", "--steps", "1", "--steps", "2", "--lr"]);
    assert_eq!(parse_usize(&args, "--steps", 0), 1);
    assert_eq!(parse_string_arg(&args, "--lr"), None);
    assert_eq!(parse_usize(&args, "--lr", 9), 9);
    let big = argv(&["prog", "--n", "99999999999999999999999"]);
    assert_eq!(parse_usize(&big, "--n", 3), 3);
}

#[test]
fn strings_follow_their_option() {
    let args = argv(&["prog", "--data", "corpus.txt", "--prompt", "Rust is"]);
    assert_eq!(parse_string(&args, "--data", "train.txt"), "corpus.txt");
    assert_eq!(parse_string(&args, "--tokenizer", "model.tok"), "model.tok");
    assert_eq!(parse_string_arg(&args, "--prompt"), Some("Rust is"));
    assert_eq!(parse_string_arg(&args, "--resume"), None);
}

#[test]
fn text_equality() {
    assert!(str_eq("café", "café"));
    assert!(!str_eq("cafe", "café"));
}
