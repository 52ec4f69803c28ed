use gemma_rs::amd_tokenizer::AmdTokenizer;
use gemma_rs::table_file::TokenizerFileError;

#[test]
fn round_trip_is_exact() {
    let tokenizer = AmdTokenizer::train("hello world hello Rust", 1024);
    let text = "Rust + UTF-8: café\nhello world";
    let encoded = tokenizer.encode(text);
    assert_eq!(tokenizer.decode(&encoded), text);
}

#[test]
fn ids_fit_vocab() {
    let tokenizer = AmdTokenizer::train("a b c Rust language model", 512);
    let encoded = tokenizer.encode("Rust model");
    assert!(encoded.into_iter().all(|id| id < tokenizer.vocab_size()));
}

#[test]
fn encoding_is_framed_by_specials() {
    let tokenizer = AmdTokenizer::train("hello world hello Rust", 1024);
    let encoded = tokenizer.encode("hello");
    assert_eq!(encoded[0], 1022);
    assert_eq!(*encoded.last().unwrap(), 1023);
    assert!(encoded.len() < 7, "a learned piece should cover part of the word");
}

#[test]
fn unknown_bytes_fall_back_to_byte_ids() {
    let tokenizer = AmdTokenizer::train("", 300);
    assert_eq!(tokenizer.encode("ab"), vec![298, 97, 98, 299]);
}

#[test]
fn decode_replaces_invalid_utf8() {
    let tokenizer = AmdTokenizer::train("", 300);
    assert_eq!(tokenizer.decode(&[0x61, 0xFF, 0x62]), "a\u{FFFD}b");
    assert_eq!(tokenizer.decode(&[298, 0x61, 299, 5000]), "a");
}

#[test]
fn training_is_deterministic() {
    let a = AmdTokenizer::train("the quick brown fox jumps over the lazy dog the fox", 600);
    let b = AmdTokenizer::train("the quick brown fox jumps over the lazy dog the fox", 600);
    assert_eq!(a.to_file_bytes(), b.to_file_bytes());
}

#[test]
fn save_then_load_gives_the_same_tokenizer() {
    let a = AmdTokenizer::train("hello world hello Rust, hello café", 700);
    let bytes = a.to_file_bytes();
    let text = String::from_utf8(bytes.clone()).unwrap();
    assert!(text.starts_with("AMDTOK1\n700\n"));
    let b = AmdTokenizer::from_file_text(&text).unwrap();
    assert_eq!(b.vocab_size(), 700);
    assert_eq!(b.to_file_bytes(), bytes);
    let sample = "hello Rust café";
    assert_eq!(a.encode(sample), b.encode(sample));
}

#[test]
fn load_reads_entries_and_skips_blank_lines() {
    let t = AmdTokenizer::from_file_text("AMDTOK1\r\n300\r\n\r\n   \n256 6162\n+257 +a\n").unwrap();
    assert_eq!(t.vocab_size(), 300);
    assert_eq!(t.encode("ab\n"), vec![298, 256, 257, 299]);
    assert_eq!(t.encode("abab"), vec![298, 256, 256, 299]);
}

#[test]
fn load_refuses_bad_files() {
    let cases: Vec<(&str, TokenizerFileError)> = vec![
        ("", TokenizerFileError::InvalidHeader),
        ("AMDTOK2\n300\n", TokenizerFileError::InvalidHeader),
        ("AMDTOK1", TokenizerFileError::MissingVocabSize),
        ("AMDTOK1\nabc\n", TokenizerFileError::InvalidVocabSize),
        ("AMDTOK1\n100\n", TokenizerFileError::VocabTooSmall),
        ("AMDTOK1\n300\n256\n", TokenizerFileError::MalformedEntry),
        ("AMDTOK1\n300\nx 6162\n", TokenizerFileError::InvalidTokenId),
        ("AMDTOK1\n300\n298 6162\n", TokenizerFileError::TokenIdOutOfRange),
        ("AMDTOK1\n300\n255 6162\n", TokenizerFileError::TokenIdOutOfRange),
        ("AMDTOK1\n300\n256 616\n", TokenizerFileError::TokenIdOutOfRange),
        ("AMDTOK1\n300\n256 zz\n", TokenizerFileError::InvalidTokenHex),
        ("AMDTOK1\n300\n256 aéb\n", TokenizerFileError::InvalidTokenBytes),
    ];
    for (text, expected) in cases {
        match AmdTokenizer::from_file_text(text) {
            Ok(_) => panic!("accepted {text:?}"),
            Err(e) => assert_eq!(e, expected, "for {text:?}"),
        }
    }
}

#[test]
fn minimum_vocabulary_has_no_learned_pieces() {
    let t = AmdTokenizer::train("aa aa aa aa", 258);
    assert_eq!(t.to_file_bytes(), b"AMDTOK1\n258\n".to_vec());
    assert_eq!(t.encode("aa"), vec![256, 97, 97, 257]);
}

#[test]
fn special_ids_are_the_last_two() {
    let t = AmdTokenizer::train("", 300);
    assert_eq!((t.bos(), t.eos()), (298, 299));
    let target = AmdTokenizer::train("", 16_384);
    assert_eq!((target.bos(), target.eos()), (gemma_rs::amd_tokenizer::BOS, gemma_rs::amd_tokenizer::EOS));
}
