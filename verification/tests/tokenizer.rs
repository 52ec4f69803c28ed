use gemma_rs::tokenizer::{tiny_corpus, Tokenizer, BOS, EOS};

#[test]
fn byte_encoding_wraps_bytes_in_specials() {
    let t = Tokenizer::new();
    assert_eq!(t.encode("Rust"), vec![256, 82, 117, 115, 116, 257]);
    assert_eq!(t.encode(""), vec![BOS, EOS]);
    assert_eq!(t.encode("é"), vec![256, 0xC3, 0xA9, 257]);
}

#[test]
fn byte_decoding_round_trips_and_drops_specials() {
    let t = Tokenizer::new();
    let text = "Rust + UTF-8: café\nhello";
    assert_eq!(t.decode(&t.encode(text)), text);
    assert_eq!(t.decode(&[256, 72, 105, 300, 257]), "Hi");
    assert_eq!(t.decode(&[0xC3]), "\u{FFFD}");
}

#[test]
fn tiny_corpus_repeats_its_sentence() {
    let sentence = "Rust is a systems programming language. A small language model learns to predict the next token. Rust makes the engine fast and explicit. ";
    let c = tiny_corpus();
    assert_eq!(c.len(), sentence.len() * 64);
    assert_eq!(c, sentence.repeat(64));
}
