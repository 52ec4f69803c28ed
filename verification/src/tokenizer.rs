use vstd::prelude::*;
use vstd::utf8::*;
use vstd::string::StringExecFns;
use crate::text::{lossy_utf8, string_from_utf8_lossy};

verus! {

/// Id that opens every encoded text.
pub const BOS: usize = 256;

/// Id that closes every encoded text.
pub const EOS: usize = 257;

/// Ids of a byte sequence: each byte is its own id.
pub open spec fn byte_ids(b: Seq<u8>) -> Seq<usize> {
    b.map_values(|x: u8| x as usize)
}

/// The byte encoding of a text: `BOS`, one id per UTF-8 byte, `EOS`.
pub open spec fn byte_encoding(text: Seq<char>) -> Seq<usize> {
    seq![BOS] + byte_ids(encode_utf8(text)) + seq![EOS]
}

/// The bytes that a token sequence stands for: the ids below 256, in order.
pub open spec fn low_bytes(t: Seq<usize>) -> Seq<u8>
    decreases t.len(),
{
    if t.len() == 0 {
        seq![]
    } else if t.last() < 256 {
        low_bytes(t.drop_last()).push(t.last() as u8)
    } else {
        low_bytes(t.drop_last())
    }
}

/// The sentence that the built-in corpus repeats.
pub open spec fn corpus_sentence() -> Seq<char> {
    "Rust is a systems programming language. A small language model learns to predict the next token. Rust makes the engine fast and explicit. "@
}

/// `n` copies of `s`, one after another.
pub open spec fn repeat(s: Seq<char>, n: nat) -> Seq<char>
    decreases n,
{
    if n == 0 {
        seq![]
    } else {
        repeat(s, (n - 1) as nat) + s
    }
}

/// Byte-level tokenizer: 256 byte ids plus `BOS` and `EOS`.
pub struct Tokenizer;

impl Tokenizer {
    pub fn new() -> (t: Self) {
        Tokenizer
    }

    /// `BOS`, the UTF-8 bytes of `s` as ids, `EOS`.
    pub fn encode(&self, s: &str) -> (ids: Vec<usize>)
        ensures
            ids@ == byte_encoding(s@),
    {
        let b = s.as_bytes();
        let n = b.len();
        let mut v: Vec<usize> = Vec::new();
        v.push(BOS);
        let mut i: usize = 0;
        while i < n
            invariant
                n == b@.len(),
                b@ == encode_utf8(s@),
                0 <= i <= n,
                v@ == seq![BOS] + byte_ids(b@.subrange(0, i as int)),
            decreases n - i,
        {
            v.push(b[i] as usize);
            i += 1;
            assert(byte_ids(b@.subrange(0, i as int)) =~= byte_ids(b@.subrange(0, i - 1)).push(
                b@[i - 1] as usize,
            ));
        }
        v.push(EOS);
        assert(b@.subrange(0, n as int) =~= b@);
        v
    }

    /// The ids below 256 taken as bytes and decoded as UTF-8, with invalid
    /// sequences replaced; `BOS`, `EOS` and larger ids are dropped.
    pub fn decode(&self, t: &[usize]) -> (s: String)
        ensures
            s@ == lossy_utf8(low_bytes(t@)),
            valid_utf8(low_bytes(t@)) ==> s@ == decode_utf8(low_bytes(t@)),
    {
        let n = t.len();
        let mut bytes: Vec<u8> = Vec::new();
        let mut i: usize = 0;
        while i < n
            invariant
                n == t@.len(),
                0 <= i <= n,
                bytes@ == low_bytes(t@.subrange(0, i as int)),
            decreases n - i,
        {
            let x = t[i];
            if x < 256 {
                bytes.push(x as u8);
            }
            i += 1;
            assert(t@.subrange(0, i - 1) =~= t@.subrange(0, i as int).drop_last());
        }
        assert(t@.subrange(0, n as int) =~= t@);
        string_from_utf8_lossy(bytes.as_slice())
    }
}

/// The built-in training text: one sentence about Rust, 64 times.
pub fn tiny_corpus() -> (s: String)
    ensures
        s@ == repeat(corpus_sentence(), 64),
{
    let sentence = "Rust is a systems programming language. A small language model learns to predict the next token. Rust makes the engine fast and explicit. ";
    let mut out = String::new();
    let mut k: usize = 0;
    while k < 64
        invariant
            k <= 64,
            sentence@ == corpus_sentence(),
            out@ == repeat(corpus_sentence(), k as nat),
        decreases 64 - k,
    {
        out.append(sentence);
        k += 1;
    }
    out
}

/// Decoding what was encoded gives the text back: the bytes are the text's
/// UTF-8, which is valid, so nothing is replaced.
pub proof fn lemma_byte_round_trip(text: Seq<char>)
    ensures
        low_bytes(byte_encoding(text)) == encode_utf8(text),
        valid_utf8(low_bytes(byte_encoding(text))),
        decode_utf8(low_bytes(byte_encoding(text))) == text,
{
    let b = encode_utf8(text);
    lemma_low_bytes_of_ids(b);
    let e = byte_encoding(text);
    assert(e.drop_last() =~= seq![BOS] + byte_ids(b));
    lemma_low_bytes_skip_bos(b);
    encode_utf8_decode_utf8(text);
    encode_utf8_valid_utf8(text);
}

proof fn lemma_low_bytes_of_ids(b: Seq<u8>)
    ensures
        low_bytes(byte_ids(b)) == b,
    decreases b.len(),
{
    if b.len() > 0 {
        lemma_low_bytes_of_ids(b.drop_last());
        assert(byte_ids(b).drop_last() =~= byte_ids(b.drop_last()));
        assert(b.drop_last().push(b.last()) =~= b);
    } else {
        assert(b =~= Seq::<u8>::empty());
    }
}

proof fn lemma_low_bytes_skip_bos(b: Seq<u8>)
    ensures
        low_bytes(seq![BOS] + byte_ids(b)) == low_bytes(byte_ids(b)),
    decreases b.len(),
{
    let s = seq![BOS] + byte_ids(b);
    if b.len() == 0 {
        assert(s.drop_last() =~= Seq::<usize>::empty());
        assert(byte_ids(b) =~= Seq::<usize>::empty());
    } else {
        lemma_low_bytes_skip_bos(b.drop_last());
        assert(s.last() == byte_ids(b).last());
        assert(s.drop_last() =~= seq![BOS] + byte_ids(b.drop_last()));
        assert(byte_ids(b).drop_last() =~= byte_ids(b.drop_last()));
    }
}

/// Every id of an encoding lies below 258, the byte vocabulary.
pub proof fn lemma_byte_ids_fit(text: Seq<char>)
    ensures
        forall|i: int| 0 <= i < byte_encoding(text).len() ==> #[trigger] byte_encoding(text)[i]
            < 258,
{
}

} // verus!
