use vstd::prelude::*;
use vstd::utf8::*;
use vstd::string::StringSliceAdditionalSpecFns;
use crate::bytes::{bytes_eq, is_prefix, matches_at, push_all};
use crate::decimal::{parse_usize, push_decimal};
use crate::lines::{is_blank, is_blank_exec, line_at, lines_from, lines_of};
use crate::table_file::{
    empty_table, entry_lines, header_line, parse_entry, parse_table_text, push_hex, read_entries,
    lemma_table_text_round_trip, table_text, TokenizerFileError,
};
use crate::text::{lossy_utf8, string_from_utf8_lossy};
use crate::piece_stats::{is_candidate, is_top_selection, lemma_top_selection_unique, select_pieces};

verus! {

/// Start-of-text id of a tokenizer with the target vocabulary. A tokenizer
/// of any size uses its own second-to-last id (`bos`), which is this one
/// only at 16384 ids; so every id it emits stays inside its vocabulary.
pub const BOS: usize = 16_382;

/// End-of-text id of a tokenizer with the target vocabulary. A tokenizer of
/// any size uses its own last id (`eos`), which is this one only at 16384
/// ids.
pub const EOS: usize = 16_383;

/// First id that holds a learned piece; the ids below stand for single bytes.
pub const FIRST_LEARNED_ID: usize = 256;

/// Smallest vocabulary: the 256 bytes plus the two special tokens.
pub const MIN_VOCAB: usize = 258;

// ----------------------------------------------------------------------------
// The model: a tokenizer is its table of pieces, indexed by token id.
// ----------------------------------------------------------------------------

/// Start-of-text id of a table: the second-to-last id.
pub open spec fn bos_of(pieces: Seq<Seq<u8>>) -> int {
    pieces.len() - 2
}

/// End-of-text id of a table: the last id.
pub open spec fn eos_of(pieces: Seq<Seq<u8>>) -> int {
    pieces.len() - 1
}

/// Ids that may carry a learned piece.
pub open spec fn in_learned_range(pieces: Seq<Seq<u8>>, id: int) -> bool {
    FIRST_LEARNED_ID <= id < pieces.len() - 2
}

/// A table is well formed: it has room for bytes and specials, and only the
/// learned range holds pieces.
pub open spec fn table_ok(pieces: Seq<Seq<u8>>) -> bool {
    &&& MIN_VOCAB <= pieces.len() <= usize::MAX
    &&& forall|id: int|
        0 <= id < pieces.len() && !in_learned_range(pieces, id) ==> #[trigger] pieces[id].len()
            == 0
}

/// `id` carries a learned, non-empty piece.
pub open spec fn is_learned(pieces: Seq<Seq<u8>>, id: int) -> bool {
    in_learned_range(pieces, id) && pieces[id].len() > 0
}

/// Lookup order: longer pieces first, then smaller ids.
pub open spec fn ranks_before(pieces: Seq<Seq<u8>>, a: int, b: int) -> bool {
    pieces[a].len() > pieces[b].len() || (pieces[a].len() == pieces[b].len() && a < b)
}

/// The learned piece `id` is a prefix of `bytes`.
pub open spec fn learned_match(pieces: Seq<Seq<u8>>, bytes: Seq<u8>, id: int) -> bool {
    is_learned(pieces, id) && is_prefix(pieces[id], bytes)
}

/// Some learned piece is a prefix of `bytes`.
pub open spec fn has_match(pieces: Seq<Seq<u8>>, bytes: Seq<u8>) -> bool {
    exists|id: int| learned_match(pieces, bytes, id)
}

/// `id` is the longest learned prefix of `bytes` (the smallest id among equals).
pub open spec fn is_best_match(pieces: Seq<Seq<u8>>, bytes: Seq<u8>, id: int) -> bool {
    &&& learned_match(pieces, bytes, id)
    &&& forall|other: int|
        #![trigger learned_match(pieces, bytes, other)]
        learned_match(pieces, bytes, other) && other != id ==> ranks_before(pieces, id, other)
}

/// Greedy tokenization of `bytes` without the special tokens: at each point
/// the best learned prefix, or else the next byte on its own.
pub open spec fn greedy_tokens(pieces: Seq<Seq<u8>>, bytes: Seq<u8>) -> Seq<int>
    decreases bytes.len(),
{
    if bytes.len() == 0 {
        seq![]
    } else {
        let id = choose|id: int| is_best_match(pieces, bytes, id);
        if is_best_match(pieces, bytes, id) {
            seq![id] + greedy_tokens(pieces, bytes.skip(pieces[id].len() as int))
        } else {
            seq![bytes[0] as int] + greedy_tokens(pieces, bytes.skip(1))
        }
    }
}

/// Full encoding of `bytes`: start token, greedy tokens, end token.
pub open spec fn encoding(pieces: Seq<Seq<u8>>, bytes: Seq<u8>) -> Seq<int> {
    seq![bos_of(pieces)] + greedy_tokens(pieces, bytes) + seq![eos_of(pieces)]
}

/// Bytes that one token stands for: itself below 256, its piece in the
/// learned range, nothing otherwise (special or unknown ids).
pub open spec fn token_piece(pieces: Seq<Seq<u8>>, token: int) -> Seq<u8> {
    if 0 <= token < 256 {
        seq![token as u8]
    } else if in_learned_range(pieces, token) {
        pieces[token]
    } else {
        seq![]
    }
}

/// Bytes that a token sequence stands for.
pub open spec fn token_bytes(pieces: Seq<Seq<u8>>, tokens: Seq<int>) -> Seq<u8>
    decreases tokens.len(),
{
    if tokens.len() == 0 {
        seq![]
    } else {
        token_bytes(pieces, tokens.drop_last()) + token_piece(pieces, tokens.last())
    }
}

/// The token ids of a sequence of `usize`s.
pub open spec fn as_ids(tokens: Seq<usize>) -> Seq<int> {
    tokens.map_values(|t: usize| t as int)
}

// ----------------------------------------------------------------------------
// Lemmas on the model.
// ----------------------------------------------------------------------------

/// There is at most one best match.
pub proof fn lemma_best_match_unique(pieces: Seq<Seq<u8>>, bytes: Seq<u8>, a: int, b: int)
    requires
        is_best_match(pieces, bytes, a),
        is_best_match(pieces, bytes, b),
    ensures
        a == b,
{
    if a != b {
        assert(learned_match(pieces, bytes, b));
        assert(learned_match(pieces, bytes, a));
        assert(ranks_before(pieces, a, b));
        assert(ranks_before(pieces, b, a));
    }
}

/// One step of the greedy tokenization when a best match exists.
pub proof fn lemma_greedy_match(pieces: Seq<Seq<u8>>, bytes: Seq<u8>, id: int)
    requires
        is_best_match(pieces, bytes, id),
    ensures
        greedy_tokens(pieces, bytes) == seq![id] + greedy_tokens(
            pieces,
            bytes.skip(pieces[id].len() as int),
        ),
{
    let c = choose|c: int| is_best_match(pieces, bytes, c);
    assert(is_best_match(pieces, bytes, c));
    lemma_best_match_unique(pieces, bytes, c, id);
}

/// One step of the greedy tokenization when no learned piece matches.
pub proof fn lemma_greedy_byte(pieces: Seq<Seq<u8>>, bytes: Seq<u8>)
    requires
        bytes.len() > 0,
        !has_match(pieces, bytes),
    ensures
        greedy_tokens(pieces, bytes) == seq![bytes[0] as int] + greedy_tokens(
            pieces,
            bytes.skip(1),
        ),
{
    let c = choose|c: int| is_best_match(pieces, bytes, c);
    if is_best_match(pieces, bytes, c) {
        assert(learned_match(pieces, bytes, c));
    }
}

/// The bytes of a concatenation are the concatenated bytes.
pub proof fn lemma_token_bytes_concat(pieces: Seq<Seq<u8>>, a: Seq<int>, b: Seq<int>)
    ensures
        token_bytes(pieces, a + b) == token_bytes(pieces, a) + token_bytes(pieces, b),
    decreases b.len(),
{
    if b.len() == 0 {
        assert(a + b =~= a);
    } else {
        lemma_token_bytes_concat(pieces, a, b.drop_last());
        assert((a + b).drop_last() =~= a + b.drop_last());
        assert((a + b).last() == b.last());
    }
}

/// The bytes of a single token.
pub proof fn lemma_token_bytes_single(pieces: Seq<Seq<u8>>, t: int)
    ensures
        token_bytes(pieces, seq![t]) == token_piece(pieces, t),
{
    assert(seq![t].drop_last() =~= Seq::<int>::empty());
    assert(token_bytes(pieces, Seq::<int>::empty()) == Seq::<u8>::empty());
    assert(Seq::<u8>::empty() + token_piece(pieces, t) =~= token_piece(pieces, t));
}

/// Greedy tokenization loses nothing: its tokens stand for exactly the input.
pub proof fn lemma_greedy_round_trip(pieces: Seq<Seq<u8>>, bytes: Seq<u8>)
    requires
        table_ok(pieces),
    ensures
        token_bytes(pieces, greedy_tokens(pieces, bytes)) == bytes,
    decreases bytes.len(),
{
    if bytes.len() == 0 {
    } else {
        let id = choose|id: int| is_best_match(pieces, bytes, id);
        if is_best_match(pieces, bytes, id) {
            let n = pieces[id].len() as int;
            let rest = bytes.skip(n);
            lemma_greedy_round_trip(pieces, rest);
            lemma_token_bytes_concat(pieces, seq![id], greedy_tokens(pieces, rest));
            lemma_token_bytes_single(pieces, id);
            assert(bytes =~= bytes.subrange(0, n) + rest);
        } else {
            let rest = bytes.skip(1);
            lemma_greedy_round_trip(pieces, rest);
            lemma_token_bytes_concat(pieces, seq![bytes[0] as int], greedy_tokens(pieces, rest));
            lemma_token_bytes_single(pieces, bytes[0] as int);
            assert(bytes =~= seq![bytes[0]] + rest);
        }
    }
}

/// Every greedy token is a byte or a learned id.
pub proof fn lemma_greedy_ids_in_range(pieces: Seq<Seq<u8>>, bytes: Seq<u8>)
    requires
        table_ok(pieces),
    ensures
        forall|i: int|
            0 <= i < greedy_tokens(pieces, bytes).len() ==> 0 <= #[trigger] greedy_tokens(
                pieces,
                bytes,
            )[i] < pieces.len() - 2,
    decreases bytes.len(),
{
    if bytes.len() > 0 {
        let id = choose|id: int| is_best_match(pieces, bytes, id);
        if is_best_match(pieces, bytes, id) {
            let rest = bytes.skip(pieces[id].len() as int);
            lemma_greedy_ids_in_range(pieces, rest);
            let g = greedy_tokens(pieces, bytes);
            assert forall|i: int| 0 <= i < g.len() implies 0 <= #[trigger] g[i] < pieces.len()
                - 2 by {
                if i > 0 {
                    assert(g[i] == greedy_tokens(pieces, rest)[i - 1]);
                }
            }
        } else {
            let rest = bytes.skip(1);
            lemma_greedy_ids_in_range(pieces, rest);
            let g = greedy_tokens(pieces, bytes);
            assert forall|i: int| 0 <= i < g.len() implies 0 <= #[trigger] g[i] < pieces.len()
                - 2 by {
                if i > 0 {
                    assert(g[i] == greedy_tokens(pieces, rest)[i - 1]);
                }
            }
        }
    }
}

/// Law: decoding the encoding of any text gives the text back.
pub proof fn lemma_decode_encode(pieces: Seq<Seq<u8>>, text: Seq<char>)
    requires
        table_ok(pieces),
    ensures
        token_bytes(pieces, encoding(pieces, encode_utf8(text))) == encode_utf8(text),
        valid_utf8(token_bytes(pieces, encoding(pieces, encode_utf8(text)))),
        decode_utf8(token_bytes(pieces, encoding(pieces, encode_utf8(text)))) == text,
{
    let b = encode_utf8(text);
    let g = greedy_tokens(pieces, b);
    lemma_greedy_round_trip(pieces, b);
    lemma_token_bytes_concat(pieces, seq![bos_of(pieces)], g);
    lemma_token_bytes_concat(pieces, seq![bos_of(pieces)] + g, seq![eos_of(pieces)]);
    lemma_token_bytes_single(pieces, bos_of(pieces));
    lemma_token_bytes_single(pieces, eos_of(pieces));
    assert(token_bytes(pieces, encoding(pieces, b)) =~= b);
    encode_utf8_valid_utf8(text);
    encode_utf8_decode_utf8(text);
}

/// Law: every id of an encoding lies inside the vocabulary.
pub proof fn lemma_encoding_fits_vocab(pieces: Seq<Seq<u8>>, bytes: Seq<u8>)
    requires
        table_ok(pieces),
    ensures
        forall|i: int|
            0 <= i < encoding(pieces, bytes).len() ==> 0 <= #[trigger] encoding(pieces, bytes)[i]
                < pieces.len(),
{
    lemma_greedy_ids_in_range(pieces, bytes);
    let g = greedy_tokens(pieces, bytes);
    let e = encoding(pieces, bytes);
    assert forall|i: int| 0 <= i < e.len() implies 0 <= #[trigger] e[i] < pieces.len() by {
        if 0 < i < e.len() - 1 {
            assert(e[i] == g[i - 1]);
        }
    }
}

// ----------------------------------------------------------------------------
// The executable tokenizer.
// ----------------------------------------------------------------------------

/// Subword tokenizer with byte fallback: ids below 256 are bytes, the learned
/// range holds byte pieces, and the last two ids are the start and end tokens.
#[derive(Debug)]
pub struct AmdTokenizer {
    vocab_size: usize,
    pieces: Vec<Vec<u8>>,
    by_first: Vec<Vec<usize>>,
}

/// The table that a training run produces: the selected pieces in rank order
/// from the first learned id on, every other id empty.
pub open spec fn learned_table(vocab: int, sel: Seq<Seq<u8>>) -> Seq<Seq<u8>> {
    Seq::new(
        vocab as nat,
        |i: int|
            if FIRST_LEARNED_ID <= i < FIRST_LEARNED_ID + sel.len() {
                sel[i - FIRST_LEARNED_ID]
            } else {
                seq![]
            },
    )
}

/// The best `k` candidate pieces of the text `b` in rank order; there is
/// exactly one such selection (`lemma_top_selection_unique`).
pub open spec fn top_selection(b: Seq<u8>, k: int) -> Seq<Seq<u8>> {
    choose|sel: Seq<Seq<u8>>| is_top_selection(b, k, sel)
}

/// The views of a vector of byte vectors.
pub open spec fn views(v: Seq<Vec<u8>>) -> Seq<Seq<u8>> {
    v.map_values(|p: Vec<u8>| p@)
}

/// The lookup index is exactly the learned pieces grouped by first byte, each
/// group in lookup order.
pub open spec fn index_ok(pieces: Seq<Seq<u8>>, by_first: Seq<Seq<usize>>) -> bool {
    &&& by_first.len() == 256
    &&& forall|b: int, k: int|
        #![trigger by_first[b][k]]
        0 <= b < 256 && 0 <= k < by_first[b].len() ==> is_learned(pieces, by_first[b][k] as int)
            && pieces[by_first[b][k] as int][0] == b
    &&& forall|id: int|
        #![trigger is_learned(pieces, id)]
        is_learned(pieces, id) ==> exists|k: int|
            0 <= k < by_first[pieces[id][0] as int].len() && by_first[pieces[id][0] as int][k]
                == id
    &&& forall|b: int, i: int, j: int|
        #![trigger by_first[b][i], by_first[b][j]]
        0 <= b < 256 && 0 <= i < j < by_first[b].len() ==> ranks_before(
            pieces,
            by_first[b][i] as int,
            by_first[b][j] as int,
        )
}

/// `list` holds exactly the learned ids below `bound` whose piece starts with
/// `b`, in lookup order.
pub open spec fn group_ok(pieces: Seq<Seq<u8>>, b: int, bound: int, list: Seq<usize>) -> bool {
    &&& forall|k: int|
        #![trigger list[k]]
        0 <= k < list.len() ==> is_learned(pieces, list[k] as int) && pieces[list[k] as int][0]
            == b && list[k] < bound
    &&& forall|id: int|
        #![trigger is_learned(pieces, id)]
        is_learned(pieces, id) && pieces[id][0] == b && id < bound ==> exists|k: int|
            0 <= k < list.len() && list[k] == id
    &&& forall|i: int, j: int|
        #![trigger list[i], list[j]]
        0 <= i < j < list.len() ==> ranks_before(pieces, list[i] as int, list[j] as int)
}

/// Groups the learned ids of a table by first byte, each group in lookup order.
fn build_index(pieces: &Vec<Vec<u8>>) -> (idx: Vec<Vec<usize>>)
    requires
        table_ok(views(pieces@)),
    ensures
        index_ok(views(pieces@), idx@.map_values(|v: Vec<usize>| v@)),
{
    let ghost p = views(pieces@);
    let end = pieces.len() - 2;
    let mut idx: Vec<Vec<usize>> = Vec::with_capacity(256);
    let mut b: usize = 0;
    while b < 256
        invariant
            p == views(pieces@),
            table_ok(p),
            end == p.len() - 2,
            0 <= b <= 256,
            idx@.len() == b,
            forall|c: int| 0 <= c < b ==> #[trigger] group_ok(p, c, end as int, idx@[c]@),
        decreases 256 - b,
    {
        let mut list: Vec<usize> = Vec::new();
        let mut id: usize = FIRST_LEARNED_ID;
        while id < end
            invariant
                p == views(pieces@),
                table_ok(p),
                end == p.len() - 2,
                0 <= b < 256,
                FIRST_LEARNED_ID <= id <= end,
                group_ok(p, b as int, id as int, list@),
            decreases end - id,
        {
            assert(pieces@[id as int]@ == p[id as int]);
            let len = pieces[id].len();
            if len > 0 && pieces[id][0] as usize == b {
                let mut j: usize = 0;
                while j < list.len() && pieces[list[j]].len() >= len
                    invariant
                        p == views(pieces@),
                        table_ok(p),
                        len == p[id as int].len(),
                        group_ok(p, b as int, id as int, list@),
                        0 <= j <= list@.len(),
                        forall|i: int| 0 <= i < j ==> p[#[trigger] list@[i] as int].len() >= len,
                    decreases list@.len() - j,
                {
                    assert(is_learned(p, list@[j as int] as int));
                    assert(pieces@[list@[j as int] as int]@ == p[list@[j as int] as int]);
                    j += 1;
                }
                proof {
                    if j < list@.len() {
                        assert(pieces@[list@[j as int] as int]@ == p[list@[j as int] as int]);
                    }
                }
                let ghost old_list = list@;
                list.insert(j, id);
                proof {
                    assert(list@ =~= old_list.insert(j as int, id));
                    assert forall|i: int, k: int|
                        #![trigger list@[i], list@[k]]
                        0 <= i < k < list@.len() implies ranks_before(
                        p,
                        list@[i] as int,
                        list@[k] as int,
                    ) by {
                        if k < j {
                            assert(list@[i] == old_list[i] && list@[k] == old_list[k]);
                        } else if k == j {
                            assert(list@[i] == old_list[i]);
                        } else if i < j {
                            assert(list@[i] == old_list[i] && list@[k] == old_list[k - 1]);
                        } else if i == j {
                            assert(list@[k] == old_list[k - 1]);
                            assert(j < old_list.len());
                            assert(old_list[j as int] == list@[j + 1]);
                            if k - 1 > j {
                                assert(ranks_before(p, old_list[j as int] as int, old_list[k - 1] as int));
                            }
                        } else {
                            assert(list@[i] == old_list[i - 1] && list@[k] == old_list[k - 1]);
                        }
                    }
                    assert forall|o: int|
                        #![trigger is_learned(p, o)]
                        is_learned(p, o) && p[o][0] == b && o < id + 1 implies exists|k: int|
                            0 <= k < list@.len() && list@[k] == o by {
                        if o == id {
                            assert(list@[j as int] == o);
                        } else {
                            let k = choose|k: int| 0 <= k < old_list.len() && old_list[k] == o;
                            if k < j {
                                assert(list@[k] == o);
                            } else {
                                assert(list@[k + 1] == o);
                            }
                        }
                    }
                    assert forall|k: int|
                        #![trigger list@[k]]
                        0 <= k < list@.len() implies is_learned(p, list@[k] as int)
                            && p[list@[k] as int][0] == b && list@[k] < id + 1 by {
                        if k < j {
                            assert(list@[k] == old_list[k]);
                        } else if k > j {
                            assert(list@[k] == old_list[k - 1]);
                        }
                    }
                }
            } else {
                proof {
                    assert forall|o: int|
                        #![trigger is_learned(p, o)]
                        is_learned(p, o) && p[o][0] == b && o < id + 1 implies exists|k: int|
                            0 <= k < list@.len() && list@[k] == o by {
                        if o == id {
                            assert(false);
                        }
                    }
                }
            }
            id += 1;
        }
        proof {
            assert forall|o: int|
                #![trigger is_learned(p, o)]
                is_learned(p, o) && p[o][0] == b && o < end implies exists|k: int|
                    0 <= k < list@.len() && list@[k] == o by {
                if o < FIRST_LEARNED_ID {
                    assert(false);
                }
            }
        }
        idx.push(list);
        b += 1;
    }
    proof {
        let m = idx@.map_values(|v: Vec<usize>| v@);
        assert forall|b: int, k: int|
            #![trigger m[b][k]]
            0 <= b < 256 && 0 <= k < m[b].len() implies is_learned(p, m[b][k] as int)
                && p[m[b][k] as int][0] == b by {
            assert(group_ok(p, b, end as int, idx@[b]@));
            assert(m[b] == idx@[b]@);
        }
        assert forall|id: int|
            #![trigger is_learned(p, id)]
            is_learned(p, id) implies exists|k: int|
                0 <= k < m[p[id][0] as int].len() && m[p[id][0] as int][k] == id by {
            let c = p[id][0] as int;
            assert(group_ok(p, c, end as int, idx@[c]@));
            assert(m[c] == idx@[c]@);
        }
        assert forall|b: int, i: int, j: int|
            #![trigger m[b][i], m[b][j]]
            0 <= b < 256 && 0 <= i < j < m[b].len() implies ranks_before(
                p,
                m[b][i] as int,
                m[b][j] as int,
            ) by {
            assert(group_ok(p, b, end as int, idx@[b]@));
            assert(m[b] == idx@[b]@);
        }
    }
    idx
}

impl View for AmdTokenizer {
    type V = Seq<Seq<u8>>;

    /// The table of pieces, indexed by token id.
    closed spec fn view(&self) -> Seq<Seq<u8>> {
        views(self.pieces@)
    }
}

impl AmdTokenizer {
    #[verifier::type_invariant]
    spec fn inv(self) -> bool {
        &&& self.vocab_size == self.pieces@.len()
        &&& table_ok(views(self.pieces@))
        &&& index_ok(views(self.pieces@), self.by_first@.map_values(|v: Vec<usize>| v@))
    }

    /// Number of token ids, specials included.
    pub fn vocab_size(&self) -> (n: usize)
        ensures
            n == self@.len(),
            table_ok(self@),
    {
        proof {
            use_type_invariant(self);
        }
        self.vocab_size
    }

    /// The start-of-text id: the second-to-last id.
    pub fn bos(&self) -> (b: usize)
        ensures
            b == bos_of(self@),
    {
        proof {
            use_type_invariant(self);
        }
        self.vocab_size - 2
    }

    /// The end-of-text id: the last id.
    pub fn eos(&self) -> (e: usize)
        ensures
            e == eos_of(self@),
    {
        proof {
            use_type_invariant(self);
        }
        self.vocab_size - 1
    }

    /// The learned piece that matches `bytes` at `pos` in lookup order, if any.
    fn lookup(&self, bytes: &[u8], pos: usize) -> (r: Option<usize>)
        requires
            pos < bytes@.len(),
        ensures
            match r {
                Some(id) => is_best_match(self@, bytes@.skip(pos as int), id as int),
                None => !has_match(self@, bytes@.skip(pos as int)),
            },
    {
        proof {
            use_type_invariant(self);
        }
        let ghost p = self@;
        let ghost s = bytes@.skip(pos as int);
        let ghost idx = self.by_first@.map_values(|v: Vec<usize>| v@);
        let first = bytes[pos];
        let ids = &self.by_first[first as usize];
        assert(ids@ == idx[first as int]);
        let count = ids.len();
        let mut k: usize = 0;
        while k < count
            invariant
                count == ids@.len(),
                0 <= k <= count,
                pos < bytes@.len(),
                s == bytes@.skip(pos as int),
                p == self@,
                ids@ == idx[first as int],
                first == s[0],
                index_ok(p, idx),
                p == views(self.pieces@),
                forall|j: int| 0 <= j < k ==> !is_prefix(p[ids@[j] as int], s),
            decreases count - k,
        {
            let id = ids[k];
            assert(ids@[k as int] == idx[first as int][k as int]);
            assert(is_learned(p, id as int));
            assert(self.pieces@[id as int]@ == p[id as int]);
            if matches_at(self.pieces[id].as_slice(), bytes, pos) {
                proof {
                    assert(learned_match(p, s, id as int));
                    assert forall|other: int|
                        #![trigger learned_match(p, s, other)]
                        learned_match(p, s, other) && other != id implies ranks_before(
                        p,
                        id as int,
                        other,
                    ) by {
                        assert(p[other][0] == s[0]);
                        assert(is_learned(p, other));
                        let j = choose|j: int|
                            0 <= j < idx[p[other][0] as int].len() && idx[p[other][0] as int][j]
                                == other;
                        assert(idx[first as int][j] == other);
                        if j < k {
                            assert(!is_prefix(p[ids@[j] as int], s));
                        } else {
                            assert(j != k);
                            assert(idx[first as int][k as int] == id);
                        }
                    }
                }
                return Some(id);
            }
            k += 1;
        }
        proof {
            if has_match(p, s) {
                let other = choose|other: int| learned_match(p, s, other);
                assert(p[other][0] == s[0]);
                assert(is_learned(p, other));
                let j = choose|j: int|
                    0 <= j < idx[p[other][0] as int].len() && idx[p[other][0] as int][j] == other;
                assert(ids@[j] == other);
                assert(false);
            }
        }
        None
    }

    /// Encodes `text` as the start token, the greedy tokens of its UTF-8
    /// bytes, and the end token.
    pub fn encode(&self, text: &str) -> (tokens: Vec<usize>)
        ensures
            as_ids(tokens@) == encoding(self@, encode_utf8(text@)),
    {
        proof {
            use_type_invariant(self);
        }
        let bytes = text.as_bytes();
        let n = bytes.len();
        let ghost p = self@;
        let ghost b = bytes@;
        let mut tokens: Vec<usize> = Vec::with_capacity(n / 2 + 2);
        tokens.push(self.vocab_size - 2);
        let mut pos: usize = 0;
        assert(b.skip(0) == b);
        while pos < n
            invariant
                n == b.len(),
                b == bytes@,
                p == self@,
                table_ok(p),
                0 <= pos <= n,
                as_ids(tokens@) + greedy_tokens(p, b.skip(pos as int)) == seq![bos_of(p)]
                    + greedy_tokens(p, b),
            decreases n - pos,
        {
            let ghost rest = b.skip(pos as int);
            match self.lookup(bytes, pos) {
                Some(id) => {
                    proof {
                        use_type_invariant(self);
                        lemma_greedy_match(p, rest, id as int);
                        assert(self.pieces@[id as int]@ == p[id as int]);
                    }
                    let len = self.pieces[id].len();
                    let ghost before = tokens@;
                    tokens.push(id);
                    proof {
                        assert(rest.skip(len as int) =~= b.skip(pos + len));
                        assert(as_ids(tokens@) =~= as_ids(before).push(id as int));
                        assert(as_ids(before) + greedy_tokens(p, rest) =~= as_ids(tokens@)
                            + greedy_tokens(p, b.skip(pos + len)));
                    }
                    pos = pos + len;
                },
                None => {
                    proof {
                        lemma_greedy_byte(p, rest);
                        assert(rest.skip(1) =~= b.skip(pos + 1));
                    }
                    let ghost before = tokens@;
                    tokens.push(bytes[pos] as usize);
                    proof {
                        assert(as_ids(tokens@) =~= as_ids(before).push(b[pos as int] as int));
                        assert(as_ids(before) + greedy_tokens(p, rest) =~= as_ids(tokens@)
                            + greedy_tokens(p, b.skip(pos + 1)));
                    }
                    pos = pos + 1;
                },
            }
        }
        tokens.push(self.vocab_size - 1);
        tokens
    }

    /// Turns tokens back into text: bytes for ids below 256, pieces for
    /// learned ids, nothing for the special and unknown ids; the bytes are
    /// then decoded as UTF-8 with invalid sequences replaced.
    pub fn decode(&self, tokens: &[usize]) -> (text: String)
        ensures
            text@ == lossy_utf8(token_bytes(self@, as_ids(tokens@))),
            valid_utf8(token_bytes(self@, as_ids(tokens@))) ==> text@ == decode_utf8(
                token_bytes(self@, as_ids(tokens@)),
            ),
    {
        proof {
            use_type_invariant(self);
        }
        let ghost p = self@;
        let n = tokens.len();
        let mut bytes: Vec<u8> = Vec::new();
        let mut i: usize = 0;
        while i < n
            invariant
                n == tokens@.len(),
                0 <= i <= n,
                p == self@,
                p == views(self.pieces@),
                self.vocab_size == p.len(),
                table_ok(p),
                bytes@ == token_bytes(p, as_ids(tokens@.subrange(0, i as int))),
            decreases n - i,
        {
            let token = tokens[i];
            let ghost before = bytes@;
            if token < 256 {
                bytes.push(token as u8);
            } else if token < self.vocab_size - 2 {
                assert(self.pieces@[token as int]@ == p[token as int]);
                push_all(&mut bytes, self.pieces[token].as_slice());
            }
            proof {
                let t = as_ids(tokens@.subrange(0, i + 1));
                assert(t.drop_last() =~= as_ids(tokens@.subrange(0, i as int)));
                assert(t.last() == token as int);
                assert(bytes@ =~= before + token_piece(p, token as int));
            }
            i += 1;
        }
        assert(tokens@.subrange(0, n as int) =~= tokens@);
        string_from_utf8_lossy(bytes.as_slice())
    }

    /// Wraps a well-formed table of pieces, building its lookup index.
    fn from_pieces(pieces: Vec<Vec<u8>>) -> (t: Self)
        requires
            table_ok(views(pieces@)),
        ensures
            t@ == views(pieces@),
    {
        let by_first = build_index(&pieces);
        AmdTokenizer { vocab_size: pieces.len(), pieces, by_first }
    }

    /// Learns a vocabulary of `vocab_size` ids from `text`: the 256 bytes, the
    /// best-ranked pieces of the text (see `is_top_selection`), and the two
    /// special tokens.
    pub fn train(text: &str, vocab_size: usize) -> (t: Self)
        requires
            vocab_size >= MIN_VOCAB,
        ensures
            is_top_selection(
                encode_utf8(text@),
                vocab_size - MIN_VOCAB,
                top_selection(encode_utf8(text@), vocab_size - MIN_VOCAB),
            ),
            t@ == learned_table(
                vocab_size as int,
                top_selection(encode_utf8(text@), vocab_size - MIN_VOCAB),
            ),
    {
        let bytes = text.as_bytes();
        let mut sel = select_pieces(bytes, vocab_size - MIN_VOCAB);
        let ghost sv = sel@.map_values(|p: Vec<u8>| p@);
        let mut pieces: Vec<Vec<u8>> = Vec::with_capacity(vocab_size);
        let mut i: usize = 0;
        while i < FIRST_LEARNED_ID
            invariant
                0 <= i <= FIRST_LEARNED_ID,
                pieces@.len() == i,
                forall|j: int| 0 <= j < i ==> (#[trigger] pieces@[j])@.len() == 0,
            decreases FIRST_LEARNED_ID - i,
        {
            pieces.push(Vec::new());
            i += 1;
        }
        let ghost head = pieces@;
        let ghost selv = sel@;
        pieces.append(&mut sel);
        assert(pieces@ == head + selv);
        while pieces.len() < vocab_size
            invariant
                pieces@.len() <= vocab_size,
                pieces@.len() >= FIRST_LEARNED_ID + selv.len(),
                pieces@.subrange(0, FIRST_LEARNED_ID + selv.len()) == head + selv,
                forall|j: int|
                    FIRST_LEARNED_ID + selv.len() <= j < pieces@.len() ==> (#[trigger] pieces@[j])@.len()
                        == 0,
            decreases vocab_size - pieces@.len(),
        {
            let ghost before = pieces@;
            pieces.push(Vec::new());
            assert(pieces@.subrange(0, FIRST_LEARNED_ID + selv.len()) =~= before.subrange(
                0,
                FIRST_LEARNED_ID + selv.len(),
            ));
        }
        proof {
            let pv = views(pieces@);
            assert forall|j: int| 0 <= j < pv.len() implies #[trigger] pv[j] == learned_table(
                vocab_size as int,
                sv,
            )[j] by {
                if j < FIRST_LEARNED_ID {
                    assert(pieces@[j] == pieces@.subrange(0, FIRST_LEARNED_ID + selv.len())[j]);
                    assert(pieces@[j] == head[j]);
                } else if j < FIRST_LEARNED_ID + selv.len() {
                    assert(pieces@[j] == pieces@.subrange(0, FIRST_LEARNED_ID + selv.len())[j]);
                    assert(pieces@[j] == selv[j - FIRST_LEARNED_ID]);
                }
            }
            assert(pv =~= learned_table(vocab_size as int, sv));
            let b = encode_utf8(text@);
            let k = vocab_size - MIN_VOCAB;
            assert(is_top_selection(b, k, sv));
            lemma_top_selection_unique(b, k, sv, top_selection(b, k));
            assert forall|id: int|
                0 <= id < pv.len() && !in_learned_range(pv, id) implies #[trigger] pv[id].len() == 0
                by {
                if FIRST_LEARNED_ID <= id < FIRST_LEARNED_ID + sv.len() {
                    assert(is_candidate(encode_utf8(text@), sv[id - FIRST_LEARNED_ID]));
                }
            }
        }
        Self::from_pieces(pieces)
    }

    /// Reads a tokenizer from the text of a tokenizer file.
    pub fn from_file_text(text: &str) -> (r: Result<Self, TokenizerFileError>)
        ensures
            match parse_table_text(encode_utf8(text@)) {
                Ok(p) => r matches Ok(t) && t@ == p,
                Err(e) => r matches Err(x) && x == e,
            },
    {
        let b = text.as_bytes();
        let n = b.len();
        let ghost bs = b@;
        if n == 0 {
            assert(lines_of(bs) =~= Seq::<Seq<u8>>::empty());
            return Err(TokenizerFileError::InvalidHeader);
        }
        let (c0, next0) = line_at(b, 0);
        let tag: [u8; 7] = [0x41, 0x4D, 0x44, 0x54, 0x4F, 0x4B, 0x31];
        assert(tag@ =~= header_line());
        if !bytes_eq(&b[0..c0], tag.as_slice()) {
            return Err(TokenizerFileError::InvalidHeader);
        }
        if next0 >= n {
            assert(lines_from(bs, next0 as int) =~= Seq::<Seq<u8>>::empty());
            return Err(TokenizerFileError::MissingVocabSize);
        }
        let (c1, next1) = line_at(b, next0);
        let vocab = match parse_usize(&b[next0..c1]) {
            Some(v) => v,
            None => {
                return Err(TokenizerFileError::InvalidVocabSize);
            },
        };
        if vocab < 258 {
            return Err(TokenizerFileError::VocabTooSmall);
        }
        proof {
            assert(lines_of(bs).skip(2) =~= lines_from(bs, next1 as int));
        }
        let mut pieces: Vec<Vec<u8>> = Vec::new();
        let mut k: usize = 0;
        while k < vocab
            invariant
                pieces@.len() == k,
                k <= vocab,
                forall|j: int| 0 <= j < k ==> (#[trigger] pieces@[j])@.len() == 0,
            decreases vocab - k,
        {
            pieces.push(Vec::new());
            k += 1;
        }
        assert forall|j: int| 0 <= j < vocab implies #[trigger] views(pieces@)[j] == empty_table(
            vocab as nat,
        )[j] by {
            assert(pieces@[j]@ =~= Seq::<u8>::empty());
        }
        assert(views(pieces@) =~= empty_table(vocab as nat));
        let mut i: usize = next1;
        while i < n
            invariant
                n == bs.len(),
                bs == b@,
                bs == encode_utf8(text@),
                vocab >= 258,
                pieces@.len() == vocab,
                table_ok(views(pieces@)),
                i <= n,
                parse_table_text(bs) == read_entries(lines_from(bs, i as int), views(pieces@)),
            decreases n - i,
        {
            let (c, nx) = line_at(b, i);
            let line = &b[i..c];
            let ghost ls = lines_from(bs, i as int);
            assert(ls.drop_first() == lines_from(bs, nx as int));
            assert(ls[0] == line@);
            if !is_blank_exec(line) {
                match parse_entry(line, vocab) {
                    Ok((id, bytes)) => {
                        let ghost before = views(pieces@);
                        let ghost bv = bytes@;
                        pieces.set(id, bytes);
                        proof {
                            assert(views(pieces@) =~= before.update(id as int, bv));
                        }
                    },
                    Err(e) => {
                        proof {
                            assert(views(pieces@).len() == vocab);
                            assert(!is_blank(ls[0]));
                        }
                        return Err(e);
                    },
                }
            }
            i = nx;
        }
        proof {
            assert(lines_from(bs, i as int) =~= Seq::<Seq<u8>>::empty());
        }
        Ok(Self::from_pieces(pieces))
    }

    /// The text of the tokenizer's file: `AMDTOK1`, the vocabulary size, then
    /// one line per learned piece with its id and its bytes in hex.
    pub fn to_file_bytes(&self) -> (out: Vec<u8>)
        ensures
            out@ == table_text(self@),
    {
        proof {
            use_type_invariant(self);
        }
        let ghost p = self@;
        let mut out: Vec<u8> = Vec::new();
        let tag: [u8; 7] = [0x41, 0x4D, 0x44, 0x54, 0x4F, 0x4B, 0x31];
        assert(tag@ =~= header_line());
        push_all(&mut out, tag.as_slice());
        out.push(0x0A);
        push_decimal(&mut out, self.vocab_size as u64);
        out.push(0x0A);
        let ghost head = out@;
        assert(head =~= header_line() + seq![0x0Au8] + crate::decimal::decimal_digits(p.len())
            + seq![0x0Au8]);
        let end = self.vocab_size - 2;
        let mut id: usize = FIRST_LEARNED_ID;
        while id < end
            invariant
                p == self@,
                p == views(self.pieces@),
                table_ok(p),
                end == p.len() - 2,
                FIRST_LEARNED_ID <= id <= end,
                out@ + entry_lines(p, id as int) == head + entry_lines(p, FIRST_LEARNED_ID as int),
            decreases end - id,
        {
            assert(self.pieces@[id as int]@ == p[id as int]);
            if self.pieces[id].len() > 0 {
                let ghost before = out@;
                push_decimal(&mut out, id as u64);
                out.push(0x20);
                push_hex(&mut out, self.pieces[id].as_slice());
                out.push(0x0A);
                assert(out@ + entry_lines(p, id + 1) =~= before + entry_lines(p, id as int));
            }
            id += 1;
        }
        assert(entry_lines(p, end as int) =~= Seq::<u8>::empty());
        assert(out@ =~= table_text(p));
        out
    }
}

/// Saving then loading gives the same tokenizer: the text written for a
/// well-formed table reads back as exactly that table.
pub proof fn lemma_file_round_trip(p: Seq<Seq<u8>>)
    requires
        table_ok(p),
    ensures
        parse_table_text(table_text(p)) == Ok::<Seq<Seq<u8>>, TokenizerFileError>(p),
{
    assert forall|j: int| 0 <= j < 256 implies (#[trigger] p[j]).len() == 0 by {
        assert(!in_learned_range(p, j));
    }
    assert forall|j: int| p.len() - 2 <= j < p.len() implies (#[trigger] p[j]).len() == 0 by {
        assert(!in_learned_range(p, j));
    }
    lemma_table_text_round_trip(p);
}

} // verus!