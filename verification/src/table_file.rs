use vstd::prelude::*;
use crate::decimal::{decimal_digits, parse_usize_spec};
use crate::lines::{is_blank, lines_of};

verus! {

/// Why a tokenizer file was refused.
#[derive(Clone, Copy, Debug, PartialEq, Eq, Structural)]
pub enum TokenizerFileError {
    /// The first line is not the format tag.
    InvalidHeader,
    /// The file ends after the format tag.
    MissingVocabSize,
    /// The second line is not a vocabulary size.
    InvalidVocabSize,
    /// The vocabulary has no room for the bytes and the special tokens.
    VocabTooSmall,
    /// An entry line has no space between id and bytes.
    MalformedEntry,
    /// An entry's id is not a number.
    InvalidTokenId,
    /// An entry's id lies outside the learned range, or its hex has odd length.
    TokenIdOutOfRange,
    /// Two hex characters of an entry do not form UTF-8 text.
    InvalidTokenBytes,
    /// Two hex characters of an entry are not a hex byte.
    InvalidTokenHex,
}

/// The format tag `AMDTOK1`.
pub open spec fn header_line() -> Seq<u8> {
    seq![0x41u8, 0x4D, 0x44, 0x54, 0x4F, 0x4B, 0x31]
}

/// Value of a hex digit of either case.
pub open spec fn hex_digit_value(c: u8) -> Option<nat> {
    if 0x30 <= c <= 0x39 {
        Some((c - 0x30) as nat)
    } else if 0x61 <= c <= 0x66 {
        Some((c - 0x61 + 10) as nat)
    } else if 0x41 <= c <= 0x46 {
        Some((c - 0x41 + 10) as nat)
    } else {
        None
    }
}

/// Two bytes that form UTF-8 text on their own: two ASCII bytes, or one
/// two-byte character.
pub open spec fn pair_is_utf8(c0: u8, c1: u8) -> bool {
    (c0 < 0x80 && c1 < 0x80) || (0xC2 <= c0 <= 0xDF && 0x80 <= c1 <= 0xBF)
}

/// What `u8::from_str_radix(_, 16)` makes of two characters: an optional `+`
/// before one digit, or two digits.
pub open spec fn pair_value(c0: u8, c1: u8) -> Option<nat> {
    if c0 == 0x2B {
        hex_digit_value(c1)
    } else {
        match (hex_digit_value(c0), hex_digit_value(c1)) {
            (Some(a), Some(b)) => Some(a * 16 + b),
            _ => None,
        }
    }
}

/// The bytes that a hex field stands for, two characters per byte.
pub open spec fn decode_hex(h: Seq<u8>) -> Result<Seq<u8>, TokenizerFileError>
    decreases h.len(),
{
    if h.len() < 2 {
        Ok(seq![])
    } else if !pair_is_utf8(h[0], h[1]) {
        Err(TokenizerFileError::InvalidTokenBytes)
    } else {
        match pair_value(h[0], h[1]) {
            None => Err(TokenizerFileError::InvalidTokenHex),
            Some(v) => match decode_hex(h.skip(2)) {
                Ok(rest) => Ok(seq![v as u8] + rest),
                Err(e) => Err(e),
            },
        }
    }
}

/// Position of the first space, or the length when there is none.
pub open spec fn first_space(l: Seq<u8>, i: int) -> int
    decreases l.len() - i,
{
    if i < 0 || i >= l.len() || l[i] == 0x20 {
        i
    } else {
        first_space(l, i + 1)
    }
}

/// The id and bytes of one entry line of a table with `vocab` ids.
pub open spec fn entry_of(l: Seq<u8>, vocab: int) -> Result<(int, Seq<u8>), TokenizerFileError> {
    let sp = first_space(l, 0);
    if sp >= l.len() {
        Err(TokenizerFileError::MalformedEntry)
    } else {
        let hex = l.skip(sp + 1);
        match parse_usize_spec(l.take(sp)) {
            None => Err(TokenizerFileError::InvalidTokenId),
            Some(id) => if id < 256 || id >= vocab - 2 || hex.len() % 2 != 0 {
                Err(TokenizerFileError::TokenIdOutOfRange)
            } else {
                match decode_hex(hex) {
                    Ok(bytes) => Ok((id as int, bytes)),
                    Err(e) => Err(e),
                }
            },
        }
    }
}

/// Applies the entry lines to a table in order, skipping blank lines; a later
/// entry for the same id wins.
pub open spec fn read_entries(ls: Seq<Seq<u8>>, t: Seq<Seq<u8>>) -> Result<
    Seq<Seq<u8>>,
    TokenizerFileError,
>
    decreases ls.len(),
{
    if ls.len() == 0 {
        Ok(t)
    } else if is_blank(ls[0]) {
        read_entries(ls.drop_first(), t)
    } else {
        match entry_of(ls[0], t.len() as int) {
            Err(e) => Err(e),
            Ok((id, bytes)) => read_entries(ls.drop_first(), t.update(id, bytes)),
        }
    }
}

/// A table of `v` empty pieces.
pub open spec fn empty_table(v: nat) -> Seq<Seq<u8>> {
    Seq::new(v, |i: int| Seq::<u8>::empty())
}

/// The table that a tokenizer file describes, or why it is refused.
pub open spec fn parse_table_text(b: Seq<u8>) -> Result<Seq<Seq<u8>>, TokenizerFileError> {
    let ls = lines_of(b);
    if ls.len() == 0 || ls[0] != header_line() {
        Err(TokenizerFileError::InvalidHeader)
    } else if ls.len() < 2 {
        Err(TokenizerFileError::MissingVocabSize)
    } else {
        match parse_usize_spec(ls[1]) {
            None => Err(TokenizerFileError::InvalidVocabSize),
            Some(v) => if v < 258 {
                Err(TokenizerFileError::VocabTooSmall)
            } else {
                read_entries(ls.skip(2), empty_table(v as nat))
            },
        }
    }
}

/// Lower-case hex digit of a value below 16.
pub open spec fn hex_char(d: nat) -> u8 {
    if d < 10 {
        (0x30 + d) as u8
    } else {
        (0x61 + d - 10) as u8
    }
}

/// Two lower-case hex digits per byte.
pub open spec fn hex_of(s: Seq<u8>) -> Seq<u8>
    decreases s.len(),
{
    if s.len() == 0 {
        seq![]
    } else {
        seq![hex_char((s[0] / 16) as nat), hex_char((s[0] % 16) as nat)] + hex_of(s.drop_first())
    }
}

/// One line per non-empty learned piece from `id` on: the id, a space, the
/// piece in hex.
pub open spec fn entry_lines(p: Seq<Seq<u8>>, id: int) -> Seq<u8>
    decreases p.len() - id,
{
    if id < 0 || id >= p.len() - 2 {
        seq![]
    } else if p[id].len() == 0 {
        entry_lines(p, id + 1)
    } else {
        decimal_digits(id as nat) + seq![0x20u8] + hex_of(p[id]) + seq![0x0Au8] + entry_lines(
            p,
            id + 1,
        )
    }
}

/// The text of a tokenizer file: the format tag, the vocabulary size, then
/// the entries.
pub open spec fn table_text(p: Seq<Seq<u8>>) -> Seq<u8> {
    header_line() + seq![0x0Au8] + decimal_digits(p.len()) + seq![0x0Au8] + entry_lines(p, 256)
}

/// The entry lines of `entry_lines`, each without its `\n`.
pub open spec fn entry_seq(p: Seq<Seq<u8>>, id: int) -> Seq<Seq<u8>>
    decreases p.len() - id,
{
    if id < 0 || id >= p.len() - 2 {
        seq![]
    } else if p[id].len() == 0 {
        entry_seq(p, id + 1)
    } else {
        seq![decimal_digits(id as nat) + seq![0x20u8] + hex_of(p[id])] + entry_seq(p, id + 1)
    }
}

proof fn lemma_hex_char(d: nat)
    requires
        d < 16,
    ensures
        hex_digit_value(hex_char(d)) == Some(d),
        hex_char(d) < 0x80,
        hex_char(d) != 0x2B,
        hex_char(d) != 0x0A,
        hex_char(d) != 0x0D,
        hex_char(d) != 0x20,
{
}

proof fn lemma_hex_of_len(s: Seq<u8>)
    ensures
        hex_of(s).len() == 2 * s.len(),
        forall|j: int|
            0 <= j < hex_of(s).len() ==> {
                let c = #[trigger] hex_of(s)[j];
                c != 0x0A && c != 0x0D && c != 0x20 && c < 0x80
            },
    decreases s.len(),
{
    if s.len() > 0 {
        lemma_hex_of_len(s.drop_first());
        lemma_hex_char((s[0] / 16) as nat);
        lemma_hex_char((s[0] % 16) as nat);
        let h = hex_of(s);
        let t = hex_of(s.drop_first());
        assert forall|j: int| 2 <= j < h.len() implies h[j] == t[j - 2] by {}
    }
}

/// Hex text reads back as the bytes it was written from.
proof fn lemma_hex_round_trip(s: Seq<u8>)
    ensures
        decode_hex(hex_of(s)) == Ok::<Seq<u8>, TokenizerFileError>(s),
    decreases s.len(),
{
    let h = hex_of(s);
    if s.len() == 0 {
        assert(h.len() == 0);
        assert(s =~= Seq::<u8>::empty());
    } else {
        let hi = (s[0] / 16) as nat;
        let lo = (s[0] % 16) as nat;
        lemma_hex_char(hi);
        lemma_hex_char(lo);
        lemma_hex_round_trip(s.drop_first());
        assert(h.skip(2) =~= hex_of(s.drop_first()));
        assert(h[0] == hex_char(hi) && h[1] == hex_char(lo));
        assert(pair_value(h[0], h[1]) == Some(hi * 16 + lo));
        assert(hi * 16 + lo == s[0]);
        assert(h.len() >= 2);
        assert(pair_is_utf8(h[0], h[1]));
        assert(seq![s[0]] + s.drop_first() =~= s);
        assert(decode_hex(h) == Ok::<Seq<u8>, TokenizerFileError>(
            seq![(hi * 16 + lo) as u8] + s.drop_first(),
        ));
    }
}

/// An entry line is not blank and reads back as its id and piece.
proof fn lemma_entry_line(id: nat, piece: Seq<u8>, vocab: int)
    requires
        256 <= id < vocab - 2,
        id <= usize::MAX,
        piece.len() > 0,
    ensures
        ({
            let l = decimal_digits(id) + seq![0x20u8] + hex_of(piece);
            &&& !is_blank(l)
            &&& entry_of(l, vocab) == Ok::<(int, Seq<u8>), TokenizerFileError>((id as int, piece))
            &&& forall|j: int| 0 <= j < l.len() ==> #[trigger] l[j] != 0x0A
            &&& l.last() != 0x0D
        }),
{
    let d = decimal_digits(id);
    let h = hex_of(piece);
    let l = d + seq![0x20u8] + h;
    crate::decimal::lemma_decimal_round_trip(id);
    lemma_hex_of_len(piece);
    lemma_hex_round_trip(piece);
    assert(crate::decimal::is_digit(d[0]));
    assert(l[0] == d[0]);
    assert(crate::occurrences::ws_width(l, 0) == 0);
    assert forall|j: int| 0 <= j < d.len() implies first_space(l, j) == d.len() by {
        lemma_first_space_run(l, j, d.len() as int);
    }
    assert(l.take(d.len() as int) =~= d);
    assert(l.skip(d.len() + 1int) =~= h);
    assert forall|j: int| 0 <= j < l.len() implies #[trigger] l[j] != 0x0A by {
        if j < d.len() {
            assert(crate::decimal::is_digit(d[j]));
        } else if j > d.len() {
            assert(l[j] == h[j - d.len() - 1]);
        }
    }
    assert(l.last() == h[h.len() - 1]);
}

proof fn lemma_first_space_run(l: Seq<u8>, i: int, m: int)
    requires
        0 <= i <= m < l.len(),
        l[m] == 0x20,
        forall|j: int| 0 <= j < m ==> crate::decimal::is_digit(#[trigger] l[j]),
    ensures
        first_space(l, i) == m,
    decreases m - i,
{
    if i < m {
        assert(crate::decimal::is_digit(l[i]));
        lemma_first_space_run(l, i + 1, m);
    }
}

/// The lines of the entry text are the entry lines.
proof fn lemma_entry_text_lines(p: Seq<Seq<u8>>, id: int)
    requires
        256 <= id,
        p.len() <= usize::MAX,
    ensures
        lines_of(entry_lines(p, id)) == entry_seq(p, id),
    decreases p.len() - id,
{
    if id >= p.len() - 2 {
        crate::lines::lemma_lines_empty();
    } else if p[id].len() == 0 {
        lemma_entry_text_lines(p, id + 1);
    } else {
        lemma_entry_text_lines(p, id + 1);
        lemma_entry_line(id as nat, p[id], p.len() as int);
        let l = decimal_digits(id as nat) + seq![0x20u8] + hex_of(p[id]);
        crate::lines::lemma_lines_cons(l, entry_lines(p, id + 1));
        assert(entry_lines(p, id) =~= l + seq![0x0Au8] + entry_lines(p, id + 1));
    }
}

/// Reading the entry lines into a table that already agrees below `id` and
/// is empty from `id` on gives the table back.
proof fn lemma_read_entries(p: Seq<Seq<u8>>, t: Seq<Seq<u8>>, id: int)
    requires
        258 <= p.len() <= usize::MAX,
        forall|j: int| 0 <= j < 256 ==> (#[trigger] p[j]).len() == 0,
        forall|j: int| p.len() - 2 <= j < p.len() ==> (#[trigger] p[j]).len() == 0,
        t.len() == p.len(),
        256 <= id,
        forall|j: int| 0 <= j < id && j < p.len() ==> #[trigger] t[j] == p[j],
        forall|j: int| id <= j < p.len() ==> (#[trigger] t[j]).len() == 0,
    ensures
        read_entries(entry_seq(p, id), t) == Ok::<Seq<Seq<u8>>, TokenizerFileError>(p),
    decreases p.len() - id,
{
    if id >= p.len() - 2 {
        assert forall|j: int| 0 <= j < p.len() implies t[j] == p[j] by {
            if j >= id {
                assert(t[j] =~= p[j]);
            }
        }
        assert(t =~= p);
    } else if p[id].len() == 0 {
        assert(t[id] =~= p[id]);
        lemma_read_entries(p, t, id + 1);
    } else {
        lemma_entry_line(id as nat, p[id], p.len() as int);
        let l = decimal_digits(id as nat) + seq![0x20u8] + hex_of(p[id]);
        let ls = entry_seq(p, id);
        assert(ls[0] == l);
        assert(ls.drop_first() =~= entry_seq(p, id + 1));
        lemma_read_entries(p, t.update(id, p[id]), id + 1);
    }
}

/// What a tokenizer file holds reads back as the table it was written from.
pub proof fn lemma_table_text_round_trip(p: Seq<Seq<u8>>)
    requires
        258 <= p.len() <= usize::MAX,
        forall|j: int| 0 <= j < 256 ==> (#[trigger] p[j]).len() == 0,
        forall|j: int| p.len() - 2 <= j < p.len() ==> (#[trigger] p[j]).len() == 0,
    ensures
        parse_table_text(table_text(p)) == Ok::<Seq<Seq<u8>>, TokenizerFileError>(p),
{
    let d = decimal_digits(p.len());
    let rest = entry_lines(p, 256);
    crate::decimal::lemma_decimal_round_trip(p.len());
    assert forall|j: int| 0 <= j < d.len() implies #[trigger] d[j] != 0x0A by {
        assert(crate::decimal::is_digit(d[j]));
    }
    assert(crate::decimal::is_digit(d.last()));
    lemma_entry_text_lines(p, 256);
    crate::lines::lemma_lines_cons(d, rest);
    let h = header_line();
    assert forall|j: int| 0 <= j < h.len() implies #[trigger] h[j] != 0x0A by {}
    crate::lines::lemma_lines_cons(h, d + seq![0x0Au8] + rest);
    assert(table_text(p) =~= h + seq![0x0Au8] + (d + seq![0x0Au8] + rest));
    let ls = lines_of(table_text(p));
    assert(ls[0] == h);
    assert(ls[1] == d);
    assert(ls.skip(2) =~= entry_seq(p, 256));
    let t0 = empty_table(p.len());
    assert forall|j: int| 0 <= j < 256 && j < p.len() implies #[trigger] t0[j] == p[j] by {
        assert(t0[j] =~= p[j]);
    }
    lemma_read_entries(p, t0, 256);
}

/// Parses two characters of a hex field.
pub fn hex_pair(c0: u8, c1: u8) -> (r: Result<u8, TokenizerFileError>)
    ensures
        !pair_is_utf8(c0, c1) ==> r == Err::<u8, TokenizerFileError>(
            TokenizerFileError::InvalidTokenBytes,
        ),
        pair_is_utf8(c0, c1) ==> match pair_value(c0, c1) {
            None => r == Err::<u8, TokenizerFileError>(TokenizerFileError::InvalidTokenHex),
            Some(v) => v < 256 && r == Ok::<u8, TokenizerFileError>(v as u8),
        },
{
    if !((c0 < 0x80 && c1 < 0x80) || (0xC2 <= c0 && c0 <= 0xDF && 0x80 <= c1 && c1 <= 0xBF)) {
        return Err(TokenizerFileError::InvalidTokenBytes);
    }
    if c0 == 0x2B {
        match hex_digit(c1) {
            Some(v) => Ok(v),
            None => Err(TokenizerFileError::InvalidTokenHex),
        }
    } else {
        match (hex_digit(c0), hex_digit(c1)) {
            (Some(a), Some(b)) => Ok(a * 16 + b),
            _ => Err(TokenizerFileError::InvalidTokenHex),
        }
    }
}

/// Value of a hex digit of either case.
fn hex_digit(c: u8) -> (r: Option<u8>)
    ensures
        match hex_digit_value(c) {
            None => r.is_none(),
            Some(v) => v < 16 && r == Some(v as u8),
        },
{
    if 0x30 <= c && c <= 0x39 {
        Some(c - 0x30)
    } else if 0x61 <= c && c <= 0x66 {
        Some(c - 0x61 + 10)
    } else if 0x41 <= c && c <= 0x46 {
        Some(c - 0x41 + 10)
    } else {
        None
    }
}

/// Decodes a hex field of even length.
pub fn decode_hex_exec(h: &[u8]) -> (r: Result<Vec<u8>, TokenizerFileError>)
    requires
        h@.len() % 2 == 0,
    ensures
        match decode_hex(h@) {
            Ok(bytes) => r matches Ok(v) && v@ == bytes,
            Err(e) => r == Err::<Vec<u8>, TokenizerFileError>(e),
        },
{
    let n = h.len();
    let mut out: Vec<u8> = Vec::with_capacity(n / 2);
    let mut i: usize = 0;
    assert(h@.skip(0) =~= h@);
    while i < n
        invariant
            n == h@.len(),
            n % 2 == 0,
            i % 2 == 0,
            0 <= i <= n,
            decode_hex(h@) == match decode_hex(h@.skip(i as int)) {
                Ok(rest) => Ok(out@ + rest),
                Err(e) => Err::<Seq<u8>, TokenizerFileError>(e),
            },
        decreases n - i,
    {
        let ghost rest = h@.skip(i as int);
        assert(rest[0] == h@[i as int] && rest[1] == h@[i + 1]);
        assert(rest.skip(2) =~= h@.skip(i + 2));
        match hex_pair(h[i], h[i + 1]) {
            Ok(v) => {
                let ghost before = out@;
                out.push(v);
                proof {
                    match decode_hex(h@.skip(i + 2)) {
                        Ok(r2) => {
                            assert(before + (seq![v] + r2) =~= out@ + r2);
                        },
                        Err(_) => {},
                    }
                }
            },
            Err(e) => {
                return Err(e);
            },
        }
        i += 2;
    }
    proof {
        assert(h@.skip(n as int).len() == 0);
        assert(out@ + Seq::<u8>::empty() =~= out@);
    }
    Ok(out)
}

/// Appends two lower-case hex digits per byte.
pub fn push_hex(out: &mut Vec<u8>, s: &[u8])
    ensures
        final(out)@ == old(out)@ + hex_of(s@),
{
    let n = s.len();
    let mut i: usize = 0;
    assert(s@.skip(0) =~= s@);
    while i < n
        invariant
            n == s@.len(),
            0 <= i <= n,
            out@ + hex_of(s@.skip(i as int)) == old(out)@ + hex_of(s@),
        decreases n - i,
    {
        let x = s[i];
        let hi = x / 16;
        let lo = x % 16;
        let ghost before = out@;
        out.push(if hi < 10 { 0x30 + hi } else { 0x61 + hi - 10 });
        out.push(if lo < 10 { 0x30 + lo } else { 0x61 + lo - 10 });
        proof {
            let rest = s@.skip(i as int);
            assert(rest[0] == x);
            assert(rest.drop_first() =~= s@.skip(i + 1));
            assert(out@ =~= before + seq![hex_char(hi as nat), hex_char(lo as nat)]);
            assert(out@ + hex_of(s@.skip(i + 1)) =~= before + hex_of(rest));
        }
        i += 1;
    }
    proof {
        assert(s@.skip(n as int).len() == 0);
        assert(out@ + Seq::<u8>::empty() =~= out@);
    }
}

/// Position of the first space in `l`, or its length.
pub fn first_space_exec(l: &[u8]) -> (r: usize)
    ensures
        r == first_space(l@, 0),
{
    let n = l.len();
    let mut i: usize = 0;
    while i < n && l[i] != 0x20
        invariant
            n == l@.len(),
            0 <= i <= n,
            first_space(l@, i as int) == first_space(l@, 0),
        decreases n - i,
    {
        i += 1;
    }
    i
}

/// Parses one entry line of a table with `vocab` ids.
pub fn parse_entry(l: &[u8], vocab: usize) -> (r: Result<(usize, Vec<u8>), TokenizerFileError>)
    requires
        vocab >= 258,
    ensures
        match entry_of(l@, vocab as int) {
            Ok((id, bytes)) => r matches Ok((i, v)) && i == id && v@ == bytes,
            Err(e) => r == Err::<(usize, Vec<u8>), TokenizerFileError>(e),
        },
{
    let sp = first_space_exec(l);
    if sp >= l.len() {
        return Err(TokenizerFileError::MalformedEntry);
    }
    let hex = &l[sp + 1..l.len()];
    assert(hex@ =~= l@.skip(sp + 1));
    let id_text = &l[0..sp];
    assert(id_text@ =~= l@.take(sp as int));
    match crate::decimal::parse_usize(id_text) {
        None => Err(TokenizerFileError::InvalidTokenId),
        Some(id) => {
            if id < 256 || id >= vocab - 2 || hex.len() % 2 != 0 {
                Err(TokenizerFileError::TokenIdOutOfRange)
            } else {
                match decode_hex_exec(hex) {
                    Ok(bytes) => Ok((id, bytes)),
                    Err(e) => Err(e),
                }
            }
        },
    }
}

} // verus!
