use vstd::prelude::*;
use vstd::utf8::*;
use crate::decimal::{
    decimal_digits, lemma_decimal_round_trip, parse_u64, parse_u64_spec, parse_usize,
    parse_usize_spec, push_decimal,
};
use crate::lines::{line_at, lines_from, lines_of};

verus! {

/// Why training metadata was refused.
#[derive(Clone, Copy, Debug, PartialEq, Eq, Structural)]
pub enum MetaError {
    /// The first line is not the format tag.
    Unsupported,
    /// A line has no `=`.
    Malformed,
    /// The `update` value is not a number.
    InvalidUpdate,
    /// The `rng_state` value is not a number.
    InvalidRngState,
    /// The `best_val_loss` value is not a 32-bit pattern.
    InvalidBestLoss,
    /// No `update` line.
    MissingUpdate,
    /// No `rng_state` line.
    MissingRngState,
}

/// What training metadata records: the completed updates, the best
/// validation loss so far as the bit pattern of an IEEE 754 single-precision
/// number (absent in files that predate it), and the state of the training
/// generator.
#[derive(Clone, Copy, Debug, PartialEq, Eq, Structural)]
pub struct TrainingMeta {
    pub update: usize,
    pub best_loss_bits: Option<u32>,
    pub rng_state: u64,
}

/// `str::parse::<u32>`: a decimal number that fits.
pub open spec fn parse_u32_spec(s: Seq<u8>) -> Option<u32> {
    match crate::decimal::parse_decimal(s) {
        Some(v) => if v <= u32::MAX {
            Some(v as u32)
        } else {
            None
        },
        None => None,
    }
}

/// The format tag `GEMMASTATE2`.
pub open spec fn meta_magic() -> Seq<u8> {
    seq![0x47u8, 0x45, 0x4D, 0x4D, 0x41, 0x53, 0x54, 0x41, 0x54, 0x45, 0x32]
}

/// The key `update`.
pub open spec fn update_key() -> Seq<u8> {
    seq![0x75u8, 0x70, 0x64, 0x61, 0x74, 0x65]
}

/// The key `rng_state`.
pub open spec fn rng_key() -> Seq<u8> {
    seq![0x72u8, 0x6E, 0x67, 0x5F, 0x73, 0x74, 0x61, 0x74, 0x65]
}

/// The key `best_val_loss`.
pub open spec fn best_key() -> Seq<u8> {
    seq![0x62u8, 0x65, 0x73, 0x74, 0x5F, 0x76, 0x61, 0x6C, 0x5F, 0x6C, 0x6F, 0x73, 0x73]
}

/// The line `key=value` with the value in decimal, without its `\n`.
pub open spec fn key_line(key: Seq<u8>, value: nat) -> Seq<u8> {
    key + seq![0x3Du8] + decimal_digits(value)
}

/// The text of the metadata: the tag, then an `update=` line, a
/// `best_val_loss=` line with the loss's bit pattern, and a `rng_state=`
/// line.
pub open spec fn meta_text(update: usize, best_loss_bits: u32, rng_state: u64) -> Seq<u8> {
    meta_magic() + seq![0x0Au8] + key_line(update_key(), update as nat) + seq![0x0Au8]
        + key_line(best_key(), best_loss_bits as nat) + seq![0x0Au8] + key_line(
        rng_key(),
        rng_state as nat,
    ) + seq![0x0Au8]
}

/// Position of the first `=` at or after `i`, or the length.
pub open spec fn first_eq(l: Seq<u8>, i: int) -> int
    decreases l.len() - i,
{
    if i < 0 || i >= l.len() || l[i] == 0x3D {
        i
    } else {
        first_eq(l, i + 1)
    }
}

/// Reads the `key=value` lines in order; a later value for a key wins and
/// other keys are ignored.
pub open spec fn read_meta(
    ls: Seq<Seq<u8>>,
    update: Option<usize>,
    best: Option<u32>,
    rng: Option<u64>,
) -> Result<(Option<usize>, Option<u32>, Option<u64>), MetaError>
    decreases ls.len(),
{
    if ls.len() == 0 {
        Ok((update, best, rng))
    } else {
        let l = ls[0];
        let eq = first_eq(l, 0);
        if eq >= l.len() {
            Err(MetaError::Malformed)
        } else {
            let key = l.take(eq);
            let value = l.skip(eq + 1);
            if key == update_key() {
                match parse_usize_spec(value) {
                    None => Err(MetaError::InvalidUpdate),
                    Some(u) => read_meta(ls.drop_first(), Some(u), best, rng),
                }
            } else if key == best_key() {
                match parse_u32_spec(value) {
                    None => Err(MetaError::InvalidBestLoss),
                    Some(v) => read_meta(ls.drop_first(), update, Some(v), rng),
                }
            } else if key == rng_key() {
                match parse_u64_spec(value) {
                    None => Err(MetaError::InvalidRngState),
                    Some(r) => read_meta(ls.drop_first(), update, best, Some(r)),
                }
            } else {
                read_meta(ls.drop_first(), update, best, rng)
            }
        }
    }
}

/// What a metadata text records, or why it is refused; the best loss may be
/// absent, the update count and generator state may not.
pub open spec fn parse_meta(b: Seq<u8>) -> Result<TrainingMeta, MetaError> {
    let ls = lines_of(b);
    if ls.len() == 0 || ls[0] != meta_magic() {
        Err(MetaError::Unsupported)
    } else {
        match read_meta(ls.drop_first(), None, None, None) {
            Err(e) => Err(e),
            Ok((None, _, _)) => Err(MetaError::MissingUpdate),
            Ok((Some(_), _, None)) => Err(MetaError::MissingRngState),
            Ok((Some(u), b, Some(r))) => Ok(TrainingMeta { update: u, best_loss_bits: b, rng_state: r }),
        }
    }
}

/// The metadata text for `update` completed updates, a best validation loss
/// with bit pattern `best_loss_bits`, and generator state `rng_state`.
pub fn training_meta_text(update: usize, best_loss_bits: u32, rng_state: u64) -> (out: Vec<u8>)
    ensures
        out@ == meta_text(update, best_loss_bits, rng_state),
{
    let mut out: Vec<u8> = Vec::new();
    let tag: [u8; 11] = [0x47, 0x45, 0x4D, 0x4D, 0x41, 0x53, 0x54, 0x41, 0x54, 0x45, 0x32];
    assert(tag@ =~= meta_magic());
    crate::bytes::push_all(&mut out, tag.as_slice());
    out.push(0x0A);
    let k1: [u8; 6] = [0x75, 0x70, 0x64, 0x61, 0x74, 0x65];
    assert(k1@ =~= update_key());
    crate::bytes::push_all(&mut out, k1.as_slice());
    out.push(0x3D);
    push_decimal(&mut out, update as u64);
    out.push(0x0A);
    let k3: [u8; 13] = [0x62, 0x65, 0x73, 0x74, 0x5F, 0x76, 0x61, 0x6C, 0x5F, 0x6C, 0x6F, 0x73, 0x73];
    assert(k3@ =~= best_key());
    crate::bytes::push_all(&mut out, k3.as_slice());
    out.push(0x3D);
    push_decimal(&mut out, best_loss_bits as u64);
    out.push(0x0A);
    let k2: [u8; 9] = [0x72, 0x6E, 0x67, 0x5F, 0x73, 0x74, 0x61, 0x74, 0x65];
    assert(k2@ =~= rng_key());
    crate::bytes::push_all(&mut out, k2.as_slice());
    out.push(0x3D);
    push_decimal(&mut out, rng_state);
    out.push(0x0A);
    assert(out@ =~= meta_text(update, best_loss_bits, rng_state));
    out
}

fn first_eq_exec(l: &[u8]) -> (r: usize)
    ensures
        r == first_eq(l@, 0),
{
    let n = l.len();
    let mut i: usize = 0;
    while i < n && l[i] != 0x3D
        invariant
            n == l@.len(),
            0 <= i <= n,
            first_eq(l@, i as int) == first_eq(l@, 0),
        decreases n - i,
    {
        i += 1;
    }
    i
}

/// Reads training metadata from its text.
pub fn parse_training_meta(text: &str) -> (r: Result<TrainingMeta, MetaError>)
    ensures
        r == parse_meta(encode_utf8(text@)),
{
    let b = text.as_bytes();
    let n = b.len();
    let ghost bs = b@;
    if n == 0 {
        assert(lines_of(bs) =~= Seq::<Seq<u8>>::empty());
        return Err(MetaError::Unsupported);
    }
    let (c0, next0) = line_at(b, 0);
    let tag: [u8; 11] = [0x47, 0x45, 0x4D, 0x4D, 0x41, 0x53, 0x54, 0x41, 0x54, 0x45, 0x32];
    assert(tag@ =~= meta_magic());
    if !crate::bytes::bytes_eq(&b[0..c0], tag.as_slice()) {
        return Err(MetaError::Unsupported);
    }
    proof {
        assert(lines_of(bs).drop_first() =~= lines_from(bs, next0 as int));
    }
    let k1: [u8; 6] = [0x75, 0x70, 0x64, 0x61, 0x74, 0x65];
    assert(k1@ =~= update_key());
    let k2: [u8; 9] = [0x72, 0x6E, 0x67, 0x5F, 0x73, 0x74, 0x61, 0x74, 0x65];
    assert(k2@ =~= rng_key());
    let k3: [u8; 13] = [0x62, 0x65, 0x73, 0x74, 0x5F, 0x76, 0x61, 0x6C, 0x5F, 0x6C, 0x6F, 0x73, 0x73];
    assert(k3@ =~= best_key());
    let mut update: Option<usize> = None;
    let mut best: Option<u32> = None;
    let mut rng: Option<u64> = None;
    let mut i: usize = next0;
    while i < n
        invariant
            n == bs.len(),
            bs == b@,
            bs == encode_utf8(text@),
            i <= n,
            k1@ == update_key(),
            k2@ == rng_key(),
            k3@ == best_key(),
            lines_of(bs).len() > 0,
            lines_of(bs)[0] == meta_magic(),
            read_meta(lines_of(bs).drop_first(), None, None, None) == read_meta(
                lines_from(bs, i as int),
                update,
                best,
                rng,
            ),
        decreases n - i,
    {
        let (c, nx) = line_at(b, i);
        let line = &b[i..c];
        let ghost ls = lines_from(bs, i as int);
        assert(ls.drop_first() == lines_from(bs, nx as int));
        assert(ls[0] == line@);
        let eq = first_eq_exec(line);
        if eq >= line.len() {
            return Err(MetaError::Malformed);
        }
        let key = &line[0..eq];
        let value = &line[eq + 1..line.len()];
        assert(key@ =~= line@.take(eq as int));
        assert(value@ =~= line@.skip(eq + 1));
        if crate::bytes::bytes_eq(key, k1.as_slice()) {
            match parse_usize(value) {
                None => {
                    return Err(MetaError::InvalidUpdate);
                },
                Some(u) => {
                    update = Some(u);
                },
            }
        } else if crate::bytes::bytes_eq(key, k3.as_slice()) {
            match parse_u64(value) {
                Some(v) if v <= 0xFFFF_FFFFu64 => {
                    best = Some(v as u32);
                },
                _ => {
                    return Err(MetaError::InvalidBestLoss);
                },
            }
        } else if crate::bytes::bytes_eq(key, k2.as_slice()) {
            match parse_u64(value) {
                None => {
                    return Err(MetaError::InvalidRngState);
                },
                Some(r) => {
                    rng = Some(r);
                },
            }
        }
        i = nx;
    }
    proof {
        assert(lines_from(bs, i as int) =~= Seq::<Seq<u8>>::empty());
    }
    match (update, rng) {
        (None, _) => Err(MetaError::MissingUpdate),
        (Some(_), None) => Err(MetaError::MissingRngState),
        (Some(u), Some(r)) => Ok(TrainingMeta { update: u, best_loss_bits: best, rng_state: r }),
    }
}

proof fn lemma_first_eq_run(l: Seq<u8>, i: int, m: int)
    requires
        0 <= i <= m < l.len(),
        l[m] == 0x3D,
        forall|j: int| i <= j < m ==> #[trigger] l[j] != 0x3D,
    ensures
        first_eq(l, i) == m,
    decreases m - i,
{
    if i < m {
        lemma_first_eq_run(l, i + 1, m);
    }
}

/// A `key=digits` line: no `\n`, no final `\r`, and it splits at the `=`.
proof fn lemma_key_line(key: Seq<u8>, n: nat)
    requires
        forall|j: int| 0 <= j < key.len() ==> #[trigger] key[j] != 0x3D && key[j] != 0x0A,
    ensures
        ({
            let l = key + seq![0x3Du8] + decimal_digits(n);
            &&& forall|j: int| 0 <= j < l.len() ==> #[trigger] l[j] != 0x0A
            &&& l.last() != 0x0D
            &&& first_eq(l, 0) == key.len()
            &&& l.take(key.len() as int) == key
            &&& l.skip(key.len() + 1int) == decimal_digits(n)
        }),
{
    let d = decimal_digits(n);
    let l = key + seq![0x3Du8] + d;
    lemma_decimal_round_trip(n);
    assert forall|j: int| 0 <= j < l.len() implies #[trigger] l[j] != 0x0A by {
        if j > key.len() {
            assert(l[j] == d[j - key.len() - 1]);
            assert(crate::decimal::is_digit(d[j - key.len() - 1]));
        }
    }
    assert(l.last() == d[d.len() - 1]);
    assert(crate::decimal::is_digit(d[d.len() - 1]));
    lemma_first_eq_run(l, 0, key.len() as int);
    assert(l.take(key.len() as int) =~= key);
    assert(l.skip(key.len() + 1int) =~= d);
}

proof fn lemma_meta_lines(update: usize, best: u32, rng_state: u64)
    ensures
        lines_of(meta_text(update, best, rng_state)) == seq![
            meta_magic(),
            key_line(update_key(), update as nat),
            key_line(best_key(), best as nat),
            key_line(rng_key(), rng_state as nat),
        ],
{
    let m = meta_magic();
    lemma_key_line(update_key(), update as nat);
    lemma_key_line(best_key(), best as nat);
    lemma_key_line(rng_key(), rng_state as nat);
    let l1 = key_line(update_key(), update as nat);
    let l2 = key_line(best_key(), best as nat);
    let l3 = key_line(rng_key(), rng_state as nat);
    let nl = seq![0x0Au8];
    crate::lines::lemma_lines_empty();
    crate::lines::lemma_lines_cons(l3, Seq::<u8>::empty());
    assert(l3 + nl + Seq::<u8>::empty() =~= l3 + nl);
    crate::lines::lemma_lines_cons(l2, l3 + nl);
    crate::lines::lemma_lines_cons(l1, l2 + nl + (l3 + nl));
    assert forall|j: int| 0 <= j < m.len() implies #[trigger] m[j] != 0x0A by {}
    crate::lines::lemma_lines_cons(m, l1 + nl + (l2 + nl + (l3 + nl)));
    assert(meta_text(update, best, rng_state) =~= m + nl + (l1 + nl + (l2 + nl + (l3 + nl))));
    assert(seq![m] + (seq![l1] + (seq![l2] + (seq![l3] + Seq::<Seq<u8>>::empty())))
        =~= seq![m, l1, l2, l3]);
}

proof fn lemma_read_update_line(
    n: usize,
    rest: Seq<Seq<u8>>,
    update: Option<usize>,
    best: Option<u32>,
    rng: Option<u64>,
)
    ensures
        read_meta(seq![key_line(update_key(), n as nat)] + rest, update, best, rng) == read_meta(
            rest,
            Some(n),
            best,
            rng,
        ),
{
    let uk = update_key();
    let l = key_line(uk, n as nat);
    lemma_key_line(uk, n as nat);
    lemma_decimal_round_trip(n as nat);
    let ls = seq![l] + rest;
    assert(ls[0] == l);
    assert(ls.drop_first() =~= rest);
    assert(first_eq(l, 0) == 6);
    assert(l.take(6) == uk);
    assert(l.skip(7) == decimal_digits(n as nat));
    assert(parse_usize_spec(decimal_digits(n as nat)) == Some(n));
}

proof fn lemma_read_best_line(
    n: u32,
    rest: Seq<Seq<u8>>,
    update: Option<usize>,
    best: Option<u32>,
    rng: Option<u64>,
)
    ensures
        read_meta(seq![key_line(best_key(), n as nat)] + rest, update, best, rng) == read_meta(
            rest,
            update,
            Some(n),
            rng,
        ),
{
    let bk = best_key();
    let l = key_line(bk, n as nat);
    lemma_key_line(bk, n as nat);
    lemma_decimal_round_trip(n as nat);
    let ls = seq![l] + rest;
    assert(ls[0] == l);
    assert(ls.drop_first() =~= rest);
    assert(first_eq(l, 0) == 13);
    assert(l.take(13) == bk);
    assert(bk.len() != update_key().len());
    assert(l.skip(14) == decimal_digits(n as nat));
    assert(parse_u32_spec(decimal_digits(n as nat)) == Some(n));
}

proof fn lemma_read_rng_line(
    n: u64,
    rest: Seq<Seq<u8>>,
    update: Option<usize>,
    best: Option<u32>,
    rng: Option<u64>,
)
    ensures
        read_meta(seq![key_line(rng_key(), n as nat)] + rest, update, best, rng) == read_meta(
            rest,
            update,
            best,
            Some(n),
        ),
{
    let rk = rng_key();
    let l = key_line(rk, n as nat);
    lemma_key_line(rk, n as nat);
    lemma_decimal_round_trip(n as nat);
    let ls = seq![l] + rest;
    assert(ls[0] == l);
    assert(ls.drop_first() =~= rest);
    assert(first_eq(l, 0) == 9);
    assert(l.take(9) == rk);
    assert(rk.len() != update_key().len());
    assert(rk.len() != best_key().len());
    assert(l.skip(10) == decimal_digits(n as nat));
    assert(parse_u64_spec(decimal_digits(n as nat)) == Some(n));
}

proof fn lemma_meta_read(update: usize, best: u32, rng_state: u64)
    ensures
        read_meta(
            seq![
                key_line(update_key(), update as nat),
                key_line(best_key(), best as nat),
                key_line(rng_key(), rng_state as nat),
            ],
            None,
            None,
            None,
        ) == Ok::<(Option<usize>, Option<u32>, Option<u64>), MetaError>(
            (Some(update), Some(best), Some(rng_state)),
        ),
{
    let l1 = key_line(update_key(), update as nat);
    let l2 = key_line(best_key(), best as nat);
    let l3 = key_line(rng_key(), rng_state as nat);
    let e = Seq::<Seq<u8>>::empty();
    lemma_read_update_line(update, seq![l2, l3], None, None, None);
    lemma_read_best_line(best, seq![l3], Some(update), None, None);
    lemma_read_rng_line(rng_state, e, Some(update), Some(best), None);
    assert(seq![l1] + seq![l2, l3] =~= seq![l1, l2, l3]);
    assert(seq![l2] + seq![l3] =~= seq![l2, l3]);
    assert(seq![l3] + e =~= seq![l3]);
}

/// Reading saved metadata gives back the update count, the best validation
/// loss and the generator state.
pub proof fn lemma_meta_round_trip(update: usize, best_loss_bits: u32, rng_state: u64)
    ensures
        parse_meta(meta_text(update, best_loss_bits, rng_state)) == Ok::<TrainingMeta, MetaError>(
            TrainingMeta { update, best_loss_bits: Some(best_loss_bits), rng_state },
        ),
{
    lemma_meta_lines(update, best_loss_bits, rng_state);
    lemma_meta_read(update, best_loss_bits, rng_state);
    let ls = lines_of(meta_text(update, best_loss_bits, rng_state));
    assert(ls[0] == meta_magic());
    assert(ls.drop_first() =~= seq![
        key_line(update_key(), update as nat),
        key_line(best_key(), best_loss_bits as nat),
        key_line(rng_key(), rng_state as nat),
    ]);
}

} // verus!
