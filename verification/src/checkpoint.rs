use vstd::prelude::*;
use vstd::string::StringExecFns;
use crate::le::{le_bytes, le_value, lemma_le_round_trip, lemma_pow256_values, push_le, read_le};

verus! {

/// The path of a file kept beside a checkpoint: the checkpoint's path with
/// `suffix` appended (`.opt` for the optimizer state, `.state` for the
/// training metadata).
pub fn sidecar(path: &str, suffix: &str) -> (r: String)
    ensures
        r@ == path@ + suffix@,
{
    let mut r = String::from_str(path);
    r.append(suffix);
    r
}

/// Largest number of values one stored tensor may hold.
pub const MAX_ELEMENTS: u64 = 0x4000_0000;

/// Why a checkpoint was refused.
#[derive(Clone, Copy, Debug, PartialEq, Eq, Structural)]
pub enum CheckpointError {
    /// The data ends before the frame does.
    UnexpectedEof,
    /// The frame does not start with its format tag.
    BadMagic,
    /// The frame holds another number of tensors than expected.
    CountMismatch,
    /// A tensor has an empty or oversized shape.
    InvalidShape,
    /// A tensor's shape differs from the expected one.
    ShapeMismatch,
    /// A stored value is infinite or NaN.
    NonFinite,
    /// Bytes follow the last tensor.
    TrailingData,
    /// A value to be saved is infinite or NaN.
    RefusedNonFinite,
    /// A stored optimizer step does not fit the machine's word.
    StepTooLarge,
    /// A moment vector's length differs from its parameter's size.
    LengthMismatch,
}

/// One parameter tensor: its shape and its values as IEEE 754 single
/// precision bit patterns, row by row.
pub struct TensorBits {
    pub rows: usize,
    pub cols: usize,
    pub bits: Vec<u32>,
}

impl TensorBits {
    pub open spec fn shape(&self) -> (usize, usize) {
        (self.rows, self.cols)
    }
}

/// The format tag `GRS2`.
pub open spec fn checkpoint_magic() -> Seq<u8> {
    seq![0x47u8, 0x52, 0x53, 0x32]
}

/// The bit pattern stands for a finite value: its exponent field is not all
/// ones.
pub open spec fn finite_bits(w: u32) -> bool {
    w & 0x7F80_0000u32 != 0x7F80_0000u32
}

/// Every value of the sequence is finite.
pub open spec fn all_finite(ws: Seq<u32>) -> bool {
    forall|i: int| 0 <= i < ws.len() ==> finite_bits(#[trigger] ws[i])
}

/// Values written as four little-endian bytes each.
pub open spec fn words_bytes(ws: Seq<u32>) -> Seq<u8>
    decreases ws.len(),
{
    if ws.len() == 0 {
        seq![]
    } else {
        le_bytes(ws[0] as nat, 4) + words_bytes(ws.drop_first())
    }
}

/// One tensor in the frame: rows, columns, then the values.
pub open spec fn tensor_bytes(t: TensorBits) -> Seq<u8> {
    le_bytes(t.rows as nat, 8) + le_bytes(t.cols as nat, 8) + words_bytes(t.bits@)
}

/// The tensors one after another.
pub open spec fn tensors_bytes(ts: Seq<TensorBits>) -> Seq<u8>
    decreases ts.len(),
{
    if ts.len() == 0 {
        seq![]
    } else {
        tensor_bytes(ts[0]) + tensors_bytes(ts.drop_first())
    }
}

/// A whole checkpoint: the tag, the tensor count, the tensors.
pub open spec fn checkpoint_bytes(ts: Seq<TensorBits>) -> Seq<u8> {
    checkpoint_magic() + le_bytes(ts.len(), 8) + tensors_bytes(ts)
}

/// Some value of some tensor is not finite.
pub open spec fn has_non_finite(ts: Seq<TensorBits>) -> bool {
    exists|k: int| 0 <= k < ts.len() && !all_finite(#[trigger] ts[k].bits@)
}

/// Reads `n` values at `pos`, each four little-endian bytes, stopping at the
/// first missing byte or non-finite value.
pub open spec fn read_words(b: Seq<u8>, pos: int, n: nat) -> Result<Seq<u32>, CheckpointError>
    decreases n,
{
    if n == 0 {
        Ok(seq![])
    } else if pos + 4 > b.len() {
        Err(CheckpointError::UnexpectedEof)
    } else {
        let w = le_value(b.subrange(pos, pos + 4)) as u32;
        if !finite_bits(w) {
            Err(CheckpointError::NonFinite)
        } else {
            match read_words(b, pos + 4, (n - 1) as nat) {
                Ok(rest) => Ok(seq![w] + rest),
                Err(e) => Err(e),
            }
        }
    }
}

/// Reads the tensors from `pos` on against the expected shapes; no byte may
/// follow the last one.
pub open spec fn read_tensors(b: Seq<u8>, pos: int, shapes: Seq<(usize, usize)>) -> Result<
    Seq<Seq<u32>>,
    CheckpointError,
>
    decreases shapes.len(),
{
    if shapes.len() == 0 {
        if pos < b.len() {
            Err(CheckpointError::TrailingData)
        } else {
            Ok(seq![])
        }
    } else if pos + 16 > b.len() {
        Err(CheckpointError::UnexpectedEof)
    } else {
        let rows = le_value(b.subrange(pos, pos + 8));
        let cols = le_value(b.subrange(pos + 8, pos + 16));
        if rows == 0 || cols == 0 || rows * cols > MAX_ELEMENTS {
            Err(CheckpointError::InvalidShape)
        } else if rows != shapes[0].0 || cols != shapes[0].1 {
            Err(CheckpointError::ShapeMismatch)
        } else {
            match read_words(b, pos + 16, rows * cols) {
                Err(e) => Err(e),
                Ok(ws) => match read_tensors(b, pos + 16 + 4 * (rows * cols), shapes.drop_first()) {
                    Ok(rest) => Ok(seq![ws] + rest),
                    Err(e) => Err(e),
                },
            }
        }
    }
}

/// The values of a checkpoint for parameters of the given shapes, or why it
/// is refused.
pub open spec fn parse_checkpoint(b: Seq<u8>, shapes: Seq<(usize, usize)>) -> Result<
    Seq<Seq<u32>>,
    CheckpointError,
> {
    if b.len() < 4 {
        Err(CheckpointError::UnexpectedEof)
    } else if b.subrange(0, 4) != checkpoint_magic() {
        Err(CheckpointError::BadMagic)
    } else if b.len() < 12 {
        Err(CheckpointError::UnexpectedEof)
    } else if le_value(b.subrange(4, 12)) != shapes.len() {
        Err(CheckpointError::CountMismatch)
    } else {
        read_tensors(b, 12, shapes)
    }
}

/// The values of each vector.
pub open spec fn words_views(v: Seq<Vec<u32>>) -> Seq<Seq<u32>> {
    v.map_values(|x: Vec<u32>| x@)
}

/// Whether the bit pattern stands for a finite value.
pub fn is_finite_bits(w: u32) -> (r: bool)
    ensures
        r == finite_bits(w),
{
    w & 0x7F80_0000u32 != 0x7F80_0000u32
}

/// Appends values as four little-endian bytes each.
pub fn push_words(out: &mut Vec<u8>, ws: &[u32])
    ensures
        final(out)@ == old(out)@ + words_bytes(ws@),
{
    let n = ws.len();
    let mut i: usize = 0;
    assert(ws@.skip(0) =~= ws@);
    while i < n
        invariant
            n == ws@.len(),
            0 <= i <= n,
            out@ + words_bytes(ws@.skip(i as int)) == old(out)@ + words_bytes(ws@),
        decreases n - i,
    {
        let ghost before = out@;
        let ghost rest = ws@.skip(i as int);
        push_le(out, ws[i] as u64, 4);
        proof {
            assert(rest[0] == ws@[i as int]);
            assert(rest.drop_first() =~= ws@.skip(i + 1));
            assert(out@ + words_bytes(ws@.skip(i + 1)) =~= before + words_bytes(rest));
        }
        i += 1;
    }
    assert(out@ + Seq::<u8>::empty() =~= out@);
}

/// Whether every value is finite.
pub fn all_finite_exec(ws: &[u32]) -> (r: bool)
    ensures
        r == all_finite(ws@),
{
    let n = ws.len();
    let mut i: usize = 0;
    while i < n
        invariant
            n == ws@.len(),
            0 <= i <= n,
            forall|j: int| 0 <= j < i ==> finite_bits(#[trigger] ws@[j]),
        decreases n - i,
    {
        if !is_finite_bits(ws[i]) {
            return false;
        }
        i += 1;
    }
    true
}

/// The bytes of a checkpoint of `params`; refused when a value is not finite.
pub fn encode_checkpoint(params: &[TensorBits]) -> (r: Result<Vec<u8>, CheckpointError>)
    ensures
        has_non_finite(params@) ==> r == Err::<Vec<u8>, CheckpointError>(
            CheckpointError::RefusedNonFinite,
        ),
        !has_non_finite(params@) ==> (r matches Ok(v) && v@ == checkpoint_bytes(params@)),
{
    let n = params.len();
    let mut out: Vec<u8> = Vec::new();
    out.push(0x47);
    out.push(0x52);
    out.push(0x53);
    out.push(0x32);
    push_le(&mut out, n as u64, 8);
    let ghost head = out@;
    assert(head =~= checkpoint_magic() + le_bytes(n as nat, 8));
    let mut k: usize = 0;
    assert(params@.skip(0) =~= params@);
    while k < n
        invariant
            n == params@.len(),
            0 <= k <= n,
            forall|j: int| 0 <= j < k ==> all_finite(#[trigger] params@[j].bits@),
            out@ + tensors_bytes(params@.skip(k as int)) == head + tensors_bytes(params@),
        decreases n - k,
    {
        let t = &params[k];
        if !all_finite_exec(t.bits.as_slice()) {
            return Err(CheckpointError::RefusedNonFinite);
        }
        let ghost before = out@;
        let ghost rest = params@.skip(k as int);
        push_le(&mut out, t.rows as u64, 8);
        push_le(&mut out, t.cols as u64, 8);
        push_words(&mut out, t.bits.as_slice());
        proof {
            assert(rest[0] == params@[k as int]);
            assert(rest.drop_first() =~= params@.skip(k + 1));
            assert(out@ =~= before + tensor_bytes(params@[k as int]));
            assert(out@ + tensors_bytes(params@.skip(k + 1)) =~= before + tensors_bytes(rest));
        }
        k += 1;
    }
    proof {
        assert(params@.skip(n as int).len() == 0);
        assert(out@ + Seq::<u8>::empty() =~= out@);
        assert(!has_non_finite(params@));
    }
    Ok(out)
}

/// Reads `n` values at `pos`; on success also gives the position after them.
pub fn read_words_exec(b: &[u8], pos: usize, n: usize) -> (r: Result<(Vec<u32>, usize), CheckpointError>)
    requires
        pos <= b@.len(),
    ensures
        match read_words(b@, pos as int, n as nat) {
            Ok(ws) => r matches Ok((v, p)) && v@ == ws && p == pos + 4 * n && p <= b@.len(),
            Err(e) => r == Err::<(Vec<u32>, usize), CheckpointError>(e),
        },
{
    let len = b.len();
    let mut out: Vec<u32> = Vec::new();
    let mut p: usize = pos;
    let mut i: usize = 0;
    while i < n
        invariant
            len == b@.len(),
            pos <= p <= len,
            i <= n,
            p == pos + 4 * i,
            read_words(b@, pos as int, n as nat) == match read_words(
                b@,
                p as int,
                (n - i) as nat,
            ) {
                Ok(rest) => Ok(out@ + rest),
                Err(e) => Err::<Seq<u32>, CheckpointError>(e),
            },
        decreases n - i,
    {
        if len - p < 4 {
            return Err(CheckpointError::UnexpectedEof);
        }
        let x = read_le(b, p, 4);
        proof {
            lemma_pow256_values();
            crate::le::lemma_le_value_bound(b@.subrange(p as int, p + 4));
        }
        let w = x as u32;
        if !is_finite_bits(w) {
            return Err(CheckpointError::NonFinite);
        }
        let ghost before = out@;
        out.push(w);
        proof {
            match read_words(b@, p + 4, (n - i - 1) as nat) {
                Ok(rest) => {
                    assert(before + (seq![w] + rest) =~= out@ + rest);
                },
                Err(_) => {},
            }
        }
        p = p + 4;
        i += 1;
    }
    assert(out@ + Seq::<u32>::empty() =~= out@);
    Ok((out, p))
}

/// Reads a checkpoint for parameters of the given shapes: all values, or an
/// error and nothing.
pub fn decode_checkpoint(b: &[u8], shapes: &[(usize, usize)]) -> (r: Result<
    Vec<Vec<u32>>,
    CheckpointError,
>)
    ensures
        match parse_checkpoint(b@, shapes@) {
            Ok(ws) => r matches Ok(v) && words_views(v@) == ws,
            Err(e) => r == Err::<Vec<Vec<u32>>, CheckpointError>(e),
        },
{
    let len = b.len();
    if len < 4 {
        return Err(CheckpointError::UnexpectedEof);
    }
    if !(b[0] == 0x47 && b[1] == 0x52 && b[2] == 0x53 && b[3] == 0x32) {
        proof {
            if b@.subrange(0, 4) == checkpoint_magic() {
                assert(b@.subrange(0, 4)[0] == b@[0]);
                assert(b@.subrange(0, 4)[1] == b@[1]);
                assert(b@.subrange(0, 4)[2] == b@[2]);
                assert(b@.subrange(0, 4)[3] == b@[3]);
            }
        }
        return Err(CheckpointError::BadMagic);
    }
    assert(b@.subrange(0, 4) =~= checkpoint_magic());
    if len < 12 {
        return Err(CheckpointError::UnexpectedEof);
    }
    let count = read_le(b, 4, 8);
    let ns = shapes.len();
    if count != ns as u64 {
        return Err(CheckpointError::CountMismatch);
    }
    let mut out: Vec<Vec<u32>> = Vec::new();
    let mut pos: usize = 12;
    let mut k: usize = 0;
    assert(shapes@.skip(0) =~= shapes@);
    while k < ns
        invariant
            len == b@.len(),
            ns == shapes@.len(),
            12 <= pos <= len,
            k <= ns,
            out@.len() == k,
            parse_checkpoint(b@, shapes@) == match read_tensors(
                b@,
                pos as int,
                shapes@.skip(k as int),
            ) {
                Ok(rest) => Ok(words_views(out@) + rest),
                Err(e) => Err::<Seq<Seq<u32>>, CheckpointError>(e),
            },
        decreases ns - k,
    {
        let ghost sh = shapes@.skip(k as int);
        assert(sh[0] == shapes@[k as int]);
        assert(sh.drop_first() =~= shapes@.skip(k + 1));
        if len - pos < 16 {
            return Err(CheckpointError::UnexpectedEof);
        }
        let rows = read_le(b, pos, 8);
        let cols = read_le(b, pos + 8, 8);
        if rows == 0 || cols == 0 || rows > MAX_ELEMENTS || cols > MAX_ELEMENTS {
            proof {
                if rows != 0 && cols != 0 {
                    assert(rows * cols > MAX_ELEMENTS) by (nonlinear_arith)
                        requires
                            rows >= 1,
                            cols >= 1,
                            rows > MAX_ELEMENTS || cols > MAX_ELEMENTS,
                    ;
                }
            }
            return Err(CheckpointError::InvalidShape);
        }
        assert(rows * cols <= MAX_ELEMENTS * MAX_ELEMENTS) by (nonlinear_arith)
            requires
                rows <= MAX_ELEMENTS,
                cols <= MAX_ELEMENTS,
        ;
        if rows * cols > MAX_ELEMENTS {
            return Err(CheckpointError::InvalidShape);
        }
        let (er, ec) = shapes[k];
        if rows != er as u64 || cols != ec as u64 {
            return Err(CheckpointError::ShapeMismatch);
        }
        let count_k = (rows * cols) as usize;
        match read_words_exec(b, pos + 16, count_k) {
            Err(e) => {
                return Err(e);
            },
            Ok((ws, next)) => {
                let ghost before = words_views(out@);
                let ghost wv = ws@;
                out.push(ws);
                proof {
                    assert(words_views(out@) =~= before + seq![wv]);
                    match read_tensors(b@, next as int, shapes@.skip(k + 1)) {
                        Ok(rest) => {
                            assert(before + (seq![wv] + rest) =~= words_views(out@) + rest);
                        },
                        Err(_) => {},
                    }
                }
                pos = next;
            },
        }
        k += 1;
    }
    if pos < len {
        return Err(CheckpointError::TrailingData);
    }
    proof {
        assert(words_views(out@) + Seq::<Seq<u32>>::empty() =~= words_views(out@));
    }
    Ok(out)
}

/// A tensor that a checkpoint can hold: a shape within bounds, one finite
/// value per cell.
pub open spec fn storable(t: TensorBits) -> bool {
    &&& 1 <= t.rows
    &&& 1 <= t.cols
    &&& t.rows * t.cols <= MAX_ELEMENTS
    &&& t.bits@.len() == t.rows * t.cols
    &&& all_finite(t.bits@)
}

/// The shapes of the tensors.
pub open spec fn shapes_of(ts: Seq<TensorBits>) -> Seq<(usize, usize)> {
    ts.map_values(|t: TensorBits| (t.rows, t.cols))
}

/// The values of the tensors.
pub open spec fn bits_of(ts: Seq<TensorBits>) -> Seq<Seq<u32>> {
    ts.map_values(|t: TensorBits| t.bits@)
}

pub proof fn lemma_words_len(ws: Seq<u32>)
    ensures
        words_bytes(ws).len() == 4 * ws.len(),
    decreases ws.len(),
{
    if ws.len() > 0 {
        lemma_pow256_values();
        lemma_le_round_trip(ws[0] as nat, 4);
        lemma_words_len(ws.drop_first());
    }
}

pub proof fn lemma_read_words_of(pre: Seq<u8>, ws: Seq<u32>, post: Seq<u8>)
    requires
        all_finite(ws),
    ensures
        read_words(pre + words_bytes(ws) + post, pre.len() as int, ws.len()) == Ok::<
            Seq<u32>,
            CheckpointError,
        >(ws),
    decreases ws.len(),
{
    let b = pre + words_bytes(ws) + post;
    if ws.len() == 0 {
        assert(ws =~= Seq::<u32>::empty());
    } else {
        let w = ws[0];
        let rest = ws.drop_first();
        lemma_pow256_values();
        lemma_le_round_trip(w as nat, 4);
        lemma_words_len(rest);
        let pre2 = pre + le_bytes(w as nat, 4);
        assert(b =~= pre2 + words_bytes(rest) + post);
        assert(b.subrange(pre.len() as int, pre.len() + 4int) =~= le_bytes(w as nat, 4));
        assert forall|i: int| 0 <= i < rest.len() implies finite_bits(#[trigger] rest[i]) by {
            assert(rest[i] == ws[i + 1]);
        }
        assert(finite_bits(ws[0]));
        lemma_read_words_of(pre2, rest, post);
        assert(seq![w] + rest =~= ws);
    }
}

proof fn lemma_storable_rest(ts: Seq<TensorBits>)
    requires
        ts.len() > 0,
        forall|k: int| 0 <= k < ts.len() ==> storable(#[trigger] ts[k]),
    ensures
        storable(ts[0]),
        forall|k: int| 0 <= k < ts.drop_first().len() ==> storable(#[trigger] ts.drop_first()[k]),
{
    assert forall|k: int| 0 <= k < ts.drop_first().len() implies storable(
        #[trigger] ts.drop_first()[k],
    ) by {
        assert(ts.drop_first()[k] == ts[k + 1]);
    }
}

proof fn lemma_read_tensors_of(pre: Seq<u8>, ts: Seq<TensorBits>, post: Seq<u8>)
    requires
        forall|k: int| 0 <= k < ts.len() ==> storable(#[trigger] ts[k]),
    ensures
        read_tensors(pre + tensors_bytes(ts) + post, pre.len() as int, shapes_of(ts)) == if post.len()
            == 0 {
            Ok::<Seq<Seq<u32>>, CheckpointError>(bits_of(ts))
        } else {
            Err::<Seq<Seq<u32>>, CheckpointError>(CheckpointError::TrailingData)
        },
    decreases ts.len(),
{
    let b = pre + tensors_bytes(ts) + post;
    if ts.len() == 0 {
        assert(bits_of(ts) =~= Seq::<Seq<u32>>::empty());
        assert(b =~= pre + post);
    } else {
        let t = ts[0];
        lemma_storable_rest(ts);
        let rest = ts.drop_first();
        lemma_pow256_values();
        lemma_le_round_trip(t.rows as nat, 8);
        lemma_le_round_trip(t.cols as nat, 8);
        lemma_words_len(t.bits@);
        let p = pre.len() as int;
        let head = pre + le_bytes(t.rows as nat, 8) + le_bytes(t.cols as nat, 8);
        assert(b.subrange(p, p + 8) =~= le_bytes(t.rows as nat, 8));
        assert(b.subrange(p + 8, p + 16) =~= le_bytes(t.cols as nat, 8));
        assert(b =~= head + words_bytes(t.bits@) + (tensors_bytes(rest) + post));
        lemma_read_words_of(head, t.bits@, tensors_bytes(rest) + post);
        let pre2 = pre + tensor_bytes(t);
        assert(b =~= pre2 + tensors_bytes(rest) + post);
        lemma_read_tensors_of(pre2, rest, post);
        assert(shapes_of(ts)[0] == (t.rows, t.cols));
        assert(shapes_of(ts).drop_first() =~= shapes_of(rest));
        assert(seq![t.bits@] + bits_of(rest) =~= bits_of(ts));
    }
}

proof fn lemma_read_words_prefix(pre: Seq<u8>, ws: Seq<u32>, m: int)
    requires
        all_finite(ws),
        pre.len() <= m < pre.len() + 4 * ws.len(),
    ensures
        read_words((pre + words_bytes(ws)).take(m), pre.len() as int, ws.len()) == Err::<
            Seq<u32>,
            CheckpointError,
        >(CheckpointError::UnexpectedEof),
    decreases ws.len(),
{
    let full = pre + words_bytes(ws);
    let b = full.take(m);
    lemma_words_len(ws);
    let p = pre.len() as int;
    if m < p + 4 {
    } else {
        let w = ws[0];
        let rest = ws.drop_first();
        lemma_pow256_values();
        lemma_le_round_trip(w as nat, 4);
        let pre2 = pre + le_bytes(w as nat, 4);
        assert(full =~= pre2 + words_bytes(rest));
        assert(b.subrange(p, p + 4) =~= le_bytes(w as nat, 4));
        assert(finite_bits(ws[0]));
        assert forall|i: int| 0 <= i < rest.len() implies finite_bits(#[trigger] rest[i]) by {
            assert(rest[i] == ws[i + 1]);
        }
        lemma_read_words_prefix(pre2, rest, m);
    }
}

proof fn lemma_read_tensors_prefix(pre: Seq<u8>, ts: Seq<TensorBits>, m: int)
    requires
        forall|k: int| 0 <= k < ts.len() ==> storable(#[trigger] ts[k]),
        pre.len() <= m < pre.len() + tensors_bytes(ts).len(),
    ensures
        read_tensors((pre + tensors_bytes(ts)).take(m), pre.len() as int, shapes_of(ts)) == Err::<
            Seq<Seq<u32>>,
            CheckpointError,
        >(CheckpointError::UnexpectedEof),
    decreases ts.len(),
{
    let full = pre + tensors_bytes(ts);
    let b = full.take(m);
    let p = pre.len() as int;
    if ts.len() == 0 {
        assert(tensors_bytes(ts).len() == 0);
    } else {
        let t = ts[0];
        lemma_storable_rest(ts);
        let rest = ts.drop_first();
        lemma_pow256_values();
        lemma_le_round_trip(t.rows as nat, 8);
        lemma_le_round_trip(t.cols as nat, 8);
        lemma_words_len(t.bits@);
        let n = t.bits@.len();
        let head = pre + le_bytes(t.rows as nat, 8) + le_bytes(t.cols as nat, 8);
        assert(full =~= head + words_bytes(t.bits@) + tensors_bytes(rest));
        if m < p + 16 {
        } else {
            assert(b.subrange(p, p + 8) =~= le_bytes(t.rows as nat, 8));
            assert(b.subrange(p + 8, p + 16) =~= le_bytes(t.cols as nat, 8));
            assert(shapes_of(ts)[0] == (t.rows, t.cols));
            if m < p + 16 + 4 * n {
                assert(b =~= (head + words_bytes(t.bits@)).take(m));
                lemma_read_words_prefix(head, t.bits@, m);
            } else {
                let pre2 = pre + tensor_bytes(t);
                let tail = tensors_bytes(rest).take(m - pre2.len());
                assert(b =~= head + words_bytes(t.bits@) + tail);
                lemma_read_words_of(head, t.bits@, tail);
                assert(full =~= pre2 + tensors_bytes(rest));
                lemma_read_tensors_prefix(pre2, rest, m);
                assert(shapes_of(ts).drop_first() =~= shapes_of(rest));
            }
        }
    }
}

/// Loading what was saved gives every value back, for tensors that a
/// checkpoint can hold.
pub proof fn lemma_checkpoint_round_trip(ts: Seq<TensorBits>)
    requires
        ts.len() <= usize::MAX,
        forall|k: int| 0 <= k < ts.len() ==> storable(#[trigger] ts[k]),
    ensures
        !has_non_finite(ts),
        parse_checkpoint(checkpoint_bytes(ts), shapes_of(ts)) == Ok::<
            Seq<Seq<u32>>,
            CheckpointError,
        >(bits_of(ts)),
{
    lemma_pow256_values();
    lemma_le_round_trip(ts.len(), 8);
    let b = checkpoint_bytes(ts);
    let pre = checkpoint_magic() + le_bytes(ts.len(), 8);
    assert(b =~= pre + tensors_bytes(ts));
    assert(b.subrange(0, 4) =~= checkpoint_magic());
    assert(b.subrange(4, 12) =~= le_bytes(ts.len(), 8));
    lemma_read_tensors_of(pre, ts, Seq::<u8>::empty());
    assert(pre + tensors_bytes(ts) + Seq::<u8>::empty() =~= b);
    assert(!has_non_finite(ts)) by {
        if has_non_finite(ts) {
            let k = choose|k: int| 0 <= k < ts.len() && !all_finite(#[trigger] ts[k].bits@);
            assert(storable(ts[k]));
        }
    }
}

/// A checkpoint cut short anywhere is refused as ending early, so no value
/// of it is ever loaded.
pub proof fn lemma_truncated_checkpoint(ts: Seq<TensorBits>, m: int)
    requires
        ts.len() <= usize::MAX,
        forall|k: int| 0 <= k < ts.len() ==> storable(#[trigger] ts[k]),
        0 <= m < checkpoint_bytes(ts).len(),
    ensures
        parse_checkpoint(checkpoint_bytes(ts).take(m), shapes_of(ts)) == Err::<
            Seq<Seq<u32>>,
            CheckpointError,
        >(CheckpointError::UnexpectedEof),
{
    lemma_pow256_values();
    lemma_le_round_trip(ts.len(), 8);
    let full = checkpoint_bytes(ts);
    let b = full.take(m);
    let pre = checkpoint_magic() + le_bytes(ts.len(), 8);
    assert(full =~= pre + tensors_bytes(ts));
    if m >= 4 {
        assert(b.subrange(0, 4) =~= checkpoint_magic());
    }
    if m >= 12 {
        assert(b.subrange(4, 12) =~= le_bytes(ts.len(), 8));
        lemma_read_tensors_prefix(pre, ts, m);
    }
}

/// Bytes after a complete checkpoint make it refused.
pub proof fn lemma_trailing_checkpoint(ts: Seq<TensorBits>, extra: Seq<u8>)
    requires
        ts.len() <= usize::MAX,
        forall|k: int| 0 <= k < ts.len() ==> storable(#[trigger] ts[k]),
        extra.len() > 0,
    ensures
        parse_checkpoint(checkpoint_bytes(ts) + extra, shapes_of(ts)) == Err::<
            Seq<Seq<u32>>,
            CheckpointError,
        >(CheckpointError::TrailingData),
{
    lemma_pow256_values();
    lemma_le_round_trip(ts.len(), 8);
    let pre = checkpoint_magic() + le_bytes(ts.len(), 8);
    let b = checkpoint_bytes(ts) + extra;
    assert(b =~= pre + tensors_bytes(ts) + extra);
    assert(b.subrange(0, 4) =~= checkpoint_magic());
    assert(b.subrange(4, 12) =~= le_bytes(ts.len(), 8));
    lemma_read_tensors_of(pre, ts, extra);
}

} // verus!
