use vstd::prelude::*;
use crate::checkpoint::{
    all_finite, all_finite_exec, lemma_read_words_of, lemma_words_len, push_words, read_words,
    read_words_exec, words_bytes, CheckpointError,
};
use crate::le::{le_bytes, le_value, lemma_le_round_trip, lemma_pow256_values, push_le, read_le};

verus! {

/// The format tag `ADW1`.
pub open spec fn optim_magic() -> Seq<u8> {
    seq![0x41u8, 0x44, 0x57, 0x31]
}

/// `n` zero values.
pub open spec fn zeros(n: nat) -> Seq<u32> {
    Seq::new(n, |i: int| 0u32)
}

/// The first and second moments kept for a parameter of `len` values; a
/// parameter the optimizer has not seen yet has zero moments.
pub open spec fn moments_of(o: Option<(Vec<u32>, Vec<u32>)>, len: nat) -> (Seq<u32>, Seq<u32>) {
    match o {
        Some(p) => (p.0@, p.1@),
        None => (zeros(len), zeros(len)),
    }
}

/// One parameter's entry: the length, the first moments, the second moments.
pub open spec fn moment_entry(len: nat, m: Seq<u32>, v: Seq<u32>) -> Seq<u8> {
    le_bytes(len, 8) + words_bytes(m) + words_bytes(v)
}

/// The entries for all parameters, or why saving is refused: at the first
/// parameter whose moments have the wrong length or a non-finite value.
pub open spec fn moment_entries(lens: Seq<usize>, ms: Seq<Option<(Vec<u32>, Vec<u32>)>>) -> Result<
    Seq<u8>,
    CheckpointError,
>
    decreases lens.len(),
{
    if lens.len() == 0 || ms.len() == 0 {
        Ok(seq![])
    } else {
        let (m, v) = moments_of(ms[0], lens[0] as nat);
        if m.len() != lens[0] || v.len() != lens[0] {
            Err(CheckpointError::LengthMismatch)
        } else if !all_finite(m) || !all_finite(v) {
            Err(CheckpointError::RefusedNonFinite)
        } else {
            match moment_entries(lens.drop_first(), ms.drop_first()) {
                Ok(rest) => Ok(moment_entry(lens[0] as nat, m, v) + rest),
                Err(e) => Err(e),
            }
        }
    }
}

/// The bytes of an optimizer state file: the tag, the parameter count, the
/// step, the entries.
pub open spec fn optim_state_bytes(
    step: usize,
    lens: Seq<usize>,
    ms: Seq<Option<(Vec<u32>, Vec<u32>)>>,
) -> Result<Seq<u8>, CheckpointError> {
    match moment_entries(lens, ms) {
        Ok(body) => Ok(optim_magic() + le_bytes(lens.len(), 8) + le_bytes(step as nat, 8) + body),
        Err(e) => Err(e),
    }
}

/// Reads the moment entries from `pos` on for parameters of the given sizes;
/// no byte may follow the last one.
pub open spec fn read_moments(b: Seq<u8>, pos: int, lens: Seq<usize>) -> Result<
    Seq<(Seq<u32>, Seq<u32>)>,
    CheckpointError,
>
    decreases lens.len(),
{
    if lens.len() == 0 {
        if pos < b.len() {
            Err(CheckpointError::TrailingData)
        } else {
            Ok(seq![])
        }
    } else if pos + 8 > b.len() {
        Err(CheckpointError::UnexpectedEof)
    } else {
        let len = le_value(b.subrange(pos, pos + 8)) as usize;
        if len != lens[0] {
            Err(CheckpointError::LengthMismatch)
        } else {
            match read_words(b, pos + 8, len as nat) {
                Err(e) => Err(e),
                Ok(m) => match read_words(b, pos + 8 + 4 * len, len as nat) {
                    Err(e) => Err(e),
                    Ok(v) => match read_moments(b, pos + 8 + 8 * len, lens.drop_first()) {
                        Ok(rest) => Ok(seq![(m, v)] + rest),
                        Err(e) => Err(e),
                    },
                },
            }
        }
    }
}

/// The step and the moments of an optimizer state file for parameters of the
/// given sizes, or why it is refused.
pub open spec fn parse_optim_state(b: Seq<u8>, lens: Seq<usize>) -> Result<
    (usize, Seq<(Seq<u32>, Seq<u32>)>),
    CheckpointError,
> {
    if b.len() < 4 {
        Err(CheckpointError::UnexpectedEof)
    } else if b.subrange(0, 4) != optim_magic() {
        Err(CheckpointError::BadMagic)
    } else if b.len() < 12 {
        Err(CheckpointError::UnexpectedEof)
    } else if le_value(b.subrange(4, 12)) != lens.len() {
        Err(CheckpointError::CountMismatch)
    } else if b.len() < 20 {
        Err(CheckpointError::UnexpectedEof)
    } else if le_value(b.subrange(12, 20)) > usize::MAX {
        Err(CheckpointError::StepTooLarge)
    } else {
        match read_moments(b, 20, lens) {
            Ok(ms) => Ok((le_value(b.subrange(12, 20)) as usize, ms)),
            Err(e) => Err(e),
        }
    }
}

/// The moment pairs of a decoded state.
pub open spec fn pair_views(v: Seq<(Vec<u32>, Vec<u32>)>) -> Seq<(Seq<u32>, Seq<u32>)> {
    v.map_values(|p: (Vec<u32>, Vec<u32>)| (p.0@, p.1@))
}

/// The bytes of an optimizer state file for parameters of sizes `lens`,
/// whose moments are `moments` (`None` for a parameter not yet stepped).
pub fn encode_optim_state(
    step: usize,
    lens: &[usize],
    moments: &[Option<(Vec<u32>, Vec<u32>)>],
) -> (r: Result<Vec<u8>, CheckpointError>)
    requires
        lens@.len() == moments@.len(),
    ensures
        match optim_state_bytes(step, lens@, moments@) {
            Ok(bytes) => r matches Ok(out) && out@ == bytes,
            Err(e) => r == Err::<Vec<u8>, CheckpointError>(e),
        },
{
    let n = lens.len();
    let mut out: Vec<u8> = Vec::new();
    out.push(0x41);
    out.push(0x44);
    out.push(0x57);
    out.push(0x31);
    push_le(&mut out, n as u64, 8);
    push_le(&mut out, step as u64, 8);
    let ghost head = out@;
    assert(head =~= optim_magic() + le_bytes(n as nat, 8) + le_bytes(step as nat, 8));
    let mut k: usize = 0;
    assert(lens@.skip(0) =~= lens@);
    assert(moments@.skip(0) =~= moments@);
    while k < n
        invariant
            n == lens@.len(),
            n == moments@.len(),
            0 <= k <= n,
            head == optim_magic() + le_bytes(n as nat, 8) + le_bytes(step as nat, 8),
            optim_state_bytes(step, lens@, moments@) == match moment_entries(
                lens@.skip(k as int),
                moments@.skip(k as int),
            ) {
                Ok(rest) => Ok(out@ + rest),
                Err(e) => Err::<Seq<u8>, CheckpointError>(e),
            },
        decreases n - k,
    {
        let ghost ls = lens@.skip(k as int);
        let ghost mss = moments@.skip(k as int);
        assert(ls[0] == lens@[k as int] && mss[0] == moments@[k as int]);
        assert(ls.drop_first() =~= lens@.skip(k + 1));
        assert(mss.drop_first() =~= moments@.skip(k + 1));
        let len = lens[k];
        let ghost before = out@;
        match &moments[k] {
            Some(pair) => {
                let m = &pair.0;
                let v = &pair.1;
                if m.len() != len || v.len() != len {
                    return Err(CheckpointError::LengthMismatch);
                }
                if !all_finite_exec(m.as_slice()) || !all_finite_exec(v.as_slice()) {
                    return Err(CheckpointError::RefusedNonFinite);
                }
                push_le(&mut out, len as u64, 8);
                push_words(&mut out, m.as_slice());
                push_words(&mut out, v.as_slice());
                proof {
                    assert(out@ =~= before + moment_entry(len as nat, m@, v@));
                }
            },
            None => {
                let mut zs: Vec<u32> = Vec::new();
                let mut i: usize = 0;
                while i < len
                    invariant
                        i <= len,
                        zs@ =~= zeros(i as nat),
                    decreases len - i,
                {
                    zs.push(0);
                    i += 1;
                }
                assert(zs@ =~= zeros(len as nat));
                push_le(&mut out, len as u64, 8);
                push_words(&mut out, zs.as_slice());
                push_words(&mut out, zs.as_slice());
                proof {
                    assert(all_finite(zs@)) by {
                        assert forall|j: int| 0 <= j < zs@.len() implies crate::checkpoint::finite_bits(
                            #[trigger] zs@[j],
                        ) by {
                            assert(zs@[j] == 0u32);
                            assert(0u32 & 0x7F80_0000u32 == 0u32) by (bit_vector);
                        }
                    }
                    assert(out@ =~= before + moment_entry(len as nat, zs@, zs@));
                }
            },
        }
        proof {
            match moment_entries(lens@.skip(k + 1), moments@.skip(k + 1)) {
                Ok(rest) => {
                    assert(before + (moment_entry(len as nat, moments_of(mss[0], len as nat).0,
                        moments_of(mss[0], len as nat).1) + rest) =~= out@ + rest);
                },
                Err(_) => {},
            }
        }
        k += 1;
    }
    proof {
        assert(lens@.skip(n as int).len() == 0);
        assert(out@ + Seq::<u8>::empty() =~= out@);
    }
    Ok(out)
}

/// Reads an optimizer state file for parameters of sizes `lens`: the step
/// and every moment pair, or an error and nothing.
pub fn decode_optim_state(b: &[u8], lens: &[usize]) -> (r: Result<
    (usize, Vec<(Vec<u32>, Vec<u32>)>),
    CheckpointError,
>)
    ensures
        match parse_optim_state(b@, lens@) {
            Ok((step, ms)) => r matches Ok((s, v)) && s == step && pair_views(v@) == ms,
            Err(e) => r == Err::<(usize, Vec<(Vec<u32>, Vec<u32>)>), CheckpointError>(e),
        },
{
    let len = b.len();
    if len < 4 {
        return Err(CheckpointError::UnexpectedEof);
    }
    if !(b[0] == 0x41 && b[1] == 0x44 && b[2] == 0x57 && b[3] == 0x31) {
        proof {
            if b@.subrange(0, 4) == optim_magic() {
                assert(b@.subrange(0, 4)[0] == b@[0]);
                assert(b@.subrange(0, 4)[1] == b@[1]);
                assert(b@.subrange(0, 4)[2] == b@[2]);
                assert(b@.subrange(0, 4)[3] == b@[3]);
            }
        }
        return Err(CheckpointError::BadMagic);
    }
    assert(b@.subrange(0, 4) =~= optim_magic());
    if len < 12 {
        return Err(CheckpointError::UnexpectedEof);
    }
    let count = read_le(b, 4, 8);
    let n = lens.len();
    if count != n as u64 {
        return Err(CheckpointError::CountMismatch);
    }
    if len < 20 {
        return Err(CheckpointError::UnexpectedEof);
    }
    let step64 = read_le(b, 12, 8);
    if step64 > usize::MAX as u64 {
        return Err(CheckpointError::StepTooLarge);
    }
    let step = step64 as usize;
    let mut out: Vec<(Vec<u32>, Vec<u32>)> = Vec::new();
    let mut pos: usize = 20;
    let mut k: usize = 0;
    assert(lens@.skip(0) =~= lens@);
    while k < n
        invariant
            len == b@.len(),
            n == lens@.len(),
            20 <= pos <= len,
            k <= n,
            step == le_value(b@.subrange(12, 20)),
            parse_optim_state(b@, lens@) == match read_moments(
                b@,
                pos as int,
                lens@.skip(k as int),
            ) {
                Ok(rest) => Ok((step, pair_views(out@) + rest)),
                Err(e) => Err::<(usize, Seq<(Seq<u32>, Seq<u32>)>), CheckpointError>(e),
            },
        decreases n - k,
    {
        let ghost ls = lens@.skip(k as int);
        assert(ls[0] == lens@[k as int]);
        assert(ls.drop_first() =~= lens@.skip(k + 1));
        if len - pos < 8 {
            return Err(CheckpointError::UnexpectedEof);
        }
        let l = read_le(b, pos, 8) as usize;
        if l != lens[k] {
            return Err(CheckpointError::LengthMismatch);
        }
        let (m, p1) = match read_words_exec(b, pos + 8, l) {
            Err(e) => {
                return Err(e);
            },
            Ok(x) => x,
        };
        let (v, p2) = match read_words_exec(b, p1, l) {
            Err(e) => {
                return Err(e);
            },
            Ok(x) => x,
        };
        let ghost before = pair_views(out@);
        let ghost mv = m@;
        let ghost vv = v@;
        out.push((m, v));
        proof {
            assert(pair_views(out@) =~= before + seq![(mv, vv)]);
            match read_moments(b@, p2 as int, lens@.skip(k + 1)) {
                Ok(rest) => {
                    assert(before + (seq![(mv, vv)] + rest) =~= pair_views(out@) + rest);
                },
                Err(_) => {},
            }
        }
        pos = p2;
        k += 1;
    }
    if pos < len {
        return Err(CheckpointError::TrailingData);
    }
    proof {
        assert(pair_views(out@) + Seq::<(Seq<u32>, Seq<u32>)>::empty() =~= pair_views(out@));
    }
    Ok((step, out))
}

/// The moments of every parameter can be saved: right lengths, finite values.
pub open spec fn moments_storable(lens: Seq<usize>, ms: Seq<Option<(Vec<u32>, Vec<u32>)>>) -> bool {
    &&& lens.len() == ms.len()
    &&& forall|k: int|
        0 <= k < lens.len() ==> {
            let (m, v) = #[trigger] moments_of(ms[k], lens[k] as nat);
            &&& m.len() == lens[k]
            &&& v.len() == lens[k]
            &&& all_finite(m)
            &&& all_finite(v)
        }
}

/// The moment pairs that saving writes, zero for parameters not yet stepped.
pub open spec fn saved_pairs(lens: Seq<usize>, ms: Seq<Option<(Vec<u32>, Vec<u32>)>>) -> Seq<
    (Seq<u32>, Seq<u32>),
> {
    Seq::new(lens.len(), |k: int| moments_of(ms[k], lens[k] as nat))
}

proof fn lemma_entries_round_trip(
    pre: Seq<u8>,
    lens: Seq<usize>,
    ms: Seq<Option<(Vec<u32>, Vec<u32>)>>,
)
    requires
        moments_storable(lens, ms),
    ensures
        moment_entries(lens, ms) matches Ok(body) && read_moments(
            pre + body,
            pre.len() as int,
            lens,
        ) == Ok::<Seq<(Seq<u32>, Seq<u32>)>, CheckpointError>(saved_pairs(lens, ms)),
    decreases lens.len(),
{
    if lens.len() == 0 {
        assert(saved_pairs(lens, ms) =~= Seq::<(Seq<u32>, Seq<u32>)>::empty());
        assert(pre + Seq::<u8>::empty() =~= pre);
    } else {
        let len = lens[0];
        let (m, v) = moments_of(ms[0], len as nat);
        assert(m.len() == len && v.len() == len && all_finite(m) && all_finite(v));
        let lr = lens.drop_first();
        let mr = ms.drop_first();
        assert(moments_storable(lr, mr)) by {
            assert forall|k: int| 0 <= k < lr.len() implies {
                let (m2, v2) = #[trigger] moments_of(mr[k], lr[k] as nat);
                &&& m2.len() == lr[k]
                &&& v2.len() == lr[k]
                &&& all_finite(m2)
                &&& all_finite(v2)
            } by {
                assert(lr[k] == lens[k + 1] && mr[k] == ms[k + 1]);
                let (m3, v3) = moments_of(ms[k + 1], lens[k + 1] as nat);
            }
        }
        let entry = moment_entry(len as nat, m, v);
        let pre2 = pre + entry;
        lemma_entries_round_trip(pre2, lr, mr);
        let rest = moment_entries(lr, mr)->Ok_0;
        let b = pre + (entry + rest);
        let p = pre.len() as int;
        lemma_pow256_values();
        lemma_le_round_trip(len as nat, 8);
        lemma_words_len(m);
        lemma_words_len(v);
        assert(b.subrange(p, p + 8) =~= le_bytes(len as nat, 8));
        let h1 = pre + le_bytes(len as nat, 8);
        assert(b =~= h1 + words_bytes(m) + (words_bytes(v) + rest));
        lemma_read_words_of(h1, m, words_bytes(v) + rest);
        let h2 = h1 + words_bytes(m);
        assert(b =~= h2 + words_bytes(v) + rest);
        lemma_read_words_of(h2, v, rest);
        assert(b =~= pre2 + rest);
        assert(saved_pairs(lr, mr) =~= saved_pairs(lens, ms).drop_first());
        assert(seq![(m, v)] + saved_pairs(lr, mr) =~= saved_pairs(lens, ms));
    }
}

/// Loading a saved optimizer state gives back its step and every moment pair.
pub proof fn lemma_optim_state_round_trip(
    step: usize,
    lens: Seq<usize>,
    ms: Seq<Option<(Vec<u32>, Vec<u32>)>>,
)
    requires
        lens.len() <= usize::MAX,
        moments_storable(lens, ms),
    ensures
        optim_state_bytes(step, lens, ms) matches Ok(bytes) && parse_optim_state(bytes, lens)
            == Ok::<(usize, Seq<(Seq<u32>, Seq<u32>)>), CheckpointError>(
            (step, saved_pairs(lens, ms)),
        ),
{
    let pre = optim_magic() + le_bytes(lens.len(), 8) + le_bytes(step as nat, 8);
    lemma_entries_round_trip(pre, lens, ms);
    let body = moment_entries(lens, ms)->Ok_0;
    let b = pre + body;
    lemma_pow256_values();
    lemma_le_round_trip(lens.len(), 8);
    lemma_le_round_trip(step as nat, 8);
    assert(b.subrange(0, 4) =~= optim_magic());
    assert(b.subrange(4, 12) =~= le_bytes(lens.len(), 8));
    assert(b.subrange(12, 20) =~= le_bytes(step as nat, 8));
}

} // verus!
