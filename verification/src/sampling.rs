use vstd::prelude::*;

verus! {

/// One step of the xorshift64 generator (shifts 13, 7, 17).
pub open spec fn xorshift_step(x: u64) -> u64 {
    let a = x ^ (x << 13u64);
    let b = a ^ (a >> 7u64);
    b ^ (b << 17u64)
}

/// The generator's state after `n` steps from `state`.
pub open spec fn xorshift_iter(state: u64, n: nat) -> u64
    decreases n,
{
    if n == 0 {
        state
    } else {
        xorshift_step(xorshift_iter(state, (n - 1) as nat))
    }
}

/// Stepping first and then `n` times more is `n + 1` steps.
pub proof fn lemma_xorshift_iter_shift(state: u64, n: nat)
    ensures
        xorshift_iter(xorshift_step(state), n) == xorshift_iter(state, n + 1),
    decreases n,
{
    assert(xorshift_iter(state, 0) == state);
    if n > 0 {
        lemma_xorshift_iter_shift(state, (n - 1) as nat);
    }
}

/// Advances the generator and returns its new state.
pub fn xorshift64(state: &mut u64) -> (r: u64)
    ensures
        r == xorshift_step(*old(state)),
        *final(state) == r,
{
    let mut x = *state;
    x ^= x << 13u64;
    x ^= x >> 7u64;
    x ^= x << 17u64;
    *state = x;
    x
}

/// A window start drawn from the generator.
pub fn random_start(state: &mut u64, window_count: usize) -> (r: usize)
    requires
        window_count > 0,
    ensures
        *final(state) == xorshift_step(*old(state)),
        r == (xorshift_step(*old(state)) as usize) % window_count,
        r < window_count,
{
    (xorshift64(state) as usize) % window_count
}

/// Multiplier of the linear congruential generator.
pub const LCG_MULTIPLIER: u64 = 6364136223846793005;

/// One step of the linear congruential generator: multiply and add one,
/// modulo 2^64.
pub open spec fn lcg_step(s: u64) -> u64 {
    ((s as nat * LCG_MULTIPLIER as nat + 1) % 0x1_0000_0000_0000_0000) as u64
}

/// Advances the linear congruential generator and returns the high 32 bits
/// of its new state.
pub fn lcg_next(state: &mut u64) -> (r: u32)
    ensures
        *final(state) == lcg_step(*old(state)),
        r == (lcg_step(*old(state)) >> 32u64) as u32,
{
    let s = state.wrapping_mul(LCG_MULTIPLIER).wrapping_add(1);
    *state = s;
    (s >> 32u64) as u32
}

/// Source of the model's initial weights: a linear congruential generator.
pub struct Rng {
    state: u64,
}

impl Rng {
    pub closed spec fn seed_state(&self) -> u64 {
        self.state
    }

    pub fn new(seed: u64) -> (r: Self)
        ensures
            r.seed_state() == seed,
    {
        Rng { state: seed }
    }

    /// Advances the generator; the result is the bit pattern of a single
    /// precision number in `[1, 2)` whose mantissa is the high bits of the
    /// new state.
    pub fn next_bits(&mut self) -> (r: u32)
        ensures
            final(self).seed_state() == lcg_step(old(self).seed_state()),
            r == ((lcg_step(old(self).seed_state()) >> 32u64) as u32) | 0x3f80_0000u32,
    {
        let hi = lcg_next(&mut self.state);
        hi | 0x3f80_0000u32
    }
}

/// `0, 1, …, n - 1`.
pub open spec fn identity(n: nat) -> Seq<usize> {
    Seq::new(n, |i: int| i as usize)
}

/// Exchanges two entries.
pub open spec fn swap(p: Seq<usize>, i: int, j: int) -> Seq<usize> {
    p.update(i, p[j]).update(j, p[i])
}

/// Steps `i..k` of a Fisher–Yates shuffle of `p` driven by the generator from
/// `state`: step `i` swaps entry `i` with an entry at or after it. Gives the
/// shuffled sequence and the generator's state after.
pub open spec fn shuffle(p: Seq<usize>, i: nat, k: nat, state: u64) -> (Seq<usize>, u64)
    decreases k - i,
{
    if i >= k || i >= p.len() {
        (p, state)
    } else {
        let s = xorshift_step(state);
        let j = i + (s as usize) as int % (p.len() - i);
        shuffle(swap(p, i as int, j), i + 1, k, s)
    }
}

/// How many positions are drawn: `count`, at most `usable`, at least one.
pub open spec fn draw_count(usable: nat, count: nat) -> nat {
    let c = if count < usable {
        count
    } else {
        usable
    };
    if c < 1 {
        1
    } else {
        c
    }
}

/// The number of drawn positions is `count` when `1 <= count <= usable`,
/// `usable` when more are asked for, and one when none are.
pub proof fn lemma_draw_count(usable: nat, count: nat)
    requires
        usable > 0,
    ensures
        1 <= count <= usable ==> draw_count(usable, count) == count,
        count > usable ==> draw_count(usable, count) == usable,
        count == 0 ==> draw_count(usable, count) == 1,
        1 <= draw_count(usable, count) <= usable,
{
}

/// No entry occurs twice.
pub open spec fn distinct(p: Seq<usize>) -> bool {
    forall|a: int, b: int| 0 <= a < b < p.len() ==> p[a] != p[b]
}

/// Every entry lies below `n`.
pub open spec fn all_below(p: Seq<usize>, n: nat) -> bool {
    forall|a: int| 0 <= a < p.len() ==> #[trigger] p[a] < n
}

proof fn lemma_swap_keeps(p: Seq<usize>, i: int, j: int, n: nat)
    requires
        0 <= i < p.len(),
        0 <= j < p.len(),
        distinct(p),
        all_below(p, n),
    ensures
        distinct(swap(p, i, j)),
        all_below(swap(p, i, j), n),
        swap(p, i, j).len() == p.len(),
{
    let q = swap(p, i, j);
    assert forall|a: int, b: int| 0 <= a < b < q.len() implies q[a] != q[b] by {
        let sa = if a == j { i } else if a == i { j } else { a };
        let sb = if b == j { i } else if b == i { j } else { b };
        assert(q[a] == p[sa]);
        assert(q[b] == p[sb]);
        if sa < sb {
            assert(p[sa] != p[sb]);
        } else {
            assert(p[sb] != p[sa]);
        }
    }
    assert forall|a: int| 0 <= a < q.len() implies #[trigger] q[a] < n by {
        if a == j {
            assert(q[a] == p[i]);
        } else if a == i {
            assert(q[a] == p[j]);
        }
    }
}

/// Where step `t` of the shuffle of `0..usable` driven from `s0` exchanges
/// entry `t` with: `t` plus the generator's state after `t + 1` steps,
/// modulo the number of entries from `t` on.
pub open spec fn fy_target(s0: u64, usable: nat, t: nat) -> int {
    t + (xorshift_iter(s0, t + 1) as usize) as int % (usable - t)
}

/// The value at position `q` after the first `t` steps of that shuffle,
/// traced back through the exchanges: a position that step `t - 1` exchanged
/// holds what its partner held before the step, any other keeps its value.
pub open spec fn fy_value(s0: u64, usable: nat, q: int, t: nat) -> int
    decreases t,
{
    if t == 0 {
        q
    } else {
        let u = (t - 1) as nat;
        let j = fy_target(s0, usable, u);
        if q == j {
            fy_value(s0, usable, u as int, u)
        } else if q == u {
            fy_value(s0, usable, j, u)
        } else {
            fy_value(s0, usable, q, u)
        }
    }
}

spec fn fy_seq(s0: u64, usable: nat, t: nat) -> Seq<usize> {
    Seq::new(usable, |q: int| fy_value(s0, usable, q, t) as usize)
}

proof fn lemma_shuffle_tracks(s0: u64, usable: nat, t: nat, k: nat)
    requires
        t <= k <= usable,
    ensures
        shuffle(identity(usable), 0, k, s0) == shuffle(
            fy_seq(s0, usable, t),
            t,
            k,
            xorshift_iter(s0, t),
        ),
    decreases t,
{
    if t == 0 {
        assert(fy_seq(s0, usable, 0) =~= identity(usable));
        assert(xorshift_iter(s0, 0) == s0);
    } else {
        let u = (t - 1) as nat;
        lemma_shuffle_tracks(s0, usable, u, k);
        let p = fy_seq(s0, usable, u);
        let s = xorshift_step(xorshift_iter(s0, u));
        assert(s == xorshift_iter(s0, t));
        let j = u + (s as usize) as int % (p.len() - u);
        assert(j == fy_target(s0, usable, u));
        assert(0 <= j < usable);
        assert(swap(p, u as int, j) =~= fy_seq(s0, usable, t));
    }
}

proof fn lemma_fy_settled(s0: u64, usable: nat, i: nat, t: nat)
    requires
        i < t <= usable,
    ensures
        fy_value(s0, usable, i as int, t) == fy_value(
            s0,
            usable,
            fy_target(s0, usable, i),
            i,
        ),
    decreases t,
{
    if t > i + 1 {
        let u = (t - 1) as nat;
        lemma_fy_settled(s0, usable, i, u);
        assert(fy_target(s0, usable, u) >= u);
    }
}

/// What the partial Fisher–Yates shuffle behind `sample_unique_positions`
/// draws: the generator advances once per drawn position, draw `i` is the
/// value that position `fy_target(s0, usable, i)` holds after the earlier
/// steps, and in particular the first draw is the generator's first output
/// modulo `usable`.
pub proof fn lemma_shuffle_draws(usable: nat, k: nat, s0: u64)
    requires
        k <= usable,
    ensures
        shuffle(identity(usable), 0, k, s0).1 == xorshift_iter(s0, k),
        shuffle(identity(usable), 0, k, s0).0.len() == usable,
        forall|i: int|
            0 <= i < k ==> #[trigger] shuffle(identity(usable), 0, k, s0).0[i] == fy_value(
                s0,
                usable,
                fy_target(s0, usable, i as nat),
                i as nat,
            ) as usize,
        k > 0 ==> shuffle(identity(usable), 0, k, s0).0[0] == ((xorshift_iter(s0, 1) as usize)
            as int % (usable as int)) as usize,
{
    lemma_shuffle_tracks(s0, usable, k, k);
    let r = fy_seq(s0, usable, k);
    assert(shuffle(r, k, k, xorshift_iter(s0, k)) == (r, xorshift_iter(s0, k)));
    assert forall|i: int| 0 <= i < k implies #[trigger] shuffle(identity(usable), 0, k, s0).0[i]
        == fy_value(s0, usable, fy_target(s0, usable, i as nat), i as nat) as usize by {
        lemma_fy_settled(s0, usable, i as nat, k);
    }
    if k > 0 {
        lemma_fy_settled(s0, usable, 0, k);
        assert(fy_value(s0, usable, fy_target(s0, usable, 0), 0) == fy_target(s0, usable, 0));
    }
}

/// `count` distinct positions below `usable` (at least one, at most
/// `usable`), drawn by a partial Fisher–Yates shuffle of `0..usable`.
pub fn sample_unique_positions(usable: usize, count: usize, rng: &mut u64) -> (r: Vec<usize>)
    requires
        usable > 0,
    ensures
        r@ == shuffle(identity(usable as nat), 0, draw_count(usable as nat, count as nat), *old(
            rng,
        )).0.take(draw_count(usable as nat, count as nat) as int),
        *final(rng) == shuffle(
            identity(usable as nat),
            0,
            draw_count(usable as nat, count as nat),
            *old(rng),
        ).1,
        r@.len() == draw_count(usable as nat, count as nat),
        distinct(r@),
        all_below(r@, usable as nat),
{
    let c0 = if count < usable {
        count
    } else {
        usable
    };
    let cnt = if c0 < 1 {
        1
    } else {
        c0
    };
    let ghost k = draw_count(usable as nat, count as nat);
    let ghost s0 = *old(rng);
    let mut positions: Vec<usize> = Vec::new();
    let mut t: usize = 0;
    while t < usable
        invariant
            t <= usable,
            positions@ =~= identity(t as nat),
        decreases usable - t,
    {
        positions.push(t);
        t += 1;
    }
    let mut i: usize = 0;
    while i < cnt
        invariant
            cnt == k,
            k <= usable,
            i <= cnt,
            positions@.len() == usable,
            distinct(positions@),
            all_below(positions@, usable as nat),
            shuffle(positions@, i as nat, k, *rng) == shuffle(identity(usable as nat), 0, k, s0),
        decreases cnt - i,
    {
        let remaining = usable - i;
        let ghost before = positions@;
        let ghost st = *rng;
        let x = xorshift64(rng);
        let j = i + (x as usize % remaining);
        let a = positions[i];
        let b = positions[j];
        positions.set(i, b);
        positions.set(j, a);
        proof {
            assert(positions@ =~= swap(before, i as int, j as int));
            lemma_swap_keeps(before, i as int, j as int, usable as nat);
        }
        i += 1;
    }
    let ghost full = positions@;
    assert(shuffle(full, cnt as nat, k, *rng) == (full, *rng));
    positions.truncate(cnt);
    assert(positions@ =~= full.take(k as int));
    positions
}

/// Context length for an update under the curriculum: 256 tokens in the
/// first third of training, 512 in the second, the full context after (never
/// more than the full context; short contexts are used whole).
pub open spec fn curriculum(full: nat, update: nat, total: nat) -> nat {
    if full <= 256 {
        full
    } else {
        let third = (if total < 1 {
            1
        } else {
            total
        }) / 3;
        if update < (if third < 1 {
            1
        } else {
            third
        }) {
            256
        } else if update < (if third * 2 < 2 {
            2
        } else {
            third * 2
        }) {
            if full < 512 {
                full
            } else {
                512
            }
        } else {
            full
        }
    }
}

/// The context length to train with at `update` of `total` updates.
pub fn curriculum_context(full: usize, update: usize, total: usize) -> (r: usize)
    ensures
        r == curriculum(full as nat, update as nat, total as nat),
{
    if full <= 256 {
        return full;
    }
    let t = if total < 1 {
        1
    } else {
        total
    };
    let third = t / 3;
    let first = if third < 1 {
        1
    } else {
        third
    };
    let second = if third * 2 < 2 {
        2
    } else {
        third * 2
    };
    if update < first {
        256
    } else if update < second {
        if full < 512 {
            full
        } else {
            512
        }
    } else {
        full
    }
}

/// The curriculum never shortens the context as training goes on, and never
/// goes past the full context.
pub proof fn lemma_curriculum_monotonic(full: nat, u1: nat, u2: nat, total: nat)
    requires
        u1 <= u2,
    ensures
        curriculum(full, u1, total) <= curriculum(full, u2, total),
        curriculum(full, u2, total) <= full,
{
}

/// The curriculum's stages in terms of the run: a context longer than 256
/// tokens is cut to 256 at the first update and while the update lies in the
/// first third of the run (three times the updates done so far, this one
/// included, within the total), is cut to 512 (or used whole when shorter)
/// in the middle third, and is used whole from two thirds of the run on (a
/// run of fewer than three updates takes one update per stage); a context of
/// at most 256 tokens is always used whole. Every stage is one of
/// 256, 512 (or the full context when shorter) and the full context.
pub proof fn lemma_curriculum_stages(full: nat, update: nat, total: nat)
    ensures
        full <= 256 ==> curriculum(full, update, total) == full,
        full > 256 && (update == 0 || 3 * (update + 1) <= total) ==> curriculum(
            full,
            update,
            total,
        ) == 256,
        full > 256 && total >= 3 && 3 * update >= 2 * total ==> curriculum(full, update, total)
            == full,
        full > 256 && 3 * update >= total && 3 * (update + 1) + 4 <= 2 * total ==> curriculum(
            full,
            update,
            total,
        ) == (if full < 512 {
            full
        } else {
            512
        }),
        full > 256 && total < 3 ==> curriculum(full, update, total) == (if update == 0 {
            256
        } else if update == 1 {
            if full < 512 {
                full
            } else {
                512
            }
        } else {
            full
        }),
        curriculum(full, update, total) == full || curriculum(full, update, total) == 256
            || curriculum(full, update, total) == (if full < 512 {
            full
        } else {
            512
        }),
{
    let t = if total < 1 {
        1
    } else {
        total
    };
    let third = t / 3;
    if full > 256 && 3 * (update + 1) <= total {
        assert(update + 1 <= third) by (nonlinear_arith)
            requires
                3 * (update + 1) <= total,
                t == total,
                third == t / 3,
        ;
    }
    if full > 256 && total >= 3 && 3 * update >= 2 * total {
        assert(update >= 2 * third) by (nonlinear_arith)
            requires
                3 * update >= 2 * total,
                t == total,
                third == t / 3,
        ;
        assert(2 * third >= 2) by (nonlinear_arith)
            requires
                total >= 3,
                t == total,
                third == t / 3,
        ;
    }
    if full > 256 && 3 * update >= total && 3 * (update + 1) + 4 <= 2 * total {
        assert(third <= update && update < 2 * third && third >= 1) by (nonlinear_arith)
            requires
                3 * update >= total,
                3 * (update + 1) + 4 <= 2 * total,
                t == total,
                third == t / 3,
        ;
    }
}

} // verus!
