use vstd::prelude::*;
use crate::sampling::{lemma_xorshift_iter_shift, xorshift64, xorshift_iter, xorshift_step};

verus! {

/// `n` window starts drawn from the generator from `state`, each below
/// `window_count`; also the generator's state after.
pub open spec fn draws(state: u64, n: nat, window_count: nat) -> (Seq<int>, u64)
    decreases n,
{
    if n == 0 {
        (seq![], state)
    } else {
        let s = xorshift_step(state);
        let start = (s as usize) as int % (window_count as int);
        let rest = draws(s, (n - 1) as nat, window_count);
        (seq![start] + rest.0, rest.1)
    }
}

/// The `len` ids from `start + off` on, as signed ids.
pub open spec fn window_ids(e: Seq<usize>, start: int, off: int, len: int) -> Seq<i64> {
    e.subrange(start + off, start + off + len).map_values(|v: usize| v as i64)
}

/// The windows at the given starts, one after another.
pub open spec fn windows_at(e: Seq<usize>, starts: Seq<int>, off: int, len: int) -> Seq<i64>
    decreases starts.len(),
{
    if starts.len() == 0 {
        seq![]
    } else {
        window_ids(e, starts[0], off, len) + windows_at(e, starts.drop_first(), off, len)
    }
}

/// The starts of evaluation batch `batch_index`: consecutive windows,
/// wrapping around.
pub open spec fn eval_starts(batch_index: nat, batch_size: nat, window_count: nat) -> Seq<int> {
    Seq::new(batch_size, |b: int| (batch_index * batch_size + b) % (window_count as int))
}

/// Appends the ids `e[from..from + len]` as signed ids.
fn push_window(out: &mut Vec<i64>, e: &[usize], from: usize, len: usize)
    requires
        from + len <= e@.len(),
    ensures
        final(out)@ == old(out)@ + window_ids(e@, from as int, 0, len as int),
{
    let n = e.len();
    let mut i: usize = 0;
    while i < len
        invariant
            n == e@.len(),
            from + len <= e@.len(),
            i <= len,
            out@ == old(out)@ + window_ids(e@, from as int, 0, i as int),
        decreases len - i,
    {
        out.push(e[from + i] as i64);
        i += 1;
        assert(window_ids(e@, from as int, 0, i as int) =~= window_ids(e@, from as int, 0, i - 1)
            .push(e@[from + i - 1] as i64));
    }
}

proof fn lemma_windows_push(e: Seq<usize>, starts: Seq<int>, st: int, off: int, len: int)
    ensures
        windows_at(e, starts.push(st), off, len) == windows_at(e, starts, off, len) + window_ids(
            e,
            st,
            off,
            len,
        ),
    decreases starts.len(),
{
    let w = window_ids(e, st, off, len);
    if starts.len() == 0 {
        assert(starts.push(st).drop_first() =~= Seq::<int>::empty());
        assert(windows_at(e, Seq::<int>::empty(), off, len) == Seq::<i64>::empty());
        assert(starts.push(st)[0] == st);
        assert(w + Seq::<i64>::empty() =~= w);
        assert(Seq::<i64>::empty() + w =~= w);
    } else {
        lemma_windows_push(e, starts.drop_first(), st, off, len);
        assert(starts.push(st).drop_first() =~= starts.drop_first().push(st));
        assert(starts.push(st)[0] == starts[0]);
        let h = window_ids(e, starts[0], off, len);
        let t = windows_at(e, starts.drop_first(), off, len);
        assert(h + (t + w) =~= (h + t) + w);
    }
}

/// The window starts of a training batch are the generator's successive
/// outputs: start `i` is the state after `i + 1` steps reduced modulo the
/// number of windows, and the generator ends `n` steps on.
pub proof fn lemma_draws_successive(state: u64, n: nat, window_count: nat)
    ensures
        draws(state, n, window_count).0.len() == n,
        draws(state, n, window_count).1 == xorshift_iter(state, n),
        forall|i: int|
            0 <= i < n ==> #[trigger] draws(state, n, window_count).0[i] == (xorshift_iter(
                state,
                (i + 1) as nat,
            ) as usize) as int % (window_count as int),
    decreases n,
{
    assert(xorshift_iter(state, 0) == state);
    if n > 0 {
        let s = xorshift_step(state);
        let m = (n - 1) as nat;
        lemma_draws_successive(s, m, window_count);
        lemma_xorshift_iter_shift(state, m);
        assert(xorshift_iter(state, 1) == s);
        assert forall|i: int| 0 <= i < n implies #[trigger] draws(state, n, window_count).0[i]
            == (xorshift_iter(state, (i + 1) as nat) as usize) as int % (window_count as int) by {
            if i > 0 {
                lemma_xorshift_iter_shift(state, i as nat);
                assert(draws(state, n, window_count).0[i] == draws(s, m, window_count).0[i - 1]);
            }
        }
    }
}

proof fn lemma_windows_at_len(e: Seq<usize>, starts: Seq<int>, off: int, len: int)
    requires
        0 <= off,
        0 <= len,
        forall|t: int|
            0 <= t < starts.len() ==> 0 <= #[trigger] starts[t] && starts[t] + off + len
                <= e.len(),
    ensures
        windows_at(e, starts, off, len).len() == starts.len() * len,
    decreases starts.len(),
{
    if starts.len() > 0 {
        let rest = starts.drop_first();
        assert forall|t: int| 0 <= t < rest.len() implies 0 <= #[trigger] rest[t] && rest[t] + off
            + len <= e.len() by {
            assert(rest[t] == starts[t + 1]);
        }
        lemma_windows_at_len(e, rest, off, len);
        assert(starts.len() * len == len + rest.len() * len) by (nonlinear_arith)
            requires
                rest.len() == starts.len() - 1,
        ;
    }
}

/// Place `j` of window `i` holds the id `off + j` places after the window's
/// start.
pub proof fn lemma_windows_at_index(
    e: Seq<usize>,
    starts: Seq<int>,
    off: int,
    len: int,
    i: int,
    j: int,
)
    requires
        0 <= off,
        0 <= len,
        forall|t: int|
            0 <= t < starts.len() ==> 0 <= #[trigger] starts[t] && starts[t] + off + len
                <= e.len(),
        0 <= i < starts.len(),
        0 <= j < len,
    ensures
        windows_at(e, starts, off, len).len() == starts.len() * len,
        windows_at(e, starts, off, len)[i * len + j] == e[starts[i] + off + j] as i64,
    decreases starts.len(),
{
    lemma_windows_at_len(e, starts, off, len);
    let rest = starts.drop_first();
    assert forall|t: int| 0 <= t < rest.len() implies 0 <= #[trigger] rest[t] && rest[t] + off
        + len <= e.len() by {
        assert(rest[t] == starts[t + 1]);
    }
    lemma_windows_at_len(e, rest, off, len);
    let w = window_ids(e, starts[0], off, len);
    let tail = windows_at(e, rest, off, len);
    assert(w.len() == len);
    assert(windows_at(e, starts, off, len) == w + tail);
    if i == 0 {
        assert(windows_at(e, starts, off, len)[j] == w[j]);
    } else {
        lemma_windows_at_index(e, rest, off, len, i - 1, j);
        assert(i * len + j == len + ((i - 1) * len + j)) by (nonlinear_arith);
        assert(0 <= (i - 1) * len) by (nonlinear_arith)
            requires
                i >= 1,
                len >= 0,
        ;
        assert(rest[i - 1] == starts[i]);
        assert((i - 1) * len + j < rest.len() * len) by (nonlinear_arith)
            requires
                0 <= i - 1 < rest.len(),
                0 <= j < len,
        ;
        assert((w + tail)[len + ((i - 1) * len + j)] == tail[(i - 1) * len + j]);
    }
}

/// What a training batch holds: with `window_count = e.len() - context`,
/// place `j` of input window `i` is the id at `start_i + j` and place `j` of
/// its target window the id at `start_i + 1 + j`, where `start_i` is the
/// generator's state after `i + 1` steps modulo `window_count`; each window
/// draws anew, and the generator ends `n` steps on.
pub proof fn lemma_batch_contents(e: Seq<usize>, context: nat, n: nat, state: u64, i: int, j: int)
    requires
        e.len() > context,
        0 <= i < n,
        0 <= j < context,
    ensures
        ({
            let wc = (e.len() - context) as nat;
            let d = draws(state, n, wc);
            let st = (xorshift_iter(state, (i + 1) as nat) as usize) as int % (wc as int);
            &&& windows_at(e, d.0, 0, context as int).len() == n * context
            &&& windows_at(e, d.0, 1, context as int).len() == n * context
            &&& windows_at(e, d.0, 0, context as int)[i * context + j] == e[st + j] as i64
            &&& windows_at(e, d.0, 1, context as int)[i * context + j] == e[st + 1 + j] as i64
            &&& d.1 == xorshift_iter(state, n)
        }),
{
    let wc = (e.len() - context) as nat;
    let d = draws(state, n, wc);
    lemma_draws_successive(state, n, wc);
    assert forall|t: int| 0 <= t < d.0.len() implies 0 <= #[trigger] d.0[t] && d.0[t] + 1
        + context <= e.len() by {
        assert(d.0[t] == (xorshift_iter(state, (t + 1) as nat) as usize) as int % (wc as int));
    }
    lemma_windows_at_index(e, d.0, 0, context as int, i, j);
    lemma_windows_at_index(e, d.0, 1, context as int, i, j);
}

/// Token windows for one training batch: `batch_size` random windows of
/// `context` inputs, each with its targets shifted by one.
pub fn make_batch_ids(encoded: &[usize], context: usize, batch_size: usize, rng: &mut u64) -> (r: (
    Vec<i64>,
    Vec<i64>,
))
    requires
        encoded@.len() > context,
    ensures
        ({
            let d = draws(*old(rng), batch_size as nat, (encoded@.len() - context) as nat);
            &&& r.0@ == windows_at(encoded@, d.0, 0, context as int)
            &&& r.1@ == windows_at(encoded@, d.0, 1, context as int)
            &&& *final(rng) == d.1
        }),
{
    let window_count = encoded.len() - context;
    let ghost wc = window_count as nat;
    let ghost s0 = *old(rng);
    let mut xs: Vec<i64> = Vec::new();
    let mut ys: Vec<i64> = Vec::new();
    let ghost mut taken: Seq<int> = seq![];
    let mut b: usize = 0;
    while b < batch_size
        invariant
            window_count == encoded@.len() - context,
            wc == window_count,
            window_count > 0,
            b <= batch_size,
            taken.len() == b,
            draws(s0, batch_size as nat, wc) == ({
                let d = draws(*rng, (batch_size - b) as nat, wc);
                (taken + d.0, d.1)
            }),
            xs@ == windows_at(encoded@, taken, 0, context as int),
            ys@ == windows_at(encoded@, taken, 1, context as int),
        decreases batch_size - b,
    {
        let x = xorshift64(rng);
        let start = (x as usize) % window_count;
        push_window(&mut xs, encoded, start, context);
        push_window(&mut ys, encoded, start + 1, context);
        proof {
            assert(window_ids(encoded@, start as int + 1, 0, context as int) =~= window_ids(
                encoded@,
                start as int,
                1,
                context as int,
            ));
            lemma_windows_push(encoded@, taken, start as int, 0, context as int);
            lemma_windows_push(encoded@, taken, start as int, 1, context as int);
            let d = draws(*rng, (batch_size - b - 1) as nat, wc);
            assert(taken + (seq![start as int] + d.0) =~= taken.push(start as int) + d.0);
            taken = taken.push(start as int);
        }
        b += 1;
    }
    assert(taken + Seq::<int>::empty() =~= taken);
    (xs, ys)
}

/// Token windows for evaluation batch `batch_index`: `batch_size`
/// consecutive windows of `context` inputs with their shifted targets.
pub fn make_eval_batch_ids(
    encoded: &[usize],
    context: usize,
    batch_size: usize,
    batch_index: usize,
) -> (r: (Vec<i64>, Vec<i64>))
    requires
        encoded@.len() > context,
        batch_index * batch_size + batch_size <= usize::MAX,
    ensures
        ({
            let s = eval_starts(
                batch_index as nat,
                batch_size as nat,
                (encoded@.len() - context) as nat,
            );
            &&& r.0@ == windows_at(encoded@, s, 0, context as int)
            &&& r.1@ == windows_at(encoded@, s, 1, context as int)
        }),
{
    let window_count = encoded.len() - context;
    let ghost all = eval_starts(batch_index as nat, batch_size as nat, window_count as nat);
    proof {
        assert(batch_index * batch_size <= usize::MAX);
    }
    let base = batch_index * batch_size;
    let mut xs: Vec<i64> = Vec::new();
    let mut ys: Vec<i64> = Vec::new();
    let mut b: usize = 0;
    while b < batch_size
        invariant
            window_count == encoded@.len() - context,
            window_count > 0,
            base == batch_index * batch_size,
            base + batch_size <= usize::MAX,
            all == eval_starts(batch_index as nat, batch_size as nat, window_count as nat),
            b <= batch_size,
            xs@ == windows_at(encoded@, all.take(b as int), 0, context as int),
            ys@ == windows_at(encoded@, all.take(b as int), 1, context as int),
        decreases batch_size - b,
    {
        let start = (base + b) % window_count;
        push_window(&mut xs, encoded, start, context);
        push_window(&mut ys, encoded, start + 1, context);
        proof {
            assert(window_ids(encoded@, start as int + 1, 0, context as int) =~= window_ids(
                encoded@,
                start as int,
                1,
                context as int,
            ));
            assert(all[b as int] == start);
            assert(all.take(b + 1) =~= all.take(b as int).push(start as int));
            lemma_windows_push(encoded@, all.take(b as int), start as int, 0, context as int);
            lemma_windows_push(encoded@, all.take(b as int), start as int, 1, context as int);
        }
        b += 1;
    }
    assert(all.take(batch_size as int) =~= all);
    (xs, ys)
}

/// Warm-up length for `steps` updates: a twentieth of the run, at least 20
/// updates, never more than the run.
pub fn default_warmup(steps: usize) -> (w: usize)
    ensures
        w == if steps / 20 < 20 {
            if 20 < steps {
                20
            } else {
                steps
            }
        } else {
            steps / 20
        },
        w <= steps,
{
    let a = steps / 20;
    let b = if a < 20 {
        20
    } else {
        a
    };
    if b < steps {
        b
    } else {
        steps
    }
}

/// Where the training tokens end: nine tenths of the tokens, but leaving at
/// least `context + 2` tokens on each side where the text allows; the
/// validation part then starts `context` tokens before it.
pub fn validation_split(len: usize, context: usize) -> (s: usize)
    requires
        context + 2 <= usize::MAX,
        len <= usize::MAX / 9,
    ensures
        ({
            let a = len * 9 / 10;
            let lo = if a < context + 2 {
                context + 2
            } else {
                a
            };
            let hi = if len < context + 2 {
                0
            } else {
                len - (context + 2)
            };
            s == if lo < hi {
                lo
            } else {
                hi
            }
        }),
{
    let a = len * 9 / 10;
    let lo = if a < context + 2 {
        context + 2
    } else {
        a
    };
    let hi = len.saturating_sub(context + 2);
    if lo < hi {
        lo
    } else {
        hi
    }
}

/// Updates still to run when training resumes after `completed` updates
/// toward a total of `total`: none once the total is reached.
pub fn remaining_updates(total: usize, completed: usize) -> (r: usize)
    ensures
        r == if completed < total {
            total - completed
        } else {
            0
        },
        completed + r == if completed < total {
            total as int
        } else {
            completed as int
        },
{
    total.saturating_sub(completed)
}

} // verus!
