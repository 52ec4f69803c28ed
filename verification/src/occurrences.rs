use vstd::prelude::*;
use crate::bytes::to_vec;
use crate::piece_sort::{count_value, ev, evs, Entry};

verus! {

/// Width of the UTF-8 encoding of a Unicode whitespace character that starts
/// at `i` (as `char::is_whitespace` defines whitespace), or 0 when none does.
pub open spec fn ws_width(b: Seq<u8>, i: int) -> int {
    if 0 <= i < b.len() {
        let c = b[i];
        if c == 0x09 || c == 0x0A || c == 0x0B || c == 0x0C || c == 0x0D || c == 0x20 {
            1
        } else if c == 0xC2 && i + 1 < b.len() && (b[i + 1] == 0x85 || b[i + 1] == 0xA0) {
            2
        } else if i + 2 < b.len() && ((c == 0xE1 && b[i + 1] == 0x9A && b[i + 2] == 0x80) || (
        c == 0xE2 && b[i + 1] == 0x80 && ((0x80 <= b[i + 2] <= 0x8A) || b[i + 2] == 0xA8 || b[i
            + 2] == 0xA9 || b[i + 2] == 0xAF)) || (c == 0xE2 && b[i + 1] == 0x81 && b[i + 2]
            == 0x9F) || (c == 0xE3 && b[i + 1] == 0x80 && b[i + 2] == 0x80)) {
            3
        } else {
            0
        }
    } else {
        0
    }
}

/// End of the word that starts at `i`: the first whitespace or the end.
pub open spec fn word_end(b: Seq<u8>, i: int) -> int
    decreases b.len() - i,
{
    if i < 0 || i >= b.len() || ws_width(b, i) > 0 {
        i
    } else {
        word_end(b, i + 1)
    }
}

pub proof fn lemma_word_end_bounds(b: Seq<u8>, i: int)
    requires
        0 <= i <= b.len(),
    ensures
        i <= word_end(b, i) <= b.len(),
        forall|j: int| i <= j < word_end(b, i) ==> ws_width(b, j) == 0,
        word_end(b, i) < b.len() ==> ws_width(b, word_end(b, i)) > 0,
    decreases b.len() - i,
{
    if i < b.len() && ws_width(b, i) == 0 {
        lemma_word_end_bounds(b, i + 1);
    }
}

/// Pieces `w[s..s + l]` for `l` from `l` to `top`.
pub open spec fn runs(w: Seq<u8>, s: int, l: int, top: int) -> Seq<Seq<u8>>
    decreases top + 1 - l,
{
    if l > top {
        seq![]
    } else {
        seq![w.subrange(s, s + l)] + runs(w, s, l + 1, top)
    }
}

/// Every substring of `w` of two to `maxlen` bytes that starts at `s` or
/// later, by start and then by length.
pub open spec fn windows(w: Seq<u8>, s: int, maxlen: int) -> Seq<Seq<u8>>
    decreases w.len() - s,
{
    if s < 0 || s >= w.len() {
        seq![]
    } else {
        runs(w, s, 2, if maxlen < w.len() - s {
            maxlen
        } else {
            w.len() - s
        }) + windows(w, s + 1, maxlen)
    }
}

/// What one word contributes: the word and the word after a space (for words
/// of two bytes or more), then its substrings of two to eight bytes.
pub open spec fn word_entries(w: Seq<u8>) -> Seq<Seq<u8>> {
    (if w.len() >= 2 {
        seq![w, seq![0x20u8] + w]
    } else {
        seq![]
    }) + windows(w, 0, 8)
}

/// Contributions of the whitespace-separated words from position `i` on.
pub open spec fn word_occurrences(b: Seq<u8>, i: int) -> Seq<Seq<u8>>
    decreases b.len() - i,
{
    if i < 0 || i >= b.len() {
        seq![]
    } else if ws_width(b, i) > 0 {
        word_occurrences(b, i + ws_width(b, i))
    } else {
        let e = word_end(b, i + 1);
        proof {
            lemma_word_end_bounds(b, i + 1);
        }
        word_entries(b.subrange(i, e)) + word_occurrences(b, e)
    }
}

/// ASCII control bytes, as `u8::is_ascii_control` defines them.
pub open spec fn is_control(c: u8) -> bool {
    c <= 0x1F || c == 0x7F
}

/// A piece without control bytes.
pub open spec fn no_control(p: Seq<u8>) -> bool {
    forall|k: int| 0 <= k < p.len() ==> !is_control(#[trigger] p[k])
}

/// Pieces `b[s..s + l]` without control bytes, for `l` from `l` to `top`.
pub open spec fn raw_runs(b: Seq<u8>, s: int, l: int, top: int) -> Seq<Seq<u8>>
    decreases top + 1 - l,
{
    if l > top {
        seq![]
    } else {
        (if no_control(b.subrange(s, s + l)) {
            seq![b.subrange(s, s + l)]
        } else {
            seq![]
        }) + raw_runs(b, s, l + 1, top)
    }
}

/// Substrings of two to four bytes of the raw text, from position `s` on,
/// that hold no control byte.
pub open spec fn raw_occurrences(b: Seq<u8>, s: int) -> Seq<Seq<u8>>
    decreases b.len() - s,
{
    if s < 0 || s >= b.len() {
        seq![]
    } else {
        raw_runs(b, s, 2, if 4 < b.len() - s {
            4
        } else {
            b.len() - s
        }) + raw_occurrences(b, s + 1)
    }
}

/// Every counted occurrence of a piece in a training text, in counting order.
pub open spec fn occurrences(b: Seq<u8>) -> Seq<Seq<u8>> {
    word_occurrences(b, 0) + raw_occurrences(b, 0)
}

/// Pieces with a count of one each.
pub open spec fn ones(s: Seq<Seq<u8>>) -> Seq<(Seq<u8>, u64)> {
    s.map_values(|p: Seq<u8>| (p, 1u64))
}

proof fn lemma_ones_concat(a: Seq<Seq<u8>>, c: Seq<Seq<u8>>)
    ensures
        ones(a + c) == ones(a) + ones(c),
{
    assert(ones(a + c) =~= ones(a) + ones(c));
}

/// Width of the whitespace character at `i`, or 0.
pub fn ws_width_exec(b: &[u8], i: usize) -> (w: usize)
    requires
        i < b@.len(),
    ensures
        w == ws_width(b@, i as int),
{
    let n = b.len();
    let c = b[i];
    if c == 0x09 || c == 0x0A || c == 0x0B || c == 0x0C || c == 0x0D || c == 0x20 {
        1
    } else if c == 0xC2 && i + 1 < n && (b[i + 1] == 0x85 || b[i + 1] == 0xA0) {
        2
    } else if n - i > 2 {
        let c1 = b[i + 1];
        let c2 = b[i + 2];
        if (c == 0xE1 && c1 == 0x9A && c2 == 0x80) || (c == 0xE2 && c1 == 0x80 && ((0x80 <= c2
            && c2 <= 0x8A) || c2 == 0xA8 || c2 == 0xA9 || c2 == 0xAF)) || (c == 0xE2 && c1 == 0x81
            && c2 == 0x9F) || (c == 0xE3 && c1 == 0x80 && c2 == 0x80) {
            3
        } else {
            0
        }
    } else {
        0
    }
}

/// Appends `w[s..s + l]` for every `l` from 2 to `top`, each counted once.
fn push_runs(out: &mut Vec<Entry>, w: &[u8], s: usize, top: usize)
    requires
        s + top <= w.len(),
        top <= 8,
    ensures
        evs(final(out)@) == evs(old(out)@) + ones(runs(w@, s as int, 2, top as int)),
{
    let mut l: usize = 2;
    while l <= top
        invariant
            s + top <= w.len(),
            top <= 8,
            2 <= l,
            l <= top + 1 || l == 2,
            evs(out@) + ones(runs(w@, s as int, l as int, top as int)) == evs(old(out)@) + ones(
                runs(w@, s as int, 2, top as int),
            ),
        decreases top + 1 - l,
    {
        let ghost before = evs(out@);
        let piece = to_vec(&w[s..s + l]);
        out.push(Entry { piece, count: 1 });
        proof {
            let p = w@.subrange(s as int, s + l);
            assert(runs(w@, s as int, l as int, top as int) == seq![p] + runs(
                w@,
                s as int,
                l + 1,
                top as int,
            ));
            lemma_ones_concat(seq![p], runs(w@, s as int, l + 1, top as int));
            assert(ones(seq![p]) =~= seq![(p, 1u64)]);
            assert(evs(out@) =~= before.push((p, 1u64)));
            assert(evs(out@) + ones(runs(w@, s as int, l + 1, top as int)) =~= before + ones(
                runs(w@, s as int, l as int, top as int),
            ));
        }
        l += 1;
    }
}

/// Appends what one word contributes.
fn push_word(out: &mut Vec<Entry>, w: &[u8])
    ensures
        evs(final(out)@) == evs(old(out)@) + ones(word_entries(w@)),
{
    let n = w.len();
    let ghost start = evs(out@);
    if n >= 2 {
        let whole = to_vec(w);
        let mut spaced: Vec<u8> = Vec::new();
        spaced.push(0x20);
        crate::bytes::push_all(&mut spaced, w);
        out.push(Entry { piece: whole, count: 1 });
        out.push(Entry { piece: spaced, count: 1 });
    }
    let ghost head = if n >= 2 {
        seq![w@, seq![0x20u8] + w@]
    } else {
        Seq::<Seq<u8>>::empty()
    };
    proof {
        assert(ones(head) =~= (if n >= 2 {
            seq![(w@, 1u64), (seq![0x20u8] + w@, 1u64)]
        } else {
            Seq::<(Seq<u8>, u64)>::empty()
        }));
        assert(evs(out@) =~= start + ones(head));
        assert(windows(w@, 0, 8) == windows(w@, 0, 8));
    }
    let mut s: usize = 0;
    while s < n
        invariant
            n == w@.len(),
            0 <= s <= n,
            evs(out@) + ones(windows(w@, s as int, 8)) == start + ones(head) + ones(
                windows(w@, 0, 8),
            ),
        decreases n - s,
    {
        let top = if 8 < n - s {
            8
        } else {
            n - s
        };
        let ghost before = evs(out@);
        push_runs(out, w, s, top);
        proof {
            let r = runs(w@, s as int, 2, top as int);
            assert(windows(w@, s as int, 8) == r + windows(w@, s + 1, 8));
            lemma_ones_concat(r, windows(w@, s + 1, 8));
            assert(evs(out@) + ones(windows(w@, s + 1, 8)) =~= before + ones(
                windows(w@, s as int, 8),
            ));
        }
        s += 1;
    }
    proof {
        assert(windows(w@, n as int, 8) =~= Seq::<Seq<u8>>::empty());
        assert(ones(Seq::<Seq<u8>>::empty()) =~= Seq::<(Seq<u8>, u64)>::empty());
        lemma_ones_concat(head, windows(w@, 0, 8));
        assert(evs(out@) =~= start + ones(word_entries(w@)));
    }
}

/// Appends the contributions of all whitespace-separated words.
fn push_words(out: &mut Vec<Entry>, b: &[u8])
    ensures
        evs(final(out)@) == evs(old(out)@) + ones(word_occurrences(b@, 0)),
{
    let n = b.len();
    let ghost start = evs(out@);
    let mut i: usize = 0;
    while i < n
        invariant
            n == b@.len(),
            0 <= i <= n,
            evs(out@) + ones(word_occurrences(b@, i as int)) == start + ones(
                word_occurrences(b@, 0),
            ),
        decreases n - i,
    {
        let w = ws_width_exec(b, i);
        if w > 0 {
            assert(word_occurrences(b@, i as int) == word_occurrences(b@, i + w));
            i = i + w;
        } else {
            let mut e: usize = i + 1;
            proof {
                lemma_word_end_bounds(b@, i + 1);
            }
            while e < n && ws_width_exec(b, e) == 0
                invariant
                    n == b@.len(),
                    i < e <= n,
                    word_end(b@, e as int) == word_end(b@, i + 1),
                decreases n - e,
            {
                e += 1;
            }
            let ghost before = evs(out@);
            push_word(out, &b[i..e]);
            proof {
                assert(word_end(b@, e as int) == e);
                let wd = b@.subrange(i as int, e as int);
                assert(word_occurrences(b@, i as int) == word_entries(wd) + word_occurrences(
                    b@,
                    e as int,
                ));
                lemma_ones_concat(word_entries(wd), word_occurrences(b@, e as int));
                assert(evs(out@) + ones(word_occurrences(b@, e as int)) =~= before + ones(
                    word_occurrences(b@, i as int),
                ));
            }
            i = e;
        }
    }
    proof {
        assert(ones(Seq::<Seq<u8>>::empty()) =~= Seq::<(Seq<u8>, u64)>::empty());
        assert(evs(out@) + ones(word_occurrences(b@, n as int)) =~= evs(out@));
    }
}

/// Whether `p` holds no control byte.
fn no_control_exec(p: &[u8]) -> (r: bool)
    ensures
        r == no_control(p@),
{
    let n = p.len();
    let mut k: usize = 0;
    while k < n
        invariant
            n == p@.len(),
            0 <= k <= n,
            forall|j: int| 0 <= j < k ==> !is_control(#[trigger] p@[j]),
        decreases n - k,
    {
        let c = p[k];
        if c <= 0x1F || c == 0x7F {
            return false;
        }
        k += 1;
    }
    true
}

/// Appends the control-free pieces `b[s..s + l]` for `l` from 2 to `top`.
fn push_raw_runs(out: &mut Vec<Entry>, b: &[u8], s: usize, top: usize)
    requires
        s + top <= b.len(),
        top <= 8,
    ensures
        evs(final(out)@) == evs(old(out)@) + ones(raw_runs(b@, s as int, 2, top as int)),
{
    let mut l: usize = 2;
    while l <= top
        invariant
            s + top <= b.len(),
            top <= 8,
            2 <= l,
            l <= top + 1 || l == 2,
            evs(out@) + ones(raw_runs(b@, s as int, l as int, top as int)) == evs(old(out)@)
                + ones(raw_runs(b@, s as int, 2, top as int)),
        decreases top + 1 - l,
    {
        let ghost before = evs(out@);
        let slice = &b[s..s + l];
        let keep = no_control_exec(slice);
        if keep {
            let piece = to_vec(slice);
            out.push(Entry { piece, count: 1 });
        }
        proof {
            let p = b@.subrange(s as int, s + l);
            let head = if no_control(p) {
                seq![p]
            } else {
                Seq::<Seq<u8>>::empty()
            };
            assert(raw_runs(b@, s as int, l as int, top as int) == head + raw_runs(
                b@,
                s as int,
                l + 1,
                top as int,
            ));
            lemma_ones_concat(head, raw_runs(b@, s as int, l + 1, top as int));
            assert(ones(head) =~= (if keep {
                seq![(p, 1u64)]
            } else {
                Seq::<(Seq<u8>, u64)>::empty()
            }));
            assert(evs(out@) =~= before + ones(head));
            assert(evs(out@) + ones(raw_runs(b@, s as int, l + 1, top as int)) =~= before + ones(
                raw_runs(b@, s as int, l as int, top as int),
            ));
        }
        l += 1;
    }
}

/// Appends the control-free raw pieces of two to four bytes.
fn push_raw(out: &mut Vec<Entry>, b: &[u8])
    ensures
        evs(final(out)@) == evs(old(out)@) + ones(raw_occurrences(b@, 0)),
{
    let n = b.len();
    let ghost start = evs(out@);
    let mut s: usize = 0;
    while s < n
        invariant
            n == b@.len(),
            0 <= s <= n,
            evs(out@) + ones(raw_occurrences(b@, s as int)) == start + ones(
                raw_occurrences(b@, 0),
            ),
        decreases n - s,
    {
        let top = if 4 < n - s {
            4
        } else {
            n - s
        };
        let ghost before = evs(out@);
        push_raw_runs(out, b, s, top);
        proof {
            let r = raw_runs(b@, s as int, 2, top as int);
            assert(raw_occurrences(b@, s as int) == r + raw_occurrences(b@, s + 1));
            lemma_ones_concat(r, raw_occurrences(b@, s + 1));
            assert(evs(out@) + ones(raw_occurrences(b@, s + 1)) =~= before + ones(
                raw_occurrences(b@, s as int),
            ));
        }
        s += 1;
    }
    proof {
        assert(ones(Seq::<Seq<u8>>::empty()) =~= Seq::<(Seq<u8>, u64)>::empty());
        assert(evs(out@) + ones(raw_occurrences(b@, n as int)) =~= evs(out@));
    }
}

/// Every occurrence of a piece in the training text, each with a count of one.
pub fn collect_occurrences(b: &[u8]) -> (out: Vec<Entry>)
    ensures
        evs(out@) == ones(occurrences(b@)),
{
    let mut out: Vec<Entry> = Vec::new();
    push_words(&mut out, b);
    push_raw(&mut out, b);
    proof {
        lemma_ones_concat(word_occurrences(b@, 0), raw_occurrences(b@, 0));
        assert(evs(out@) =~= ones(occurrences(b@)));
    }
    out
}

} // verus!
