use vstd::prelude::*;
use crate::bytes::to_vec;
use crate::lex::{lex_less, lex_lt, lemma_lex_asymmetric, lemma_lex_irreflexive, lemma_lex_total, lemma_lex_transitive};
use crate::occurrences::{
    collect_occurrences, lemma_word_end_bounds, no_control, occurrences, ones, raw_occurrences,
    raw_runs, runs, windows, word_end, word_entries, word_occurrences, ws_width,
};
use crate::piece_sort::{
    count_value, entry_le, ev, evs, lemma_count_at, lemma_count_concat, lemma_count_positive,
    lemma_count_push, lemma_count_two, same_values, score, sort_entries, sorted_dir, Entry,
    SortKey,
};

verus! {

/// How many times `p` occurs in `s`.
pub open spec fn count_in(s: Seq<Seq<u8>>, p: Seq<u8>) -> nat
    decreases s.len(),
{
    if s.len() == 0 {
        0
    } else {
        count_in(s.drop_last(), p) + if s.last() == p {
            1nat
        } else {
            0nat
        }
    }
}

/// How many times a training text counts the piece `p`.
pub open spec fn piece_count(b: Seq<u8>, p: Seq<u8>) -> nat {
    count_in(occurrences(b), p)
}

/// Pieces that a training text offers for the vocabulary: two to 64 bytes,
/// counted at least twice.
pub open spec fn is_candidate(b: Seq<u8>, p: Seq<u8>) -> bool {
    2 <= p.len() <= 64 && piece_count(b, p) >= 2
}

/// Score of a piece: its count times its length less one.
pub open spec fn piece_score(b: Seq<u8>, p: Seq<u8>) -> int {
    piece_count(b, p) * (p.len() - 1)
}

/// `p` ranks strictly before `q`: higher score, then longer, then
/// lexicographically smaller.
pub open spec fn rank_before(b: Seq<u8>, p: Seq<u8>, q: Seq<u8>) -> bool {
    piece_score(b, p) > piece_score(b, q) || (piece_score(b, p) == piece_score(b, q) && (p.len()
        > q.len() || (p.len() == q.len() && lex_lt(p, q))))
}

/// `sel` is the ranking's best `k` candidates of the text, in rank order (all
/// candidates when there are fewer than `k`).
pub open spec fn is_top_selection(b: Seq<u8>, k: int, sel: Seq<Seq<u8>>) -> bool {
    &&& sel.len() <= k
    &&& forall|i: int| 0 <= i < sel.len() ==> #[trigger] is_candidate(b, sel[i])
    &&& forall|i: int, j: int|
        #![trigger sel[i], sel[j]]
        0 <= i < j < sel.len() ==> rank_before(b, sel[i], sel[j])
    &&& forall|p: Seq<u8>|
        #[trigger] is_candidate(b, p) && !sel.contains(p) ==> sel.len() == k && forall|i: int|
            0 <= i < sel.len() ==> rank_before(b, #[trigger] sel[i], p)
}

proof fn lemma_count_ones(s: Seq<Seq<u8>>, v: (Seq<u8>, u64))
    ensures
        count_value(ones(s), v) == if v.1 == 1 {
            count_in(s, v.0)
        } else {
            0
        },
    decreases s.len(),
{
    if s.len() > 0 {
        lemma_count_ones(s.drop_last(), v);
        assert(ones(s).drop_last() =~= ones(s.drop_last()));
    }
}

/// `out` lists each piece of `src` (all counted once) once, in increasing
/// order, with how many times it occurs.
pub open spec fn counted_ok(out: Seq<(Seq<u8>, u64)>, src: Seq<(Seq<u8>, u64)>) -> bool {
    &&& forall|i: int, j: int|
        #![trigger out[i], out[j]]
        0 <= i < j < out.len() ==> lex_lt(out[i].0, out[j].0)
    &&& forall|i: int|
        0 <= i < out.len() ==> (#[trigger] out[i]).1 >= 1 && out[i].1 == count_value(
            src,
            (out[i].0, 1u64),
        )
    &&& forall|p: Seq<u8>|
        #[trigger] count_value(src, (p, 1u64)) > 0 ==> exists|i: int|
            0 <= i < out.len() && out[i].0 == p
}

/// Equality of byte strings through the order.
fn same_bytes(a: &[u8], b: &[u8]) -> (r: bool)
    ensures
        r == (a@ == b@),
{
    let lt = lex_less(a, b);
    let gt = lex_less(b, a);
    proof {
        if a@ == b@ {
            lemma_lex_irreflexive(a@);
        } else {
            lemma_lex_total(a@, b@);
        }
    }
    !lt && !gt
}

/// Collapses a lexicographically sorted run of singly counted pieces into one
/// entry per distinct piece with its count.
fn compress(sorted: &Vec<Entry>) -> (out: Vec<Entry>)
    requires
        sorted_dir(SortKey::Lexical, evs(sorted@), true),
        forall|i: int| 0 <= i < sorted@.len() ==> (#[trigger] evs(sorted@)[i]).1 == 1,
    ensures
        counted_ok(evs(out@), evs(sorted@)),
{
    let ghost src = evs(sorted@);
    let n = sorted.len();
    let mut out: Vec<Entry> = Vec::new();
    let mut k: usize = 0;
    while k < n
        invariant
            n == src.len(),
            src == evs(sorted@),
            sorted_dir(SortKey::Lexical, src, true),
            forall|i: int| 0 <= i < src.len() ==> (#[trigger] src[i]).1 == 1,
            0 <= k <= n,
            k > 0 ==> out@.len() > 0 && evs(out@).last().0 == src[k - 1].0,
            counted_ok(evs(out@), src.subrange(0, k as int)),
            forall|i: int| 0 <= i < out@.len() ==> (#[trigger] evs(out@)[i]).1 <= k,
        decreases n - k,
    {
        let ghost pre = src.subrange(0, k as int);
        let ghost o = evs(out@);
        let ghost x = src[k as int];
        assert(src.subrange(0, k + 1) =~= pre.push(x));
        let extend = if out.len() > 0 {
            let last = out.len() - 1;
            same_bytes(out[last].piece.as_slice(), sorted[k].piece.as_slice())
        } else {
            false
        };
        if extend {
            let mut e = out.pop().unwrap();
            assert(ev(e) == o[o.len() - 1]);
            assert(e.count <= k);
            assert(k < usize::MAX);
            e.count = e.count + 1;
            out.push(e);
            proof {
                let m = o.len() - 1;
                assert(evs(out@) =~= o.update(m, (o[m].0, (o[m].1 + 1) as u64)));
                assert forall|i: int| 0 <= i < out@.len() implies (#[trigger] evs(out@)[i]).1
                    >= 1 && evs(out@)[i].1 == count_value(
                    src.subrange(0, k + 1),
                    (evs(out@)[i].0, 1u64),
                ) by {
                    lemma_count_push(pre, x, (evs(out@)[i].0, 1u64));
                    if i < m {
                        assert(o[i].0 != x.0) by {
                            assert(lex_lt(o[i].0, o[m].0));
                            lemma_lex_irreflexive(o[i].0);
                        }
                    }
                }
                assert forall|p: Seq<u8>|
                    #[trigger] count_value(src.subrange(0, k + 1), (p, 1u64)) > 0 implies exists|
                        i: int,
                    |
                        0 <= i < out@.len() && evs(out@)[i].0 == p by {
                    lemma_count_push(pre, x, (p, 1u64));
                    if count_value(pre, (p, 1u64)) > 0 {
                        let i = choose|i: int| 0 <= i < o.len() && o[i].0 == p;
                        assert(evs(out@)[i].0 == p);
                    } else {
                        assert(evs(out@)[m].0 == p);
                    }
                }
                assert forall|i: int, j: int|
                    #![trigger evs(out@)[i], evs(out@)[j]]
                    0 <= i < j < out@.len() implies lex_lt(evs(out@)[i].0, evs(out@)[j].0) by {
                    assert(o[i].0 == evs(out@)[i].0 && o[j].0 == evs(out@)[j].0);
                }
            }
        } else {
            let piece = to_vec(sorted[k].piece.as_slice());
            out.push(Entry { piece, count: 1 });
            proof {
                assert(evs(out@) =~= o.push((x.0, 1u64)));
                if k > 0 {
                    // the new piece follows the previous one
                    let m = o.len() - 1;
                    assert(o[m].0 == src[k - 1].0);
                    assert(!lex_lt(x.0, src[k - 1].0));
                    assert(o[m].0 != x.0);
                    lemma_lex_total(o[m].0, x.0);
                    assert forall|i: int| 0 <= i < m implies lex_lt(#[trigger] o[i].0, x.0) by {
                        lemma_lex_transitive(o[i].0, o[m].0, x.0);
                    }
                }
                assert forall|i: int, j: int|
                    #![trigger evs(out@)[i], evs(out@)[j]]
                    0 <= i < j < out@.len() implies lex_lt(evs(out@)[i].0, evs(out@)[j].0) by {
                    if j < o.len() {
                        assert(o[i].0 == evs(out@)[i].0 && o[j].0 == evs(out@)[j].0);
                    }
                }
                assert(count_value(pre, (x.0, 1u64)) == 0) by {
                    if count_value(pre, (x.0, 1u64)) > 0 {
                        let i = choose|i: int| 0 <= i < o.len() && o[i].0 == x.0;
                        let m = o.len() - 1;
                        if i < m {
                            assert(lex_lt(o[i].0, o[m].0));
                            assert(lex_lt(o[i].0, x.0));
                            lemma_lex_irreflexive(x.0);
                        }
                    }
                }
                assert forall|i: int| 0 <= i < out@.len() implies (#[trigger] evs(out@)[i]).1
                    >= 1 && evs(out@)[i].1 == count_value(
                    src.subrange(0, k + 1),
                    (evs(out@)[i].0, 1u64),
                ) by {
                    lemma_count_push(pre, x, (evs(out@)[i].0, 1u64));
                    if i < o.len() {
                        assert(o[i].0 != x.0) by {
                            if o[i].0 == x.0 {
                                lemma_count_at(pre, 0);
                                assert(count_value(pre, (o[i].0, 1u64)) >= 1);
                            }
                        }
                    }
                }
                assert forall|p: Seq<u8>|
                    #[trigger] count_value(src.subrange(0, k + 1), (p, 1u64)) > 0 implies exists|
                        i: int,
                    |
                        0 <= i < out@.len() && evs(out@)[i].0 == p by {
                    lemma_count_push(pre, x, (p, 1u64));
                    if count_value(pre, (p, 1u64)) > 0 {
                        let i = choose|i: int| 0 <= i < o.len() && o[i].0 == p;
                        assert(evs(out@)[i].0 == p);
                    } else {
                        assert(evs(out@)[o.len() as int].0 == p);
                    }
                }
            }
        }
        k += 1;
    }
    assert(src.subrange(0, n as int) =~= src);
    out
}

/// Candidates of a text, each once, with their counts.
pub open spec fn candidates_ok(b: Seq<u8>, cs: Seq<(Seq<u8>, u64)>) -> bool {
    &&& forall|i: int|
        0 <= i < cs.len() ==> is_candidate(b, (#[trigger] cs[i]).0) && cs[i].1 == piece_count(
            b,
            cs[i].0,
        )
    &&& forall|i: int, j: int| #![trigger cs[i], cs[j]] 0 <= i < j < cs.len() ==> cs[i].0 != cs[j].0
    &&& forall|p: Seq<u8>| #[trigger] is_candidate(b, p) ==> exists|i: int| 0 <= i < cs.len() && cs[i].0 == p
}

/// With distinct pieces, no value is counted twice.
proof fn lemma_count_distinct(s: Seq<(Seq<u8>, u64)>, v: (Seq<u8>, u64))
    requires
        forall|i: int, j: int| #![trigger s[i], s[j]] 0 <= i < j < s.len() ==> s[i].0 != s[j].0,
    ensures
        count_value(s, v) <= 1,
    decreases s.len(),
{
    if s.len() > 0 {
        let d = s.drop_last();
        assert forall|i: int, j: int| #![trigger d[i], d[j]] 0 <= i < j < d.len() implies d[i].0
            != d[j].0 by {
            assert(d[i] == s[i] && d[j] == s[j]);
        }
        lemma_count_distinct(d, v);
        if s.last() == v && count_value(d, v) == 1 {
            let i = lemma_count_positive(d, v);
            assert(s[i] == d[i]);
            assert(s[i].0 == s[s.len() - 1].0);
        }
    }
}

/// Candidates of a text with their counts, from its counted pieces.
fn filter_candidates(counted: &Vec<Entry>, Ghost(b): Ghost<Seq<u8>>) -> (cands: Vec<Entry>)
    requires
        forall|i: int, j: int|
            #![trigger evs(counted@)[i], evs(counted@)[j]]
            0 <= i < j < counted@.len() ==> lex_lt(evs(counted@)[i].0, evs(counted@)[j].0),
        forall|i: int|
            0 <= i < counted@.len() ==> (#[trigger] evs(counted@)[i]).1 == piece_count(
                b,
                evs(counted@)[i].0,
            ),
        forall|p: Seq<u8>|
            piece_count(b, p) > 0 ==> exists|i: int|
                0 <= i < counted@.len() && (#[trigger] evs(counted@)[i]).0 == p,
    ensures
        candidates_ok(b, evs(cands@)),
{
    let ghost c = evs(counted@);
    let n = counted.len();
    let mut cands: Vec<Entry> = Vec::new();
    let ghost mut from: Seq<int> = Seq::empty();
    let mut i: usize = 0;
    while i < n
        invariant
            n == c.len(),
            c == evs(counted@),
            0 <= i <= n,
            forall|a: int, d: int| #![trigger c[a], c[d]] 0 <= a < d < c.len() ==> lex_lt(c[a].0, c[d].0),
            forall|a: int| 0 <= a < c.len() ==> (#[trigger] c[a]).1 == piece_count(b, c[a].0),
            from.len() == cands@.len(),
            forall|t: int|
                0 <= t < from.len() ==> 0 <= #[trigger] from[t] < i && evs(cands@)[t] == c[from[t]],
            forall|t: int, u: int| #![trigger from[t], from[u]] 0 <= t < u < from.len() ==> from[t] < from[u],
            forall|t: int| 0 <= t < cands@.len() ==> is_candidate(b, (#[trigger] evs(cands@)[t]).0),
            forall|a: int|
                #![trigger c[a]]
                0 <= a < i && is_candidate(b, c[a].0) ==> exists|t: int|
                    0 <= t < from.len() && from[t] == a,
        decreases n - i,
    {
        let len = counted[i].piece.len();
        let count = counted[i].count;
        if 2 <= len && len <= 64 && count >= 2 {
            let piece = to_vec(counted[i].piece.as_slice());
            let ghost before = evs(cands@);
            cands.push(Entry { piece, count });
            proof {
                assert(evs(cands@) =~= before.push(c[i as int]));
                let ghost old_from = from;
                from = from.push(i as int);
                assert forall|a: int|
                    #![trigger c[a]]
                    0 <= a < i + 1 && is_candidate(b, c[a].0) implies exists|t: int|
                        0 <= t < from.len() && from[t] == a by {
                    if a == i {
                        assert(from[from.len() - 1] == a);
                    } else {
                        let t = choose|t: int| 0 <= t < old_from.len() && old_from[t] == a;
                        assert(from[t] == a);
                    }
                }
            }
        } else {
            proof {
                assert forall|a: int|
                    #![trigger c[a]]
                    0 <= a < i + 1 && is_candidate(b, c[a].0) implies exists|t: int|
                        0 <= t < from.len() && from[t] == a by {
                    if a == i {
                        assert(false);
                    }
                }
            }
        }
        i += 1;
    }
    proof {
        let cs = evs(cands@);
        assert forall|t: int, u: int| #![trigger cs[t], cs[u]] 0 <= t < u < cs.len() implies cs[t].0
            != cs[u].0 by {
            assert(from[t] < from[u]);
            assert(lex_lt(c[from[t]].0, c[from[u]].0));
            lemma_lex_irreflexive(c[from[t]].0);
        }
        assert forall|p: Seq<u8>| #[trigger] is_candidate(b, p) implies exists|t: int|
            0 <= t < cs.len() && cs[t].0 == p by {
            let a = choose|a: int| 0 <= a < c.len() && (#[trigger] c[a]).0 == p;
            let t = choose|t: int| 0 <= t < from.len() && from[t] == a;
            assert(cs[t].0 == p);
        }
    }
    cands
}

/// The best `k` candidates of the text `b`, in rank order.
pub fn select_pieces(b: &[u8], k: usize) -> (sel: Vec<Vec<u8>>)
    ensures
        is_top_selection(b@, k as int, sel@.map_values(|p: Vec<u8>| p@)),
{
    let occ = collect_occurrences(b);
    let sorted = sort_entries(occ, SortKey::Lexical, true);
    proof {
        assert forall|i: int| 0 <= i < sorted@.len() implies (#[trigger] evs(sorted@)[i]).1 == 1
            by {
            lemma_count_at(evs(sorted@), i);
            let j = lemma_count_positive(ones(occurrences(b@)), evs(sorted@)[i]);
        }
    }
    let counted = compress(&sorted);
    proof {
        let c = evs(counted@);
        assert forall|p: Seq<u8>| #[trigger]
            count_value(evs(sorted@), (p, 1u64)) == piece_count(b@, p) by {
            lemma_count_ones(occurrences(b@), (p, 1u64));
        }
        assert forall|i: int| 0 <= i < counted@.len() implies (#[trigger] c[i]).1 == piece_count(
            b@,
            c[i].0,
        ) by {
            assert(count_value(evs(sorted@), (c[i].0, 1u64)) == piece_count(b@, c[i].0));
        }
        assert forall|p: Seq<u8>| piece_count(b@, p) > 0 implies exists|i: int|
            0 <= i < counted@.len() && (#[trigger] c[i]).0 == p by {
            assert(count_value(evs(sorted@), (p, 1u64)) == piece_count(b@, p));
        }
    }
    let cands = filter_candidates(&counted, Ghost(b@));
    let ghost cs = evs(cands@);
    proof {
        assert forall|i: int| 0 <= i < cs.len() implies (#[trigger] cs[i]).0.len() >= 1 by {}
    }
    let mut ranked = sort_entries(cands, SortKey::Rank, false);
    let ghost orig = evs(ranked@);
    let n = ranked.len();
    proof {
        // the ranking holds each candidate once
        assert forall|i: int| 0 <= i < n implies #[trigger] is_candidate(b@, orig[i].0)
            && orig[i].1 == piece_count(b@, orig[i].0) by {
            lemma_count_at(orig, i);
            let j = lemma_count_positive(cs, orig[i]);
        }
        assert forall|i: int, j: int| #![trigger orig[i], orig[j]] 0 <= i < j < n implies orig[i].0
            != orig[j].0 by {
            if orig[i].0 == orig[j].0 {
                lemma_count_at(orig, i);
                let ii = lemma_count_positive(cs, orig[i]);
                lemma_count_at(orig, j);
                let jj = lemma_count_positive(cs, orig[j]);
                assert(orig[i] == orig[j]);
                lemma_count_two(orig, i, j);
                lemma_count_distinct(cs, orig[i]);
            }
        }
    }
    let m = if k < n {
        k
    } else {
        n
    };
    let mut sel: Vec<Vec<u8>> = Vec::new();
    let mut j: usize = 0;
    while j < m
        invariant
            m <= n,
            n == orig.len(),
            0 <= j <= m,
            ranked@.len() == n - j,
            evs(ranked@) == orig.subrange(0, n - j),
            sel@.len() == j,
            forall|t: int| 0 <= t < j ==> (#[trigger] sel@[t])@ == orig[n - 1 - t].0,
        decreases m - j,
    {
        let ghost before = evs(ranked@);
        let e = ranked.pop().unwrap();
        proof {
            assert(ev(e) == before[before.len() - 1]);
            assert(evs(ranked@) =~= orig.subrange(0, n - j - 1));
        }
        sel.push(e.piece);
        j += 1;
    }
    proof {
        let sv = sel@.map_values(|p: Vec<u8>| p@);
        assert forall|t: int| 0 <= t < sv.len() implies #[trigger] sv[t] == orig[n - 1 - t].0 by {}
        assert forall|t: int| 0 <= t < sv.len() implies #[trigger] is_candidate(b@, sv[t]) by {
            assert(sv[t] == orig[n - 1 - t].0);
        }
        assert forall|t: int, u: int| #![trigger sv[t], sv[u]] 0 <= t < u < sv.len() implies rank_before(
            b@,
            sv[t],
            sv[u],
        ) by {
            let x = orig[n - 1 - t];
            let y = orig[n - 1 - u];
            assert(is_candidate(b@, orig[n - 1 - t].0));
            assert(is_candidate(b@, orig[n - 1 - u].0));
            assert(sorted_dir(SortKey::Rank, orig, false));
            assert(entry_le(SortKey::Rank, x, y));
            assert(x.0 != y.0);
            lemma_rank_from_entry(b@, x, y);
        }
        assert forall|p: Seq<u8>| #[trigger] is_candidate(b@, p) && !sv.contains(p) implies sv.len()
            == k && forall|i: int| 0 <= i < sv.len() ==> rank_before(b@, #[trigger] sv[i], p) by {
            let ci = choose|i: int| 0 <= i < cs.len() && cs[i].0 == p;
            lemma_count_at(cs, ci);
            let r = lemma_count_positive(orig, cs[ci]);
            if r >= n - m {
                assert(sv[n - 1 - r] == orig[r].0);
                assert(sv.contains(p));
            }
            assert(r < n - m);
            assert forall|i: int| 0 <= i < sv.len() implies rank_before(b@, #[trigger] sv[i], p) by {
                let x = orig[n - 1 - i];
                assert(sv[i] == x.0);
                assert(is_candidate(b@, orig[n - 1 - i].0));
                assert(is_candidate(b@, orig[r].0));
                assert(entry_le(SortKey::Rank, x, orig[r]));
                assert(x.0 != orig[r].0);
                lemma_rank_from_entry(b@, x, orig[r]);
            }
        }
    }
    sel
}

/// The rank of counted candidates agrees with the ranking of the text.
proof fn lemma_rank_from_entry(b: Seq<u8>, x: (Seq<u8>, u64), y: (Seq<u8>, u64))
    requires
        x.1 == piece_count(b, x.0),
        y.1 == piece_count(b, y.0),
        entry_le(SortKey::Rank, x, y),
        x.0 != y.0,
    ensures
        rank_before(b, x.0, y.0),
{
    assert(score(x) == piece_score(b, x.0));
    assert(score(y) == piece_score(b, y.0));
    lemma_lex_total(x.0, y.0);
}

proof fn lemma_rank_asymmetric(b: Seq<u8>, p: Seq<u8>, q: Seq<u8>)
    requires
        rank_before(b, p, q),
    ensures
        !rank_before(b, q, p),
        p != q,
{
    if lex_lt(p, q) {
        lemma_lex_asymmetric(p, q);
    }
    if p == q {
        lemma_lex_irreflexive(p);
    }
}

/// Law: a text has only one top selection of a given size, so training is
/// deterministic.
pub proof fn lemma_top_selection_unique(b: Seq<u8>, k: int, s1: Seq<Seq<u8>>, s2: Seq<Seq<u8>>)
    requires
        is_top_selection(b, k, s1),
        is_top_selection(b, k, s2),
    ensures
        s1 == s2,
{
    let n = if s1.len() < s2.len() {
        s1.len()
    } else {
        s2.len()
    };
    assert forall|i: int| 0 <= i < n implies s1[i] == s2[i] by {
        lemma_top_prefix_equal(b, k, s1, s2, i);
    }
    if s1.len() < s2.len() {
        lemma_longer_selection(b, k, s1, s2);
    } else if s2.len() < s1.len() {
        lemma_longer_selection(b, k, s2, s1);
    }
    assert(s1 =~= s2);
}

/// Two top selections agree up to any index both reach.
proof fn lemma_top_prefix_equal(b: Seq<u8>, k: int, s1: Seq<Seq<u8>>, s2: Seq<Seq<u8>>, i: int)
    requires
        is_top_selection(b, k, s1),
        is_top_selection(b, k, s2),
        0 <= i < s1.len(),
        i < s2.len(),
    ensures
        forall|j: int| 0 <= j <= i ==> s1[j] == s2[j],
    decreases i,
{
    if i > 0 {
        lemma_top_prefix_equal(b, k, s1, s2, i - 1);
    }
    let p = s1[i];
    let q = s2[i];
    if p != q {
        lemma_rank_total(b, p, q);
        if rank_before(b, p, q) {
            lemma_not_in_other(b, k, s1, s2, i);
            assert(is_candidate(b, s1[i]));
            assert(is_candidate(b, p) && !s2.contains(p));
            assert(rank_before(b, s2[i], p));
            lemma_rank_asymmetric(b, p, q);
        } else {
            lemma_not_in_other(b, k, s2, s1, i);
            assert(is_candidate(b, s2[i]));
            assert(is_candidate(b, q) && !s1.contains(q));
            assert(rank_before(b, s1[i], q));
            lemma_rank_asymmetric(b, q, p);
        }
    }
}

/// If `s1[i]` ranks before `s2[i]` and the two agree before `i`, then `s1[i]`
/// is missing from `s2`.
proof fn lemma_not_in_other(b: Seq<u8>, k: int, s1: Seq<Seq<u8>>, s2: Seq<Seq<u8>>, i: int)
    requires
        is_top_selection(b, k, s1),
        is_top_selection(b, k, s2),
        0 <= i < s1.len(),
        i < s2.len(),
        forall|j: int| 0 <= j < i ==> s1[j] == s2[j],
        rank_before(b, s1[i], s2[i]),
    ensures
        !s2.contains(s1[i]),
{
    let p = s1[i];
    if s2.contains(p) {
        let t = choose|t: int| 0 <= t < s2.len() && s2[t] == p;
        if t < i {
            assert(rank_before(b, s1[t], s1[i]));
            lemma_rank_asymmetric(b, s1[t], s1[i]);
        } else if t == i {
            lemma_rank_asymmetric(b, s1[i], s2[i]);
        } else {
            assert(rank_before(b, s2[i], s2[t]));
            lemma_rank_asymmetric(b, s1[i], s2[i]);
        }
    }
}

/// A top selection cannot stop short of another one that it agrees with.
proof fn lemma_longer_selection(b: Seq<u8>, k: int, s1: Seq<Seq<u8>>, s2: Seq<Seq<u8>>)
    requires
        is_top_selection(b, k, s1),
        is_top_selection(b, k, s2),
        forall|j: int| 0 <= j < s1.len() && j < s2.len() ==> s1[j] == s2[j],
    ensures
        s1.len() >= s2.len(),
{
    if s1.len() >= s2.len() {
        return;
    }
    let q = s2[s1.len() as int];
    assert(is_candidate(b, q));
    if s1.contains(q) {
        let t = choose|t: int| 0 <= t < s1.len() && s1[t] == q;
        assert(s2[t] == q);
        assert(rank_before(b, s2[t], s2[s1.len() as int]));
        lemma_rank_asymmetric(b, q, q);
    }
}

/// Different pieces are ranked one way or the other.
proof fn lemma_rank_total(b: Seq<u8>, p: Seq<u8>, q: Seq<u8>)
    requires
        p != q,
    ensures
        rank_before(b, p, q) || rank_before(b, q, p),
{
    lemma_lex_total(p, q);
}

/// How many positions from `s` on start an occurrence of `p` in `b`.
pub open spec fn hits_from(b: Seq<u8>, p: Seq<u8>, s: int) -> nat
    decreases b.len() - s,
{
    if s < 0 || s >= b.len() {
        0
    } else {
        (if s + p.len() <= b.len() && b.subrange(s, s + p.len()) == p {
            1nat
        } else {
            0nat
        }) + hits_from(b, p, s + 1)
    }
}

/// The whitespace-separated words of `b` from position `i` on.
pub open spec fn words_from(b: Seq<u8>, i: int) -> Seq<Seq<u8>>
    decreases b.len() - i,
{
    if i < 0 || i >= b.len() {
        seq![]
    } else if ws_width(b, i) > 0 {
        words_from(b, i + ws_width(b, i))
    } else {
        let e = word_end(b, i + 1);
        proof {
            lemma_word_end_bounds(b, i + 1);
        }
        seq![b.subrange(i, e)] + words_from(b, e)
    }
}

proof fn lemma_count_in_concat(a: Seq<Seq<u8>>, c: Seq<Seq<u8>>, p: Seq<u8>)
    ensures
        count_in(a + c, p) == count_in(a, p) + count_in(c, p),
    decreases c.len(),
{
    if c.len() == 0 {
        assert(a + c =~= a);
    } else {
        lemma_count_in_concat(a, c.drop_last(), p);
        assert((a + c).drop_last() =~= a + c.drop_last());
    }
}

proof fn lemma_count_in_single(x: Seq<u8>, p: Seq<u8>)
    ensures
        count_in(seq![x], p) == if x == p {
            1nat
        } else {
            0nat
        },
{
    assert(seq![x].drop_last() =~= Seq::<Seq<u8>>::empty());
    assert(count_in(Seq::<Seq<u8>>::empty(), p) == 0);
    assert(seq![x].last() == x);
}

proof fn lemma_raw_runs_count(b: Seq<u8>, s: int, l: int, top: int, p: Seq<u8>)
    requires
        0 <= s,
        0 <= l,
        s + top <= b.len(),
    ensures
        count_in(raw_runs(b, s, l, top), p) == if l <= p.len() <= top && no_control(p)
            && b.subrange(s, s + p.len()) == p {
            1nat
        } else {
            0nat
        },
    decreases top + 1 - l,
{
    if l <= top {
        lemma_raw_runs_count(b, s, l + 1, top, p);
        let x = b.subrange(s, s + l);
        let head = if no_control(x) {
            seq![x]
        } else {
            Seq::<Seq<u8>>::empty()
        };
        lemma_count_in_concat(head, raw_runs(b, s, l + 1, top), p);
        lemma_count_in_single(x, p);
        if x == p {
            assert(p.len() == l);
        }
    } else {
        assert(raw_runs(b, s, l, top) =~= Seq::<Seq<u8>>::empty());
    }
}

proof fn lemma_raw_occurrences_count(b: Seq<u8>, s: int, p: Seq<u8>)
    requires
        0 <= s <= b.len(),
    ensures
        count_in(raw_occurrences(b, s), p) == if 2 <= p.len() <= 4 && no_control(p) {
            hits_from(b, p, s)
        } else {
            0
        },
    decreases b.len() - s,
{
    if s < b.len() {
        lemma_raw_occurrences_count(b, s + 1, p);
        let top = if 4 < b.len() - s {
            4
        } else {
            b.len() - s
        };
        lemma_raw_runs_count(b, s, 2, top, p);
        lemma_count_in_concat(raw_runs(b, s, 2, top), raw_occurrences(b, s + 1), p);
    } else {
        assert(raw_occurrences(b, s) =~= Seq::<Seq<u8>>::empty());
    }
}

/// The raw text counts too: besides what its words contribute, a training
/// text counts a piece of two to four bytes without control bytes once for
/// every position where it occurs, across word boundaries as well; so such a
/// piece that occurs twice is a candidate.
pub proof fn lemma_piece_count_raw(b: Seq<u8>, p: Seq<u8>)
    ensures
        piece_count(b, p) == count_in(word_occurrences(b, 0), p) + if 2 <= p.len() <= 4
            && no_control(p) {
            hits_from(b, p, 0)
        } else {
            0
        },
        2 <= p.len() <= 4 && no_control(p) ==> piece_count(b, p) >= hits_from(b, p, 0),
        2 <= p.len() <= 4 && no_control(p) && hits_from(b, p, 0) >= 2 ==> is_candidate(b, p),
{
    lemma_count_in_concat(word_occurrences(b, 0), raw_occurrences(b, 0), p);
    lemma_raw_occurrences_count(b, 0, p);
}

proof fn lemma_word_entries_count(wd: Seq<u8>, w: Seq<u8>)
    requires
        w.len() >= 2,
    ensures
        count_in(word_entries(wd), w) >= if wd == w {
            1nat
        } else {
            0nat
        },
        count_in(word_entries(wd), seq![0x20u8] + w) >= if wd == w {
            1nat
        } else {
            0nat
        },
{
    if wd == w {
        let sp = seq![0x20u8] + wd;
        let head = seq![wd, sp];
        let rest = word_entries(wd).subrange(2, word_entries(wd).len() as int);
        assert(word_entries(wd) =~= head + rest);
        lemma_count_in_concat(head, rest, w);
        lemma_count_in_concat(head, rest, sp);
        assert(head =~= seq![wd] + seq![sp]);
        lemma_count_in_concat(seq![wd], seq![sp], w);
        lemma_count_in_concat(seq![wd], seq![sp], sp);
        lemma_count_in_single(wd, w);
        lemma_count_in_single(sp, sp);
    }
}

proof fn lemma_word_occurrences_count(b: Seq<u8>, i: int, w: Seq<u8>)
    requires
        0 <= i <= b.len(),
        w.len() >= 2,
    ensures
        count_in(word_occurrences(b, i), w) >= count_in(words_from(b, i), w),
        count_in(word_occurrences(b, i), seq![0x20u8] + w) >= count_in(words_from(b, i), w),
    decreases b.len() - i,
{
    if i < b.len() {
        if ws_width(b, i) > 0 {
            lemma_word_occurrences_count(b, i + ws_width(b, i), w);
        } else {
            let e = word_end(b, i + 1);
            lemma_word_end_bounds(b, i + 1);
            let wd = b.subrange(i, e);
            lemma_word_occurrences_count(b, e, w);
            lemma_word_entries_count(wd, w);
            lemma_count_in_concat(word_entries(wd), word_occurrences(b, e), w);
            lemma_count_in_concat(word_entries(wd), word_occurrences(b, e), seq![0x20u8] + w);
            lemma_count_in_concat(seq![wd], words_from(b, e), w);
            lemma_count_in_single(wd, w);
        }
    } else {
        assert(words_from(b, i) =~= Seq::<Seq<u8>>::empty());
    }
}

/// Every whitespace-separated word of two bytes or more counts once for
/// itself and once preceded by a space: a text counts `w` and ` w` at least
/// as often as `w` occurs among its words.
pub proof fn lemma_piece_count_words(b: Seq<u8>, w: Seq<u8>)
    requires
        w.len() >= 2,
    ensures
        piece_count(b, w) >= count_in(words_from(b, 0), w),
        piece_count(b, seq![0x20u8] + w) >= count_in(words_from(b, 0), w),
{
    lemma_word_occurrences_count(b, 0, w);
    lemma_count_in_concat(word_occurrences(b, 0), raw_occurrences(b, 0), w);
    lemma_count_in_concat(word_occurrences(b, 0), raw_occurrences(b, 0), seq![0x20u8] + w);
}

/// How many times one word counts `p`: a word of two bytes or more once as
/// itself and once after a space, and each substring of two to eight bytes
/// once per position where it starts.
pub open spec fn word_count(wd: Seq<u8>, p: Seq<u8>) -> nat {
    (if wd.len() >= 2 && wd == p {
        1nat
    } else {
        0nat
    }) + (if wd.len() >= 2 && seq![0x20u8] + wd == p {
        1nat
    } else {
        0nat
    }) + if 2 <= p.len() <= 8 {
        hits_from(wd, p, 0)
    } else {
        0
    }
}

/// How many times the words of `ws` count `p`, all together.
pub open spec fn words_count(ws: Seq<Seq<u8>>, p: Seq<u8>) -> nat
    decreases ws.len(),
{
    if ws.len() == 0 {
        0
    } else {
        word_count(ws[0], p) + words_count(ws.drop_first(), p)
    }
}

proof fn lemma_runs_count(w: Seq<u8>, s: int, l: int, top: int, p: Seq<u8>)
    requires
        0 <= s,
        0 <= l,
        s + top <= w.len(),
    ensures
        count_in(runs(w, s, l, top), p) == if l <= p.len() <= top && w.subrange(s, s + p.len())
            == p {
            1nat
        } else {
            0nat
        },
    decreases top + 1 - l,
{
    if l <= top {
        lemma_runs_count(w, s, l + 1, top, p);
        let x = w.subrange(s, s + l);
        lemma_count_in_concat(seq![x], runs(w, s, l + 1, top), p);
        lemma_count_in_single(x, p);
        if x == p {
            assert(p.len() == l);
        }
    } else {
        assert(runs(w, s, l, top) =~= Seq::<Seq<u8>>::empty());
    }
}

proof fn lemma_windows_count(w: Seq<u8>, s: int, p: Seq<u8>)
    requires
        0 <= s <= w.len(),
    ensures
        count_in(windows(w, s, 8), p) == if 2 <= p.len() <= 8 {
            hits_from(w, p, s)
        } else {
            0
        },
    decreases w.len() - s,
{
    if s < w.len() {
        lemma_windows_count(w, s + 1, p);
        let top = if 8 < w.len() - s {
            8
        } else {
            w.len() - s
        };
        lemma_runs_count(w, s, 2, top, p);
        lemma_count_in_concat(runs(w, s, 2, top), windows(w, s + 1, 8), p);
    } else {
        assert(windows(w, s, 8) =~= Seq::<Seq<u8>>::empty());
    }
}

proof fn lemma_word_entries_exact(wd: Seq<u8>, p: Seq<u8>)
    ensures
        count_in(word_entries(wd), p) == word_count(wd, p),
{
    lemma_windows_count(wd, 0, p);
    let sp = seq![0x20u8] + wd;
    if wd.len() >= 2 {
        let head = seq![wd, sp];
        assert(word_entries(wd) == head + windows(wd, 0, 8));
        lemma_count_in_concat(head, windows(wd, 0, 8), p);
        assert(head =~= seq![wd] + seq![sp]);
        lemma_count_in_concat(seq![wd], seq![sp], p);
        lemma_count_in_single(wd, p);
        lemma_count_in_single(sp, p);
    } else {
        assert(word_entries(wd) =~= windows(wd, 0, 8));
    }
}

proof fn lemma_word_occurrences_exact(b: Seq<u8>, i: int, p: Seq<u8>)
    requires
        0 <= i <= b.len(),
    ensures
        count_in(word_occurrences(b, i), p) == words_count(words_from(b, i), p),
    decreases b.len() - i,
{
    if i < b.len() {
        if ws_width(b, i) > 0 {
            lemma_word_occurrences_exact(b, i + ws_width(b, i), p);
        } else {
            let e = word_end(b, i + 1);
            lemma_word_end_bounds(b, i + 1);
            let wd = b.subrange(i, e);
            lemma_word_occurrences_exact(b, e, p);
            lemma_word_entries_exact(wd, p);
            lemma_count_in_concat(word_entries(wd), word_occurrences(b, e), p);
            let ws = words_from(b, i);
            assert(ws == seq![wd] + words_from(b, e));
            assert(ws.drop_first() =~= words_from(b, e));
        }
    } else {
        assert(words_from(b, i) =~= Seq::<Seq<u8>>::empty());
    }
}

/// How many times a training text counts a piece, stated from the text
/// itself: what each of its whitespace-separated words counts (the word as
/// itself and after a space, when of two bytes or more, and each substring of
/// two to eight bytes per position), plus, for a piece of two to four bytes
/// without control bytes, once per position of the raw text where it starts.
pub proof fn lemma_piece_count_exact(b: Seq<u8>, p: Seq<u8>)
    ensures
        piece_count(b, p) == words_count(words_from(b, 0), p) + if 2 <= p.len() <= 4
            && no_control(p) {
            hits_from(b, p, 0)
        } else {
            0
        },
{
    lemma_piece_count_raw(b, p);
    lemma_word_occurrences_exact(b, 0, p);
}

} // verus!
