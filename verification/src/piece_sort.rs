use vstd::prelude::*;
use crate::lex::{lex_less, lex_lt, lemma_lex_asymmetric, lemma_lex_irreflexive, lemma_lex_total, lemma_lex_transitive};

verus! {

/// A byte piece with a count attached.
pub struct Entry {
    pub piece: Vec<u8>,
    pub count: u64,
}

/// The value of an entry: its bytes and its count.
pub open spec fn ev(e: Entry) -> (Seq<u8>, u64) {
    (e.piece@, e.count)
}

/// The values of a sequence of entries.
pub open spec fn evs(s: Seq<Entry>) -> Seq<(Seq<u8>, u64)> {
    s.map_values(|e: Entry| ev(e))
}

/// How many times `v` occurs in `s`.
pub open spec fn count_value(s: Seq<(Seq<u8>, u64)>, v: (Seq<u8>, u64)) -> nat
    decreases s.len(),
{
    if s.len() == 0 {
        0
    } else {
        count_value(s.drop_last(), v) + if s.last() == v {
            1nat
        } else {
            0nat
        }
    }
}

/// Two sequences hold the same values the same number of times.
pub open spec fn same_values(a: Seq<(Seq<u8>, u64)>, b: Seq<(Seq<u8>, u64)>) -> bool {
    forall|v: (Seq<u8>, u64)| #[trigger] count_value(a, v) == count_value(b, v)
}

/// Orders by which entries can be sorted.
#[derive(Clone, Copy, PartialEq, Eq, Structural, Debug)]
pub enum SortKey {
    /// Lexicographic order of the pieces.
    Lexical,
    /// Higher score first, then longer pieces, then lexicographic order; the
    /// score of a piece is its count times its length less one.
    Rank,
}

/// Score of a counted piece: its count times its length less one.
pub open spec fn score(v: (Seq<u8>, u64)) -> int {
    v.1 * (v.0.len() - 1)
}

/// `a` may come before `b` under `key`.
pub open spec fn entry_le(key: SortKey, a: (Seq<u8>, u64), b: (Seq<u8>, u64)) -> bool {
    match key {
        SortKey::Lexical => !lex_lt(b.0, a.0),
        SortKey::Rank => score(a) > score(b) || (score(a) == score(b) && (a.0.len() > b.0.len()
            || (a.0.len() == b.0.len() && !lex_lt(b.0, a.0)))),
    }
}

/// `a` may come before `b` in the direction `asc` under `key`.
pub open spec fn dir_le(key: SortKey, asc: bool, a: (Seq<u8>, u64), b: (Seq<u8>, u64)) -> bool {
    if asc {
        entry_le(key, a, b)
    } else {
        entry_le(key, b, a)
    }
}

/// `s` is sorted under `key`, ascending or descending.
pub open spec fn sorted_dir(key: SortKey, s: Seq<(Seq<u8>, u64)>, asc: bool) -> bool {
    forall|i: int, j: int|
        #![trigger s[i], s[j]]
        0 <= i < j < s.len() ==> dir_le(key, asc, s[i], s[j])
}

pub proof fn lemma_entry_le_total(key: SortKey, a: (Seq<u8>, u64), b: (Seq<u8>, u64))
    ensures
        entry_le(key, a, b) || entry_le(key, b, a),
{
    if lex_lt(b.0, a.0) {
        lemma_lex_asymmetric(b.0, a.0);
    }
}

/// The reflexive closure of the lexicographic order is transitive.
proof fn lemma_lex_le_transitive(a: Seq<u8>, b: Seq<u8>, c: Seq<u8>)
    requires
        !lex_lt(b, a),
        !lex_lt(c, b),
    ensures
        !lex_lt(c, a),
{
    if lex_lt(c, a) {
        if a != b {
            lemma_lex_total(a, b);
        }
        if b != c {
            lemma_lex_total(b, c);
        }
        if a != b && b != c {
            lemma_lex_transitive(a, b, c);
            lemma_lex_asymmetric(a, c);
        } else if a != b {
            lemma_lex_asymmetric(a, b);
        } else if b != c {
            lemma_lex_asymmetric(b, c);
        } else {
            lemma_lex_irreflexive(a);
        }
    }
}

pub proof fn lemma_entry_le_transitive(
    key: SortKey,
    a: (Seq<u8>, u64),
    b: (Seq<u8>, u64),
    c: (Seq<u8>, u64),
)
    requires
        entry_le(key, a, b),
        entry_le(key, b, c),
    ensures
        entry_le(key, a, c),
{
    match key {
        SortKey::Lexical => {
            lemma_lex_le_transitive(a.0, b.0, c.0);
        },
        SortKey::Rank => {
            if score(a) == score(b) && score(b) == score(c) && a.0.len() == b.0.len() && b.0.len()
                == c.0.len() {
                lemma_lex_le_transitive(a.0, b.0, c.0);
            }
        },
    }
}

pub proof fn lemma_count_push(s: Seq<(Seq<u8>, u64)>, x: (Seq<u8>, u64), v: (Seq<u8>, u64))
    ensures
        count_value(s.push(x), v) == count_value(s, v) + if x == v {
            1nat
        } else {
            0nat
        },
{
    assert(s.push(x).drop_last() =~= s);
}

pub proof fn lemma_count_concat(a: Seq<(Seq<u8>, u64)>, b: Seq<(Seq<u8>, u64)>, v: (Seq<u8>, u64))
    ensures
        count_value(a + b, v) == count_value(a, v) + count_value(b, v),
    decreases b.len(),
{
    if b.len() == 0 {
        assert(a + b =~= a);
    } else {
        lemma_count_concat(a, b.drop_last(), v);
        assert((a + b).drop_last() =~= a + b.drop_last());
    }
}

/// A value that is counted occurs at some index.
pub proof fn lemma_count_positive(s: Seq<(Seq<u8>, u64)>, v: (Seq<u8>, u64)) -> (i: int)
    requires
        count_value(s, v) > 0,
    ensures
        0 <= i < s.len(),
        s[i] == v,
    decreases s.len(),
{
    if s.last() == v {
        s.len() - 1
    } else {
        let i = lemma_count_positive(s.drop_last(), v);
        i
    }
}

/// A value at two different indices is counted at least twice.
pub proof fn lemma_count_two(s: Seq<(Seq<u8>, u64)>, i: int, j: int)
    requires
        0 <= i < j < s.len(),
        s[i] == s[j],
    ensures
        count_value(s, s[i]) >= 2,
    decreases s.len(),
{
    if j < s.len() - 1 {
        lemma_count_two(s.drop_last(), i, j);
    } else {
        lemma_count_at(s.drop_last(), i);
    }
}

/// A value at some index is counted at least once.
pub proof fn lemma_count_at(s: Seq<(Seq<u8>, u64)>, i: int)
    requires
        0 <= i < s.len(),
    ensures
        count_value(s, s[i]) >= 1,
    decreases s.len(),
{
    if i < s.len() - 1 {
        lemma_count_at(s.drop_last(), i);
    }
}

/// `a` may come before `b` under `key`.
pub fn entry_le_exec(key: SortKey, a: &Entry, b: &Entry) -> (r: bool)
    requires
        key == SortKey::Rank ==> a.piece@.len() >= 1 && b.piece@.len() >= 1,
    ensures
        r == entry_le(key, ev(*a), ev(*b)),
{
    match key {
        SortKey::Lexical => !lex_less(b.piece.as_slice(), a.piece.as_slice()),
        SortKey::Rank => {
            let la = a.piece.len();
            let lb = b.piece.len();
            let ca = a.count as u128;
            let cb = b.count as u128;
            let wa = (la - 1) as u128;
            let wb = (lb - 1) as u128;
            assert(ca * wa < 0x1_0000_0000_0000_0000_0000_0000_0000_0000 && cb * wb
                < 0x1_0000_0000_0000_0000_0000_0000_0000_0000) by (nonlinear_arith)
                requires
                    ca < 0x1_0000_0000_0000_0000,
                    cb < 0x1_0000_0000_0000_0000,
                    wa < 0x1_0000_0000_0000_0000,
                    wb < 0x1_0000_0000_0000_0000,
            ;
            let sa: u128 = ca * wa;
            let sb: u128 = cb * wb;
            assert(sa == score(ev(*a)) && sb == score(ev(*b))) by (nonlinear_arith)
                requires
                    sa == ca * wa,
                    sb == cb * wb,
                    ca == a.count,
                    cb == b.count,
                    wa == la - 1,
                    wb == lb - 1,
                    la == a.piece@.len(),
                    lb == b.piece@.len(),
                    la >= 1,
                    lb >= 1,
            ;
            if sa != sb {
                sa > sb
            } else if la != lb {
                la > lb
            } else {
                !lex_less(b.piece.as_slice(), a.piece.as_slice())
            }
        },
    }
}

/// Every piece in `s` is non-empty.
pub open spec fn pieces_nonempty(s: Seq<(Seq<u8>, u64)>) -> bool {
    forall|i: int| 0 <= i < s.len() ==> (#[trigger] s[i]).0.len() >= 1
}

/// Merges two runs sorted against the wanted direction (so the next element
/// is always at the back of one of them).
fn merge(a: Vec<Entry>, b: Vec<Entry>, key: SortKey, asc: bool) -> (r: Vec<Entry>)
    requires
        sorted_dir(key, evs(a@), !asc),
        sorted_dir(key, evs(b@), !asc),
        key == SortKey::Rank ==> pieces_nonempty(evs(a@)) && pieces_nonempty(evs(b@)),
    ensures
        sorted_dir(key, evs(r@), asc),
        same_values(evs(r@), evs(a@) + evs(b@)),
{
    let ghost a0 = evs(a@);
    let ghost b0 = evs(b@);
    let mut a = a;
    let mut b = b;
    let mut out: Vec<Entry> = Vec::new();
    proof {
        assert forall|v: (Seq<u8>, u64)|
            #[trigger] count_value(evs(out@), v) + count_value(evs(a@), v) + count_value(
                evs(b@),
                v,
            ) == count_value(a0 + b0, v) by {
            lemma_count_concat(a0, b0, v);
            assert(evs(out@) =~= Seq::<(Seq<u8>, u64)>::empty());
        }
    }
    while a.len() > 0 || b.len() > 0
        invariant
            sorted_dir(key, evs(a@), !asc),
            sorted_dir(key, evs(b@), !asc),
            sorted_dir(key, evs(out@), asc),
            key == SortKey::Rank ==> pieces_nonempty(evs(a@)) && pieces_nonempty(evs(b@)),
            forall|i: int, j: int|
                #![trigger evs(out@)[i], evs(a@)[j]]
                0 <= i < out@.len() && 0 <= j < a@.len() ==> dir_le(
                    key,
                    asc,
                    evs(out@)[i],
                    evs(a@)[j],
                ),
            forall|i: int, j: int|
                #![trigger evs(out@)[i], evs(b@)[j]]
                0 <= i < out@.len() && 0 <= j < b@.len() ==> dir_le(
                    key,
                    asc,
                    evs(out@)[i],
                    evs(b@)[j],
                ),
            forall|v: (Seq<u8>, u64)|
                #[trigger] count_value(evs(out@), v) + count_value(evs(a@), v) + count_value(
                    evs(b@),
                    v,
                ) == count_value(a0 + b0, v),
        decreases a@.len() + b@.len(),
    {
        let take_a = if a.len() == 0 {
            false
        } else if b.len() == 0 {
            true
        } else {
            let la = a.len() - 1;
            let lb = b.len() - 1;
            proof {
                if key == SortKey::Rank {
                    assert(evs(a@)[la as int].0.len() >= 1);
                    assert(evs(b@)[lb as int].0.len() >= 1);
                }
            }
            if asc {
                entry_le_exec(key, &a[la], &b[lb])
            } else {
                entry_le_exec(key, &b[lb], &a[la])
            }
        };
        let ghost old_out = evs(out@);
        let ghost old_a = evs(a@);
        let ghost old_b = evs(b@);
        if take_a {
            let x = a.pop().unwrap();
            let ghost xv = ev(x);
            out.push(x);
            proof {
                assert(old_a =~= evs(a@).push(xv));
                assert(evs(out@) =~= old_out.push(xv));
                assert forall|i: int, j: int|
                    #![trigger evs(a@)[i], evs(a@)[j]]
                    0 <= i < j < a@.len() implies dir_le(key, !asc, evs(a@)[i], evs(a@)[j]) by {
                    assert(old_a[i] == evs(a@)[i] && old_a[j] == evs(a@)[j]);
                }
                if key == SortKey::Rank {
                    assert forall|i: int| 0 <= i < a@.len() implies (#[trigger] evs(a@)[i]).0.len()
                        >= 1 by {
                        assert(old_a[i] == evs(a@)[i]);
                    }
                }
                let na = old_a.len();
                assert forall|j: int| 0 <= j < a@.len() implies #[trigger] dir_le(
                    key,
                    asc,
                    xv,
                    evs(a@)[j],
                ) by {
                    assert(old_a[j] == evs(a@)[j]);
                    assert(old_a[na - 1] == xv);
                }
                assert forall|j: int| 0 <= j < b@.len() implies #[trigger] dir_le(
                    key,
                    asc,
                    xv,
                    evs(b@)[j],
                ) by {
                    let nb = old_b.len();
                    assert(old_b[j] == evs(b@)[j]);
                    assert(dir_le(key, asc, xv, old_b[nb - 1]));
                    if j < nb - 1 {
                        assert(dir_le(key, !asc, old_b[j], old_b[nb - 1]));
                        if asc {
                            lemma_entry_le_transitive(key, xv, old_b[nb - 1], old_b[j]);
                        } else {
                            lemma_entry_le_transitive(key, old_b[j], old_b[nb - 1], xv);
                        }
                    }
                }
                assert forall|i: int| 0 <= i < old_out.len() implies #[trigger] dir_le(
                    key,
                    asc,
                    old_out[i],
                    xv,
                ) by {
                    assert(old_a[na - 1] == xv);
                }
                assert forall|i: int, j: int|
                    #![trigger old_out[i], evs(a@)[j]]
                    0 <= i < old_out.len() && 0 <= j < a@.len() implies dir_le(
                        key,
                        asc,
                        old_out[i],
                        evs(a@)[j],
                    ) by {
                    assert(old_a[j] == evs(a@)[j]);
                }
                assert forall|i: int, j: int|
                    #![trigger old_out[i], evs(b@)[j]]
                    0 <= i < old_out.len() && 0 <= j < b@.len() implies dir_le(
                        key,
                        asc,
                        old_out[i],
                        evs(b@)[j],
                    ) by {
                    assert(old_b[j] == evs(b@)[j]);
                }
                lemma_merge_step(key, asc, old_out, evs(out@), evs(a@), evs(b@), xv);
                assert forall|v: (Seq<u8>, u64)|
                    #[trigger] count_value(evs(out@), v) + count_value(evs(a@), v)
                        + count_value(evs(b@), v) == count_value(a0 + b0, v) by {
                    lemma_count_push(old_out, xv, v);
                    lemma_count_push(evs(a@), xv, v);
                    assert(count_value(old_out, v) + count_value(old_a, v) + count_value(old_b, v)
                        == count_value(a0 + b0, v));
                }
            }
        } else {
            let x = b.pop().unwrap();
            let ghost xv = ev(x);
            out.push(x);
            proof {
                assert(old_b =~= evs(b@).push(xv));
                assert(evs(out@) =~= old_out.push(xv));
                assert forall|i: int, j: int|
                    #![trigger evs(b@)[i], evs(b@)[j]]
                    0 <= i < j < b@.len() implies dir_le(key, !asc, evs(b@)[i], evs(b@)[j]) by {
                    assert(old_b[i] == evs(b@)[i] && old_b[j] == evs(b@)[j]);
                }
                if key == SortKey::Rank {
                    assert forall|i: int| 0 <= i < b@.len() implies (#[trigger] evs(b@)[i]).0.len()
                        >= 1 by {
                        assert(old_b[i] == evs(b@)[i]);
                    }
                }
                let nb = old_b.len();
                assert forall|j: int| 0 <= j < b@.len() implies #[trigger] dir_le(
                    key,
                    asc,
                    xv,
                    evs(b@)[j],
                ) by {
                    assert(old_b[j] == evs(b@)[j]);
                    assert(old_b[nb - 1] == xv);
                }
                assert forall|j: int| 0 <= j < a@.len() implies #[trigger] dir_le(
                    key,
                    asc,
                    xv,
                    evs(a@)[j],
                ) by {
                    let na = old_a.len();
                    assert(old_a[j] == evs(a@)[j]);
                    lemma_entry_le_total(key, old_a[na - 1], xv);
                    if j < na - 1 {
                        assert(dir_le(key, !asc, old_a[j], old_a[na - 1]));
                        if asc {
                            lemma_entry_le_transitive(key, xv, old_a[na - 1], old_a[j]);
                        } else {
                            lemma_entry_le_transitive(key, old_a[j], old_a[na - 1], xv);
                        }
                    }
                }
                assert forall|i: int| 0 <= i < old_out.len() implies #[trigger] dir_le(
                    key,
                    asc,
                    old_out[i],
                    xv,
                ) by {
                    assert(old_b[nb - 1] == xv);
                }
                assert forall|i: int, j: int|
                    #![trigger old_out[i], evs(a@)[j]]
                    0 <= i < old_out.len() && 0 <= j < a@.len() implies dir_le(
                        key,
                        asc,
                        old_out[i],
                        evs(a@)[j],
                    ) by {
                    assert(old_a[j] == evs(a@)[j]);
                }
                assert forall|i: int, j: int|
                    #![trigger old_out[i], evs(b@)[j]]
                    0 <= i < old_out.len() && 0 <= j < b@.len() implies dir_le(
                        key,
                        asc,
                        old_out[i],
                        evs(b@)[j],
                    ) by {
                    assert(old_b[j] == evs(b@)[j]);
                }
                lemma_merge_step(key, asc, old_out, evs(out@), evs(a@), evs(b@), xv);
                assert forall|v: (Seq<u8>, u64)|
                    #[trigger] count_value(evs(out@), v) + count_value(evs(a@), v)
                        + count_value(evs(b@), v) == count_value(a0 + b0, v) by {
                    lemma_count_push(old_out, xv, v);
                    lemma_count_push(evs(b@), xv, v);
                    assert(count_value(old_out, v) + count_value(old_a, v) + count_value(old_b, v)
                        == count_value(a0 + b0, v));
                }
            }
        }
    }
    proof {
        assert forall|v: (Seq<u8>, u64)| #[trigger]
            count_value(evs(out@), v) == count_value(a0 + b0, v) by {
            assert(evs(a@) =~= Seq::<(Seq<u8>, u64)>::empty());
            assert(evs(b@) =~= Seq::<(Seq<u8>, u64)>::empty());
        }
    }
    out
}

/// Appending an element that lies between the output and everything that
/// remains keeps the output sorted and still below what remains.
proof fn lemma_merge_step(
    key: SortKey,
    asc: bool,
    old_out: Seq<(Seq<u8>, u64)>,
    out: Seq<(Seq<u8>, u64)>,
    a: Seq<(Seq<u8>, u64)>,
    b: Seq<(Seq<u8>, u64)>,
    xv: (Seq<u8>, u64),
)
    requires
        out == old_out.push(xv),
        sorted_dir(key, old_out, asc),
        forall|i: int| 0 <= i < old_out.len() ==> #[trigger] dir_le(key, asc, old_out[i], xv),
        forall|i: int, j: int|
            #![trigger old_out[i], a[j]]
            0 <= i < old_out.len() && 0 <= j < a.len() ==> dir_le(key, asc, old_out[i], a[j]),
        forall|i: int, j: int|
            #![trigger old_out[i], b[j]]
            0 <= i < old_out.len() && 0 <= j < b.len() ==> dir_le(key, asc, old_out[i], b[j]),
        forall|j: int| 0 <= j < a.len() ==> #[trigger] dir_le(key, asc, xv, a[j]),
        forall|j: int| 0 <= j < b.len() ==> #[trigger] dir_le(key, asc, xv, b[j]),
    ensures
        sorted_dir(key, out, asc),
        forall|i: int, j: int|
            #![trigger out[i], a[j]]
            0 <= i < out.len() && 0 <= j < a.len() ==> dir_le(key, asc, out[i], a[j]),
        forall|i: int, j: int|
            #![trigger out[i], b[j]]
            0 <= i < out.len() && 0 <= j < b.len() ==> dir_le(key, asc, out[i], b[j]),
{
    assert forall|i: int, j: int|
        #![trigger out[i], out[j]]
        0 <= i < j < out.len() implies dir_le(key, asc, out[i], out[j]) by {
        if j == out.len() - 1 {
            assert(out[i] == old_out[i]);
            assert(out[j] == xv);
        } else {
            assert(out[i] == old_out[i] && out[j] == old_out[j]);
        }
    }
    assert forall|i: int, j: int|
        #![trigger out[i], a[j]]
        0 <= i < out.len() && 0 <= j < a.len() implies dir_le(key, asc, out[i], a[j]) by {
        if i < out.len() - 1 {
            assert(out[i] == old_out[i]);
        }
    }
    assert forall|i: int, j: int|
        #![trigger out[i], b[j]]
        0 <= i < out.len() && 0 <= j < b.len() implies dir_le(key, asc, out[i], b[j]) by {
        if i < out.len() - 1 {
            assert(out[i] == old_out[i]);
        }
    }
}

/// Sorts entries under `key`, ascending or descending; the result holds the
/// same values the same number of times.
pub fn sort_entries(v: Vec<Entry>, key: SortKey, asc: bool) -> (r: Vec<Entry>)
    requires
        key == SortKey::Rank ==> pieces_nonempty(evs(v@)),
    ensures
        sorted_dir(key, evs(r@), asc),
        same_values(evs(r@), evs(v@)),
        key == SortKey::Rank ==> pieces_nonempty(evs(r@)),
    decreases v@.len(),
{
    let n = v.len();
    if n <= 1 {
        return v;
    }
    let ghost v0 = evs(v@);
    let mut left = v;
    let right = left.split_off(n / 2);
    proof {
        assert(v0 =~= evs(left@) + evs(right@));
        if key == SortKey::Rank {
            assert forall|i: int| 0 <= i < left@.len() implies (#[trigger] evs(left@)[i]).0.len()
                >= 1 by {
                assert(evs(left@)[i] == v0[i]);
            }
            assert forall|i: int| 0 <= i < right@.len() implies (#[trigger] evs(right@)[i]).0.len()
                >= 1 by {
                assert(evs(right@)[i] == v0[i + left@.len()]);
            }
        }
    }
    let a = sort_entries(left, key, !asc);
    let b = sort_entries(right, key, !asc);
    let r = merge(a, b, key, asc);
    proof {
        assert forall|x: (Seq<u8>, u64)| #[trigger] count_value(evs(r@), x) == count_value(v0, x)
            by {
            lemma_count_concat(evs(a@), evs(b@), x);
            lemma_count_concat(evs(left@), evs(right@), x);
        }
        if key == SortKey::Rank {
            assert forall|i: int| 0 <= i < r@.len() implies (#[trigger] evs(r@)[i]).0.len() >= 1
                by {
                lemma_count_at(evs(r@), i);
                let j = lemma_count_positive(v0, evs(r@)[i]);
            }
        }
    }
    r
}

} // verus!
