use vstd::prelude::*;
use crate::occurrences::ws_width;

verus! {

/// End of the line that starts at `i`: the next `\n`, or the end.
pub open spec fn line_end(b: Seq<u8>, i: int) -> int
    decreases b.len() - i,
{
    if i < 0 || i >= b.len() || b[i] == 0x0A {
        i
    } else {
        line_end(b, i + 1)
    }
}

pub proof fn lemma_line_end_bounds(b: Seq<u8>, i: int)
    requires
        0 <= i <= b.len(),
    ensures
        i <= line_end(b, i) <= b.len(),
        forall|j: int| i <= j < line_end(b, i) ==> b[j] != 0x0A,
        line_end(b, i) < b.len() ==> b[line_end(b, i)] == 0x0A,
    decreases b.len() - i,
{
    if i < b.len() && b[i] != 0x0A {
        lemma_line_end_bounds(b, i + 1);
    }
}

/// A line ending in `\r\n` loses its `\r`.
pub open spec fn strip_cr(l: Seq<u8>) -> Seq<u8> {
    if l.len() > 0 && l.last() == 0x0D {
        l.drop_last()
    } else {
        l
    }
}

/// The lines from position `i` on, as `str::lines` splits them: at each
/// `\n`, dropping a `\r` just before it, with no empty line after a final
/// `\n`.
pub open spec fn lines_from(b: Seq<u8>, i: int) -> Seq<Seq<u8>>
    decreases b.len() - i,
{
    if i < 0 || i >= b.len() {
        seq![]
    } else {
        let e = line_end(b, i);
        proof {
            lemma_line_end_bounds(b, i);
        }
        let l = b.subrange(i, e);
        if e < b.len() {
            seq![strip_cr(l)] + lines_from(b, e + 1)
        } else {
            seq![l]
        }
    }
}

/// The lines of a text.
pub open spec fn lines_of(b: Seq<u8>) -> Seq<Seq<u8>> {
    lines_from(b, 0)
}

/// The line is empty or holds only whitespace.
pub open spec fn is_blank(l: Seq<u8>) -> bool
    decreases l.len(),
{
    if l.len() == 0 {
        true
    } else if ws_width(l, 0) > 0 {
        is_blank(l.skip(ws_width(l, 0)))
    } else {
        false
    }
}

/// Line ends are found the same way after a prefix.
proof fn lemma_line_end_shift(a: Seq<u8>, c: Seq<u8>, k: int)
    requires
        0 <= k <= c.len(),
    ensures
        line_end(a + c, a.len() + k) == a.len() + line_end(c, k),
    decreases c.len() - k,
{
    let b = a + c;
    if k < c.len() {
        assert(b[a.len() + k] == c[k]);
        if c[k] != 0x0A {
            lemma_line_end_shift(a, c, k + 1);
        }
    }
}

/// The lines after a prefix are the lines of what follows it.
pub proof fn lemma_lines_shift(a: Seq<u8>, c: Seq<u8>, k: int)
    requires
        0 <= k,
    ensures
        lines_from(a + c, a.len() + k) == lines_from(c, k),
    decreases c.len() - k,
{
    let b = a + c;
    if k < c.len() {
        lemma_line_end_shift(a, c, k);
        lemma_line_end_bounds(c, k);
        let e = line_end(c, k);
        assert(b.subrange(a.len() + k, a.len() + e) =~= c.subrange(k, e));
        if e < c.len() {
            lemma_lines_shift(a, c, e + 1);
        }
    }
}

/// A line with no `\n` and no final `\r`, then `\n`, comes out as one line.
pub proof fn lemma_lines_cons(l: Seq<u8>, rest: Seq<u8>)
    requires
        forall|j: int| 0 <= j < l.len() ==> #[trigger] l[j] != 0x0A,
        l.len() == 0 || l.last() != 0x0D,
    ensures
        lines_of(l + seq![0x0Au8] + rest) == seq![l] + lines_of(rest),
{
    let head = l + seq![0x0Au8];
    let b = head + rest;
    assert forall|i: int| 0 <= i <= l.len() implies line_end(b, i) == l.len() by {
        lemma_line_end_run(b, i, l.len() as int);
    }
    assert(b.subrange(0, l.len() as int) =~= l);
    lemma_lines_shift(head, rest, 0);
    assert(head.len() + 0 == l.len() + 1);
}

proof fn lemma_line_end_run(b: Seq<u8>, i: int, m: int)
    requires
        0 <= i <= m < b.len(),
        b[m] == 0x0A,
        forall|j: int| i <= j < m ==> #[trigger] b[j] != 0x0A,
    ensures
        line_end(b, i) == m,
    decreases m - i,
{
    if i < m {
        lemma_line_end_run(b, i + 1, m);
    }
}

/// The empty text has no lines.
pub proof fn lemma_lines_empty()
    ensures
        lines_of(Seq::<u8>::empty()) == Seq::<Seq<u8>>::empty(),
{
}

/// The line that starts at `i`: where its content ends, and where the next
/// line starts.
pub fn line_at(b: &[u8], i: usize) -> (r: (usize, usize))
    requires
        i < b@.len(),
    ensures
        i <= r.0 <= b@.len(),
        i < r.1 <= b@.len(),
        lines_from(b@, i as int) == seq![b@.subrange(i as int, r.0 as int)] + lines_from(
            b@,
            r.1 as int,
        ),
{
    let n = b.len();
    let mut e: usize = i;
    proof {
        lemma_line_end_bounds(b@, i as int);
    }
    while e < n && b[e] != 0x0A
        invariant
            n == b@.len(),
            i <= e <= n,
            line_end(b@, e as int) == line_end(b@, i as int),
        decreases n - e,
    {
        e += 1;
    }
    let ghost l = b@.subrange(i as int, e as int);
    if e < n {
        let content = if e > i && b[e - 1] == 0x0D {
            e - 1
        } else {
            e
        };
        proof {
            assert(b@.subrange(i as int, content as int) =~= strip_cr(l));
        }
        (content, e + 1)
    } else {
        assert(lines_from(b@, n as int) == Seq::<Seq<u8>>::empty());
        (e, n)
    }
}

/// Whether the line holds only whitespace.
pub fn is_blank_exec(l: &[u8]) -> (r: bool)
    ensures
        r == is_blank(l@),
{
    let n = l.len();
    let mut i: usize = 0;
    assert(l@.skip(0) =~= l@);
    while i < n
        invariant
            n == l@.len(),
            0 <= i <= n,
            is_blank(l@) == is_blank(l@.skip(i as int)),
        decreases n - i,
    {
        let w = crate::occurrences::ws_width_exec(l, i);
        proof {
            let rest = l@.skip(i as int);
            assert(ws_width(rest, 0) == ws_width(l@, i as int)) by {
                assert(rest[0] == l@[i as int]);
                if i + 1 < n {
                    assert(rest[1] == l@[i + 1]);
                }
                if i + 2 < n {
                    assert(rest[2] == l@[i + 2]);
                }
            }
            if w > 0 {
                assert(rest.skip(w as int) =~= l@.skip(i + w));
            }
        }
        if w == 0 {
            return false;
        }
        i = i + w;
    }
    proof {
        assert(l@.skip(n as int).len() == 0);
    }
    true
}

} // verus!
