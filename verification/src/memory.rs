use vstd::prelude::*;
use vstd::utf8::*;
use vstd::string::StrSliceExecFns;
use vstd::string::StringSliceAdditionalSpecFns;
use vstd::string::StringExecFns;
use crate::lines::{line_at, lines_from, lines_of};

verus! {

/// What `str::to_lowercase` makes of a text (Unicode lower-case mapping).
pub uninterp spec fn lowercase(s: Seq<char>) -> Seq<char>;

/// Whether `char::is_alphanumeric` holds of a character (Unicode alphabetic
/// or numeric).
pub uninterp spec fn alphanumeric(c: char) -> bool;

/// Calls `str::to_lowercase`. Claimed: the result is the named lower-case
/// mapping of the text, which depends on the text alone. Which characters
/// change, and how, is left to the name.
#[verifier::external_body]
fn to_lowercase(s: &str) -> (r: String)
    ensures
        r@ == lowercase(s@),
{
    s.to_lowercase()
}

/// Calls `char::is_alphanumeric`. Claimed: the result is the named property
/// of the character; for an ASCII character it holds exactly of the letters
/// and digits, as std documents.
#[verifier::external_body]
fn is_alphanumeric(c: char) -> (r: bool)
    ensures
        r == alphanumeric(c),
        (c as u32) < 128 ==> (r <==> (('0' <= c && c <= '9') || ('a' <= c && c <= 'z') || ('A' <= c
            && c <= 'Z'))),
{
    c.is_alphanumeric()
}

/// Index of the first non-alphanumeric character at or after `i`, or the
/// length.
pub open spec fn next_sep(cs: Seq<char>, i: int) -> int
    decreases cs.len() - i,
{
    if i < 0 || i >= cs.len() || !alphanumeric(cs[i]) {
        i
    } else {
        next_sep(cs, i + 1)
    }
}

/// The pieces between non-alphanumeric characters, as `str::split` gives
/// them (empty pieces included).
pub open spec fn split_pieces(cs: Seq<char>) -> Seq<Seq<char>>
    decreases cs.len(),
{
    let k = next_sep(cs, 0);
    if k < 0 || k >= cs.len() {
        seq![cs]
    } else {
        seq![cs.take(k)] + split_pieces(cs.skip(k + 1))
    }
}

/// A piece of a lower-case text longer than two bytes.
pub open spec fn is_piece_word(lower: Seq<char>, w: Seq<char>) -> bool {
    split_pieces(lower).contains(w) && encode_utf8(w).len() > 2
}

/// A word of a text: a piece of its lower-case form longer than two bytes.
pub open spec fn is_word(text: Seq<char>, w: Seq<char>) -> bool {
    is_piece_word(lowercase(text), w)
}

/// The texts of a list of strings.
pub open spec fn texts(v: Seq<String>) -> Seq<Seq<char>> {
    v.map_values(|s: String| s@)
}

/// No text occurs twice.
pub open spec fn no_repeats(v: Seq<Seq<char>>) -> bool {
    forall|a: int, b: int| 0 <= a < b < v.len() ==> v[a] != v[b]
}

proof fn lemma_next_sep_bounds(cs: Seq<char>, i: int)
    requires
        0 <= i <= cs.len(),
    ensures
        i <= next_sep(cs, i) <= cs.len(),
        next_sep(cs, i) < cs.len() ==> !alphanumeric(cs[next_sep(cs, i)]),
    decreases cs.len() - i,
{
    if i < cs.len() && alphanumeric(cs[i]) {
        lemma_next_sep_bounds(cs, i + 1);
    }
}

/// The characters of a text, in order.
fn chars_of(s: &str) -> (v: Vec<char>)
    ensures
        v@ == s@,
{
    let n = s.unicode_len();
    let mut v: Vec<char> = Vec::new();
    let mut i: usize = 0;
    while i < n
        invariant
            n == s@.len(),
            i <= n,
            v@ == s@.take(i as int),
        decreases n - i,
    {
        v.push(s.get_char(i));
        i += 1;
        assert(v@ =~= s@.take(i as int));
    }
    assert(s@.take(n as int) =~= s@);
    v
}

/// Whether `w` is among the texts of `v`.
fn contains_text(v: &Vec<String>, w: &str) -> (r: bool)
    ensures
        r == texts(v@).contains(w@),
{
    let n = v.len();
    let mut i: usize = 0;
    while i < n
        invariant
            n == v@.len(),
            i <= n,
            forall|j: int| 0 <= j < i ==> texts(v@)[j] != w@,
        decreases n - i,
    {
        if crate::args::str_eq(v[i].as_str(), w) {
            assert(texts(v@)[i as int] == w@);
            return true;
        }
        i += 1;
    }
    false
}

proof fn lemma_add_new(before: Seq<Seq<char>>, seen: Seq<Seq<char>>, p: Seq<char>)
    requires
        forall|w: Seq<char>| before.contains(w) <==> (seen.contains(w) && encode_utf8(w).len() > 2),
        encode_utf8(p).len() > 2,
    ensures
        forall|w: Seq<char>|
            before.push(p).contains(w) <==> (seen.push(p).contains(w) && encode_utf8(w).len() > 2),
{
    assert forall|w: Seq<char>|
        before.push(p).contains(w) <==> (seen.push(p).contains(w) && encode_utf8(w).len()
            > 2) by {
        if before.push(p).contains(w) {
            let j = choose|j: int| 0 <= j < before.push(p).len() && before.push(p)[j] == w;
            if j < before.len() {
                assert(before[j] == w);
                assert(before.contains(w));
                assert(seen.contains(w));
                let q = choose|q: int| 0 <= q < seen.len() && seen[q] == w;
                assert(seen.push(p)[q] == w);
            } else {
                assert(seen.push(p)[seen.len() as int] == w);
            }
        }
        if seen.push(p).contains(w) && encode_utf8(w).len() > 2 {
            let q = choose|q: int| 0 <= q < seen.push(p).len() && seen.push(p)[q] == w;
            if q < seen.len() {
                assert(seen[q] == w);
                assert(seen.contains(w));
                assert(before.contains(w));
                let j = choose|j: int| 0 <= j < before.len() && before[j] == w;
                assert(before.push(p)[j] == w);
            } else {
                assert(before.push(p)[before.len() as int] == w);
            }
        }
    }
}

proof fn lemma_add_none(before: Seq<Seq<char>>, seen: Seq<Seq<char>>, p: Seq<char>)
    requires
        forall|w: Seq<char>| before.contains(w) <==> (seen.contains(w) && encode_utf8(w).len() > 2),
        encode_utf8(p).len() <= 2 || before.contains(p),
    ensures
        forall|w: Seq<char>|
            before.contains(w) <==> (seen.push(p).contains(w) && encode_utf8(w).len() > 2),
{
    assert forall|w: Seq<char>|
        before.contains(w) <==> (seen.push(p).contains(w) && encode_utf8(w).len() > 2) by {
        if before.contains(w) {
            assert(seen.contains(w));
            let q = choose|q: int| 0 <= q < seen.len() && seen[q] == w;
            assert(seen.push(p)[q] == w);
        }
        if seen.push(p).contains(w) && encode_utf8(w).len() > 2 {
            let q = choose|q: int| 0 <= q < seen.push(p).len() && seen.push(p)[q] == w;
            if q < seen.len() {
                assert(seen[q] == w);
                assert(seen.contains(w));
            } else {
                assert(w == p);
            }
        }
    }
}

/// Adds a piece to the word list when it is longer than two bytes and not
/// there yet.
fn add_piece(words: &mut Vec<String>, piece: &str, Ghost(seen): Ghost<Seq<Seq<char>>>)
    requires
        no_repeats(texts(old(words)@)),
        forall|w: Seq<char>|
            texts(old(words)@).contains(w) <==> (seen.contains(w) && encode_utf8(w).len() > 2),
    ensures
        no_repeats(texts(final(words)@)),
        forall|w: Seq<char>|
            texts(final(words)@).contains(w) <==> (seen.push(piece@).contains(w) && encode_utf8(
                w,
            ).len() > 2),
{
    let ghost p = piece@;
    let ghost before = texts(words@);
    let long = piece.as_bytes().len() > 2;
    let present = if long {
        contains_text(words, piece)
    } else {
        false
    };
    assert(piece.spec_bytes() == encode_utf8(p));
    assert(long == (encode_utf8(p).len() > 2));
    if long && !present {
        words.push(piece.to_owned());
        proof {
            assert(texts(words@) =~= before.push(p));
            lemma_add_new(before, seen, p);
            assert forall|a: int, b: int|
                0 <= a < b < texts(words@).len() implies texts(words@)[a] != texts(words@)[b] by {
                if b == before.len() {
                    assert(texts(words@)[a] == before[a]);
                    if before[a] == p {
                        assert(before.contains(p));
                    }
                }
            }
        }
    } else {
        proof {
            lemma_add_none(before, seen, p);
        }
    }
}

/// The distinct words of a text: its lower-case form split at every
/// non-alphanumeric character, keeping the pieces longer than two bytes.
pub fn tokenize(s: &str) -> (words: Vec<String>)
    ensures
        no_repeats(texts(words@)),
        forall|w: Seq<char>| texts(words@).contains(w) <==> is_word(s@, w),
{
    let lower = to_lowercase(s);
    split_words(lower.as_str())
}

/// The distinct pieces of an already lower-cased text, split at every
/// non-alphanumeric character, that are longer than two bytes.
pub fn split_words(lower: &str) -> (words: Vec<String>)
    ensures
        no_repeats(texts(words@)),
        forall|w: Seq<char>| texts(words@).contains(w) <==> is_piece_word(lower@, w),
{
    let cs = chars_of(lower);
    let ghost l = lower@;
    let n = cs.len();
    let mut words: Vec<String> = Vec::new();
    let mut start: usize = 0;
    let mut i: usize = 0;
    let ghost mut seen: Seq<Seq<char>> = seq![];
    assert(l.skip(0) =~= l);
    while i < n
        invariant
            n == cs@.len(),
            cs@ == l,
            lower@ == l,
            start <= i <= n,
            forall|j: int| start <= j < i ==> alphanumeric(#[trigger] l[j]),
            split_pieces(l) == seen + split_pieces(l.skip(start as int)),
            no_repeats(texts(words@)),
            forall|w: Seq<char>|
                texts(words@).contains(w) <==> (seen.contains(w) && encode_utf8(w).len() > 2),
        decreases n - i,
    {
        if !is_alphanumeric(cs[i]) {
            let piece = lower.substring_char(start, i);
            let ghost p = l.subrange(start as int, i as int);
            let ghost rest = l.skip(start as int);
            proof {
                let k = i - start;
                assert forall|j: int| 0 <= j < k implies alphanumeric(#[trigger] rest[j]) by {
                    assert(rest[j] == l[start + j]);
                }
                assert(rest[k] == l[i as int]);
                lemma_next_sep_run(rest, 0, k);
                assert(rest.take(k) =~= p);
                assert(rest.skip(k + 1) =~= l.skip(i + 1));
                assert(seen + split_pieces(rest) =~= seen.push(p) + split_pieces(l.skip(i + 1)));
            }
            add_piece(&mut words, piece, Ghost(seen));
            proof {
                seen = seen.push(p);
            }
            start = i + 1;
        } else {
            proof {
                assert(alphanumeric(l[i as int]));
            }
        }
        i += 1;
    }
    let piece = lower.substring_char(start, n);
    let ghost p = l.subrange(start as int, n as int);
    let ghost rest = l.skip(start as int);
    proof {
        let k = n - start;
        assert forall|j: int| 0 <= j < k implies alphanumeric(#[trigger] rest[j]) by {
            assert(rest[j] == l[start + j]);
        }
        lemma_next_sep_run(rest, 0, k);
        assert(rest =~= p);
        assert(seen + split_pieces(rest) =~= seen.push(p));
    }
    add_piece(&mut words, piece, Ghost(seen));
    words
}

proof fn lemma_next_sep_run(cs: Seq<char>, i: int, k: int)
    requires
        0 <= i <= k <= cs.len(),
        forall|j: int| i <= j < k ==> alphanumeric(#[trigger] cs[j]),
        k < cs.len() ==> !alphanumeric(cs[k]),
    ensures
        next_sep(cs, i) == k,
    decreases k - i,
{
    if i < k {
        lemma_next_sep_run(cs, i + 1, k);
    }
}

/// The words of a text, as a set.
pub open spec fn word_set(t: Seq<char>) -> Set<Seq<char>> {
    Set::new(|w: Seq<char>| is_word(t, w))
}

proof fn lemma_word_set(t: Seq<char>, v: Seq<Seq<char>>)
    requires
        no_repeats(v),
        forall|w: Seq<char>| v.contains(w) <==> is_word(t, w),
    ensures
        v.to_set() == word_set(t),
        word_set(t).finite(),
        word_set(t).len() == v.len(),
{
    assert(v.to_set() =~= word_set(t));
    assert(v.no_duplicates());
    v.unique_seq_to_set();
}

proof fn lemma_common_step(
    va: Seq<Seq<char>>,
    vb: Seq<Seq<char>>,
    common: Seq<Seq<char>>,
    i: int,
    found: bool,
) -> (c2: Seq<Seq<char>>)
    requires
        0 <= i < va.len(),
        found == vb.contains(va[i]),
        forall|x: Seq<char>| common.contains(x) <==> (va.take(i).contains(x) && vb.contains(x)),
    ensures
        c2 == (if found {
            common.push(va[i])
        } else {
            common
        }),
        forall|x: Seq<char>| c2.contains(x) <==> (va.take(i + 1).contains(x) && vb.contains(x)),
{
    let t1 = va.take(i + 1);
    assert(t1 =~= va.take(i).push(va[i]));
    let c2 = if found {
        common.push(va[i])
    } else {
        common
    };
    assert forall|x: Seq<char>| c2.contains(x) <==> (t1.contains(x) && vb.contains(x)) by {
        if t1.contains(x) {
            let j = choose|j: int| 0 <= j < t1.len() && t1[j] == x;
            if j < i {
                assert(va.take(i)[j] == x);
            }
        }
        if va.take(i).contains(x) {
            let j = choose|j: int| 0 <= j < i && va.take(i)[j] == x;
            assert(t1[j] == x);
        }
        assert(t1[i] == va[i]);
        if found {
            assert(c2[common.len() as int] == va[i]);
            if c2.contains(x) {
                let j = choose|j: int| 0 <= j < c2.len() && c2[j] == x;
                if j < common.len() {
                    assert(common[j] == x);
                }
            }
            if common.contains(x) {
                let j = choose|j: int| 0 <= j < common.len() && common[j] == x;
                assert(c2[j] == x);
            }
        }
    }
    c2
}

/// How many words two texts share, and how many words they have between
/// them (saturating at `usize::MAX`).
pub fn word_overlap(a: &str, b: &str) -> (r: (usize, usize))
    ensures
        r.0 == word_set(a@).intersect(word_set(b@)).len(),
        r.1 == if word_set(a@).union(word_set(b@)).len() <= usize::MAX {
            word_set(a@).union(word_set(b@)).len()
        } else {
            usize::MAX as nat
        },
{
    let wa = tokenize(a);
    let wb = tokenize(b);
    let ghost va = texts(wa@);
    let ghost vb = texts(wb@);
    proof {
        lemma_word_set(a@, va);
        lemma_word_set(b@, vb);
    }
    let n = wa.len();
    let mut inter: usize = 0;
    let mut i: usize = 0;
    let ghost mut common: Seq<Seq<char>> = seq![];
    while i < n
        invariant
            n == wa@.len(),
            va == texts(wa@),
            vb == texts(wb@),
            i <= n,
            inter == common.len(),
            inter <= i,
            no_repeats(va),
            common.no_duplicates(),
            forall|w: Seq<char>|
                common.contains(w) <==> (va.take(i as int).contains(w) && vb.contains(w)),
        decreases n - i,
    {
        let ghost w = va[i as int];
        assert(va[i as int] == wa@[i as int]@);
        let found = contains_text(&wb, wa[i].as_str());
        proof {
            if found {
                assert(!common.contains(w)) by {
                    if common.contains(w) {
                        let j = choose|j: int| 0 <= j < i && va.take(i as int)[j] == w;
                        assert(va[j] == va[i as int]);
                    }
                }
            }
            common = lemma_common_step(va, vb, common, i as int, found);
        }
        if found {
            inter += 1;
        }
        i += 1;
    }
    proof {
        assert(va.take(n as int) =~= va);
        assert(common.to_set() =~= word_set(a@).intersect(word_set(b@)));
        common.unique_seq_to_set();
        vstd::set_lib::lemma_set_intersect_union_lens(word_set(a@), word_set(b@));
        vstd::set_lib::lemma_len_intersect(word_set(b@), word_set(a@));
        assert(word_set(b@).intersect(word_set(a@)) =~= word_set(a@).intersect(word_set(b@)));
        assert(word_set(a@) + word_set(b@) == word_set(a@).union(word_set(b@)));
    }
    let only_b = wb.len() - inter;
    let union = n.saturating_add(only_b);
    (inter, union)
}

/// A text in the shape of a random UUID as `Uuid::to_string` writes it:
/// 36 characters, hyphens at 8, 13, 18 and 23, lower-case hex digits
/// elsewhere, version digit `4`, variant digit one of `8`, `9`, `a`, `b`.
pub open spec fn is_uuid_v4_text(s: Seq<char>) -> bool {
    &&& s.len() == 36
    &&& forall|i: int|
        0 <= i < 36 ==> if i == 8 || i == 13 || i == 18 || i == 23 {
            #[trigger] s[i] == '-'
        } else {
            ('0' <= s[i] && s[i] <= '9') || ('a' <= s[i] && s[i] <= 'f')
        }
    &&& s[14] == '4'
    &&& (s[19] == '8' || s[19] == '9' || s[19] == 'a' || s[19] == 'b')
}

/// Calls `uuid::Uuid::new_v4` and formats the result with `to_string`.
/// Claimed: the text has the shape of a version 4 UUID in lower-case
/// hyphenated form (the crate sets the version and variant bits and formats
/// with lower-case hex). The other digits are random and nothing is said of
/// them; the call panics when the system's random source fails.
#[verifier::external_body]
fn new_uuid_text() -> (s: String)
    ensures
        is_uuid_v4_text(s@),
{
    uuid::Uuid::new_v4().to_string()
}

/// The id an experience is stored under: its own, or a fresh random UUID
/// when it has none.
pub fn assign_id(id: String) -> (r: String)
    ensures
        id@.len() > 0 ==> r@ == id@,
        id@.len() == 0 ==> is_uuid_v4_text(r@),
{
    if id.as_str().is_empty() {
        new_uuid_text()
    } else {
        id
    }
}

/// Name of the journal file inside the memory directory.
pub open spec fn journal_name() -> Seq<char> {
    "experiences.jsonl"@
}

/// `dir` joined with a relative `name` as `Path::join` does on Unix: a `/`
/// between them unless `dir` is empty or already ends with one.
pub open spec fn joined(dir: Seq<char>, name: Seq<char>) -> Seq<char> {
    if dir.len() == 0 || dir.last() == '/' {
        dir + name
    } else {
        dir + seq!['/'] + name
    }
}

/// The number of lines of a text, as `BufRead::lines` counts them.
pub fn count_lines(b: &[u8]) -> (r: usize)
    ensures
        r == lines_of(b@).len(),
{
    let n = b.len();
    let mut count: usize = 0;
    let mut i: usize = 0;
    while i < n
        invariant
            n == b@.len(),
            i <= n,
            count <= i,
            lines_of(b@).len() == count + lines_from(b@, i as int).len(),
        decreases n - i,
    {
        let (_c, nx) = line_at(b, i);
        count += 1;
        i = nx;
    }
    assert(lines_from(b@, i as int).len() == 0);
    count
}

/// A store of past experiences kept as one JSON line each in a journal file.
pub struct MemoryEngine {
    path: String,
}

impl MemoryEngine {
    /// The engine for the memory directory `dir`; its journal lies in it.
    pub fn at_dir(dir: &str) -> (e: Self)
        ensures
            e.journal()@ == joined(dir@, journal_name()),
    {
        let name = "experiences.jsonl";
        let mut path = String::from_str(dir);
        let n = dir.unicode_len();
        if n > 0 && dir.get_char(n - 1) != '/' {
            path.append("/");
        }
        path.append(name);
        proof {
            reveal_strlit("/");
        }
        assert(path@ =~= joined(dir@, journal_name()));
        MemoryEngine { path }
    }

    pub closed spec fn journal(&self) -> String {
        self.path
    }

    /// Where the journal lies.
    pub fn path(&self) -> (p: &str)
        ensures
            p@ == self.journal()@,
    {
        self.path.as_str()
    }
}

} // verus!
