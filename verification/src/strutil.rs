//! Verified building blocks for text handling: character-sequence order,
//! equality, search, splitting into lines, joining lines, decimal rendering
//! and the FNV-1a digest used to name cache entries.

use vstd::prelude::*;

verus! {

use vstd::string::StringSliceAdditionalSpecFns;

// ---------------------------------------------------------------------------
// Lexicographic order on character sequences (by code point).
// ---------------------------------------------------------------------------

/// Strict lexicographic order on character sequences, comparing code points.
pub open spec fn lex_lt(a: Seq<char>, b: Seq<char>) -> bool
    decreases a.len(),
{
    if b.len() == 0 {
        false
    } else if a.len() == 0 {
        true
    } else if a[0] == b[0] {
        lex_lt(a.drop_first(), b.drop_first())
    } else {
        (a[0] as u32) < (b[0] as u32)
    }
}

/// A sequence is determined by its head and its tail.
pub proof fn lemma_eq_head_tail(a: Seq<char>, b: Seq<char>)
    requires
        a.len() > 0,
        b.len() > 0,
        a[0] == b[0],
        a.drop_first() == b.drop_first(),
    ensures
        a == b,
{
    assert(a =~= seq![a[0]] + a.drop_first());
    assert(b =~= seq![b[0]] + b.drop_first());
}

pub proof fn lemma_lex_lt_irreflexive(a: Seq<char>)
    ensures
        !lex_lt(a, a),
    decreases a.len(),
{
    if a.len() > 0 {
        lemma_lex_lt_irreflexive(a.drop_first());
    }
}

pub proof fn lemma_lex_lt_connected(a: Seq<char>, b: Seq<char>)
    ensures
        lex_lt(a, b) || lex_lt(b, a) || a == b,
    decreases a.len(),
{
    if a.len() == 0 {
        if b.len() == 0 {
            assert(a =~= b);
        }
    } else if b.len() > 0 {
        if a[0] == b[0] {
            lemma_lex_lt_connected(a.drop_first(), b.drop_first());
            if a.drop_first() == b.drop_first() {
                lemma_eq_head_tail(a, b);
            }
        } else {
            vstd::utf8::char_u32_cast(a[0], a[0] as u32);
            vstd::utf8::char_u32_cast(b[0], b[0] as u32);
            assert((a[0] as u32) != (b[0] as u32));
        }
    }
}

pub proof fn lemma_lex_lt_transitive(a: Seq<char>, b: Seq<char>, c: Seq<char>)
    requires
        lex_lt(a, b),
        lex_lt(b, c),
    ensures
        lex_lt(a, c),
    decreases a.len(),
{
    if a.len() > 0 && b.len() > 0 && c.len() > 0 {
        if a[0] == b[0] && b[0] == c[0] {
            lemma_lex_lt_transitive(a.drop_first(), b.drop_first(), c.drop_first());
        }
    }
}

/// Exact mirror of `lex_lt` on string slices.
pub fn str_lt(a: &str, b: &str) -> (r: bool)
    ensures
        r == lex_lt(a@, b@),
    decreases a@.len(),
{
    let an = a.unicode_len();
    let bn = b.unicode_len();
    if bn == 0 {
        false
    } else if an == 0 {
        true
    } else {
        let ca = a.get_char(0);
        let cb = b.get_char(0);
        if ca == cb {
            let ra = a.substring_char(1, an);
            let rb = b.substring_char(1, bn);
            proof {
                assert(ra@ =~= a@.drop_first());
                assert(rb@ =~= b@.drop_first());
            }
            str_lt(ra, rb)
        } else {
            (ca as u32) < (cb as u32)
        }
    }
}

/// Character-for-character equality of string slices.
pub fn str_eq(a: &str, b: &str) -> (r: bool)
    ensures
        r == (a@ == b@),
    decreases a@.len(),
{
    let an = a.unicode_len();
    let bn = b.unicode_len();
    if an != bn {
        proof {
            assert(a@ != b@);
        }
        false
    } else if an == 0 {
        proof {
            assert(a@ =~= b@);
        }
        true
    } else {
        let ca = a.get_char(0);
        let cb = b.get_char(0);
        if ca != cb {
            proof {
                assert(a@[0] != b@[0]);
            }
            false
        } else {
            let ra = a.substring_char(1, an);
            let rb = b.substring_char(1, bn);
            proof {
                assert(ra@ =~= a@.drop_first());
                assert(rb@ =~= b@.drop_first());
            }
            let r = str_eq(ra, rb);
            proof {
                if ra@ == rb@ {
                    lemma_eq_head_tail(a@, b@);
                } else {
                    assert(a@ != b@);
                }
            }
            r
        }
    }
}

// ---------------------------------------------------------------------------
// Prefix and substring search.
// ---------------------------------------------------------------------------

/// Whether `needle` occurs as a contiguous run inside `hay`.
pub open spec fn contains_seq(hay: Seq<char>, needle: Seq<char>) -> bool {
    exists|i: int|
        0 <= i && i + needle.len() <= hay.len() && #[trigger] hay.subrange(i, i + needle.len())
            == needle
}

/// Substring search, the exact counterpart of `contains_seq`.
pub fn str_contains(hay: &str, needle: &str) -> (r: bool)
    ensures
        r == contains_seq(hay@, needle@),
{
    let hn = hay.unicode_len();
    let nn = needle.unicode_len();
    if nn > hn {
        proof {
            assert(!contains_seq(hay@, needle@));
        }
        return false;
    }
    if nn == 0 {
        proof {
            assert(hay@.subrange(0, 0 + needle@.len() as int) =~= needle@);
            assert(contains_seq(hay@, needle@));
        }
        return true;
    }
    let mut i: usize = 0;
    while i <= hn - nn
        invariant
            nn == needle@.len(),
            hn == hay@.len(),
            0 < nn <= hn,
            i <= hn - nn + 1,
            forall|j: int|
                0 <= j < i ==> #[trigger] hay@.subrange(j, j + needle@.len() as int) != needle@,
        decreases hn - nn + 1 - i,
    {
        let window = hay.substring_char(i, i + nn);
        if str_eq(window, needle) {
            proof {
                assert(hay@.subrange(i as int, i + needle@.len() as int) == needle@);
            }
            return true;
        }
        i = i + 1;
    }
    proof {
        assert forall|j: int| 0 <= j && j + needle@.len() <= hay@.len() implies #[trigger] hay@
            .subrange(j, j + needle@.len() as int) != needle@ by {
            assert(j < i);
        }
    }
    false
}

// ---------------------------------------------------------------------------
// Splitting on a separator character; lines of a text.
// ---------------------------------------------------------------------------

/// Index of the first occurrence of `c` in `s`, or -1 when absent.
pub open spec fn find_char(s: Seq<char>, c: char) -> int
    decreases s.len(),
{
    if s.len() == 0 {
        -1
    } else if s[0] == c {
        0
    } else {
        let r = find_char(s.drop_first(), c);
        if r < 0 {
            -1
        } else {
            r + 1
        }
    }
}

pub proof fn lemma_find_char(s: Seq<char>, c: char)
    ensures
        -1 <= find_char(s, c) < s.len(),
        find_char(s, c) == -1 <==> (forall|i: int| 0 <= i < s.len() ==> s[i] != c),
        find_char(s, c) >= 0 ==> s[find_char(s, c)] == c && (forall|i: int|
            0 <= i < find_char(s, c) ==> s[i] != c),
    decreases s.len(),
{
    if s.len() > 0 {
        lemma_find_char(s.drop_first(), c);
        if s[0] != c {
            let r = find_char(s.drop_first(), c);
            if r == -1 {
                assert forall|i: int| 0 <= i < s.len() implies s[i] != c by {
                    if i > 0 {
                        assert(s.drop_first()[i - 1] != c);
                    }
                }
            } else {
                assert(s[r + 1] == s.drop_first()[r]);
                assert forall|i: int| 0 <= i < r + 1 implies s[i] != c by {
                    if i > 0 {
                        assert(s.drop_first()[i - 1] != c);
                    }
                }
            }
        }
    }
}

/// The pieces of `s` between occurrences of `sep`; mirrors how `str::split`
/// behaves on a single-character pattern.
pub open spec fn spec_split(s: Seq<char>, sep: char) -> Seq<Seq<char>>
    decreases s.len(),
{
    let i = find_char(s, sep);
    if i < 0 {
        seq![s]
    } else if i + 1 <= s.len() {
        seq![s.take(i)] + spec_split(s.skip(i + 1), sep)
    } else {
        seq![s]
    }
}

/// Finds the first occurrence of `c` in `s`, the exact counterpart of
/// `find_char`.
pub fn find_char_in(s: &str, c: char) -> (r: Option<usize>)
    ensures
        match r {
            Some(i) => find_char(s@, c) == i as int,
            None => find_char(s@, c) == -1,
        },
{
    proof {
        lemma_find_char(s@, c);
    }
    let n = s.unicode_len();
    let mut i: usize = 0;
    while i < n
        invariant
            n == s@.len(),
            i <= n,
            forall|j: int| 0 <= j < i ==> s@[j] != c,
        decreases n - i,
    {
        if s.get_char(i) == c {
            proof {
                lemma_find_char(s@, c);
                let f = find_char(s@, c);
                if f == -1 {
                    assert(s@[i as int] != c);
                }
                if f < i as int {
                    assert(s@[f] == c);
                }
                if f > i as int {
                    assert(s@[i as int] != c);
                }
            }
            return Some(i);
        }
        i = i + 1;
    }
    None
}

/// Exact mirror of `spec_split`.
pub fn split_on_char(s: &str, sep: char) -> (r: Vec<String>)
    ensures
        r.deep_view() == spec_split(s@, sep),
    decreases s@.len(),
{
    proof {
        lemma_find_char(s@, sep);
    }
    let n = s.unicode_len();
    let found = find_char_in(s, sep);
    if found.is_none() {
        let mut r: Vec<String> = Vec::new();
        r.push(s.to_owned());
        proof {
            assert(r.deep_view() =~~= spec_split(s@, sep));
        }
        r
    } else {
        let i = found.unwrap();
        let head = s.substring_char(0, i).to_owned();
        let tail = s.substring_char(i + 1, n);
        proof {
            assert(head@ =~= s@.take(i as int));
            assert(tail@ =~= s@.skip(i as int + 1));
        }
        let rest = split_on_char(tail, sep);
        let ghost rest_view = rest.deep_view();
        let mut r = rest;
        r.insert(0, head);
        proof {
            let lhs = r.deep_view();
            let rhs = seq![s@.take(i as int)] + spec_split(s@.skip(i as int + 1), sep);
            assert(lhs.len() == rhs.len());
            assert forall|m: int| 0 <= m < lhs.len() implies lhs[m] == rhs[m] by {
                if m == 0 {
                    assert(r@[0]@ == s@.take(i as int));
                } else {
                    assert(r@[m]@ == rest_view[m - 1]);
                }
            }
            assert(lhs =~~= rhs);
            assert(spec_split(s@, sep) == rhs);
        }
        r
    }
}

/// A line with one trailing carriage return removed, as `str::lines` does.
pub open spec fn strip_cr(l: Seq<char>) -> Seq<char> {
    if l.len() > 0 && l.last() == '\r' {
        l.drop_last()
    } else {
        l
    }
}

/// The lines of a text: pieces between newlines, without a final empty piece
/// for a trailing newline, each stripped of one trailing carriage return.
pub open spec fn spec_lines(s: Seq<char>) -> Seq<Seq<char>> {
    if s.len() == 0 {
        Seq::empty()
    } else if s.last() == '\n' {
        spec_split(s.drop_last(), '\n').map_values(|l: Seq<char>| strip_cr(l))
    } else {
        spec_split(s, '\n').map_values(|l: Seq<char>| strip_cr(l))
    }
}

/// Exact mirror of `spec_lines`.
pub fn lines_of(s: &str) -> (r: Vec<String>)
    ensures
        r.deep_view() == spec_lines(s@),
{
    let n = s.unicode_len();
    if n == 0 {
        let r: Vec<String> = Vec::new();
        proof {
            assert(r.deep_view() =~~= spec_lines(s@));
        }
        return r;
    }
    let body = if s.get_char(n - 1) == '\n' {
        let t = s.substring_char(0, n - 1);
        proof {
            assert(t@ =~= s@.drop_last());
        }
        t
    } else {
        s
    };
    let raw = split_on_char(body, '\n');
    let mut r: Vec<String> = Vec::new();
    let ghost raw_view = raw.deep_view();
    let mut k: usize = 0;
    while k < raw.len()
        invariant
            k <= raw.len(),
            raw.deep_view() == raw_view,
            r@.len() == k,
            forall|m: int| 0 <= m < k ==> (#[trigger] r@[m])@ == strip_cr(raw_view[m]),
        decreases raw.len() - k,
    {
        let piece = &raw[k];
        proof {
            assert(piece@ == raw_view[k as int]);
        }
        let pn = piece.as_str().unicode_len();
        let stripped = if pn > 0 && piece.as_str().get_char(pn - 1) == '\r' {
            let t = piece.as_str().substring_char(0, pn - 1).to_owned();
            proof {
                assert(t@ =~= raw_view[k as int].drop_last());
            }
            t
        } else {
            piece.clone()
        };
        proof {
            assert(stripped@ == strip_cr(raw_view[k as int]));
        }
        r.push(stripped);
        k = k + 1;
    }
    proof {
        let lhs = r.deep_view();
        let rhs = raw_view.map_values(|l: Seq<char>| strip_cr(l));
        assert(lhs.len() == rhs.len());
        assert forall|m: int| 0 <= m < lhs.len() implies lhs[m] == rhs[m] by {
            assert((r@[m])@ == strip_cr(raw_view[m]));
        }
        assert(lhs =~~= rhs);
        assert(r.deep_view() == spec_lines(s@));
    }
    r
}

// ---------------------------------------------------------------------------
// Joining lines back into a text.
// ---------------------------------------------------------------------------

/// The concatenation of the given lines, each terminated by a newline.
pub open spec fn spec_unlines(ls: Seq<Seq<char>>) -> Seq<char>
    decreases ls.len(),
{
    if ls.len() == 0 {
        Seq::empty()
    } else {
        ls[0] + seq!['\n'] + spec_unlines(ls.drop_first())
    }
}

pub proof fn lemma_unlines_push(ls: Seq<Seq<char>>, x: Seq<char>)
    ensures
        spec_unlines(ls.push(x)) == spec_unlines(ls) + x + seq!['\n'],
    decreases ls.len(),
{
    if ls.len() == 0 {
        assert(ls.push(x).drop_first() =~~= Seq::<Seq<char>>::empty());
        assert(ls.push(x)[0] == x);
        assert(spec_unlines(Seq::<Seq<char>>::empty()) == Seq::<char>::empty());
        assert(spec_unlines(ls.push(x)) =~= x + seq!['\n'] + Seq::<char>::empty());
        assert(spec_unlines(ls.push(x)) =~= spec_unlines(ls) + x + seq!['\n']);
    } else {
        assert(ls.push(x).drop_first() =~~= ls.drop_first().push(x));
        lemma_unlines_push(ls.drop_first(), x);
        assert(ls.push(x)[0] == ls[0]);
        assert(spec_unlines(ls.push(x)) =~= spec_unlines(ls) + x + seq!['\n']);
    }
}

/// Exact mirror of `spec_unlines`.
pub fn unlines(ls: &Vec<String>) -> (r: String)
    ensures
        r@ == spec_unlines(ls.deep_view()),
{
    let mut r = String::new();
    let mut k: usize = 0;
    let ghost view = ls.deep_view();
    while k < ls.len()
        invariant
            k <= ls.len(),
            ls.deep_view() == view,
            r@ == spec_unlines(view.take(k as int)),
        decreases ls.len() - k,
    {
        r.append(ls[k].as_str());
        r.append("\n");
        proof {
            reveal_strlit("\n");
            assert(view.take(k as int).push(view[k as int]) =~= view.take(k as int + 1));
            lemma_unlines_push(view.take(k as int), view[k as int]);
            assert(r@ =~= spec_unlines(view.take(k as int + 1)));
        }
        k = k + 1;
    }
    proof {
        assert(view.take(view.len() as int) =~= view);
    }
    r
}

// ---------------------------------------------------------------------------
// Decimal rendering of a 64-bit value.
// ---------------------------------------------------------------------------

/// The decimal digit character for a value below ten.
pub open spec fn spec_digit(d: int) -> char {
    if d == 0 {
        '0'
    } else if d == 1 {
        '1'
    } else if d == 2 {
        '2'
    } else if d == 3 {
        '3'
    } else if d == 4 {
        '4'
    } else if d == 5 {
        '5'
    } else if d == 6 {
        '6'
    } else if d == 7 {
        '7'
    } else if d == 8 {
        '8'
    } else {
        '9'
    }
}

/// The decimal rendering of a non-negative value, most significant digit
/// first, without leading zeros (except for zero itself).
pub open spec fn spec_dec(n: int) -> Seq<char>
    decreases n,
{
    if n < 10 {
        seq![spec_digit(n)]
    } else {
        spec_dec(n / 10).push(spec_digit(n % 10))
    }
}

fn digit_str(d: u64) -> (r: &'static str)
    requires
        d < 10,
    ensures
        r@ =~= seq![spec_digit(d as int)],
{
    proof {
        reveal_strlit("0");
        reveal_strlit("1");
        reveal_strlit("2");
        reveal_strlit("3");
        reveal_strlit("4");
        reveal_strlit("5");
        reveal_strlit("6");
        reveal_strlit("7");
        reveal_strlit("8");
        reveal_strlit("9");
    }
    match d {
        0 => "0",
        1 => "1",
        2 => "2",
        3 => "3",
        4 => "4",
        5 => "5",
        6 => "6",
        7 => "7",
        8 => "8",
        _ => "9",
    }
}

/// Exact mirror of `spec_dec`.
pub fn u64_to_dec(n: u64) -> (r: String)
    ensures
        r@ == spec_dec(n as int),
    decreases n,
{
    if n < 10 {
        digit_str(n).to_owned()
    } else {
        let mut s = u64_to_dec(n / 10);
        s.append(digit_str(n % 10));
        proof {
            assert(s@ =~= spec_dec(n as int));
        }
        s
    }
}

// ---------------------------------------------------------------------------
// FNV-1a digest over the bytes of a text, used to name cache entries.
// ---------------------------------------------------------------------------

/// The 64-bit FNV-1a offset basis.
pub open spec fn fnv_offset() -> u64 {
    0xcbf29ce484222325u64
}

/// One FNV-1a round: fold a byte into the running digest.
pub open spec fn fnv_step(h: u64, b: u8) -> u64 {
    ((((h ^ (b as u64)) as int) * 0x100000001b3) % 0x10000000000000000) as u64
}

/// The 64-bit FNV-1a digest of a byte sequence.
pub open spec fn spec_fnv1a(bytes: Seq<u8>) -> u64
    decreases bytes.len(),
{
    if bytes.len() == 0 {
        fnv_offset()
    } else {
        fnv_step(spec_fnv1a(bytes.drop_last()), bytes.last())
    }
}

/// Exact mirror of `spec_fnv1a` over the UTF-8 bytes of a string.
pub fn fnv1a_of_str(s: &str) -> (r: u64)
    ensures
        r == spec_fnv1a(s.spec_bytes()),
{
    let bytes = s.as_bytes();
    let mut h: u64 = 0xcbf29ce484222325u64;
    let mut k: usize = 0;
    while k < bytes.len()
        invariant
            bytes@ == s.spec_bytes(),
            k <= bytes@.len(),
            h == spec_fnv1a(bytes@.take(k as int)),
        decreases bytes@.len() - k,
    {
        let b = bytes[k];
        h = (h ^ (b as u64)).wrapping_mul(0x100000001b3u64);
        k = k + 1;
        proof {
            assert(bytes@.take(k as int).drop_last() =~= bytes@.take(k as int - 1));
            assert(bytes@.take(k as int).last() == bytes@[k as int - 1]);
        }
    }
    proof {
        assert(bytes@.take(bytes@.len() as int) =~= bytes@);
    }
    h
}

// ---------------------------------------------------------------------------
// Sorted, duplicate-free accumulation of lines.
// ---------------------------------------------------------------------------

/// Strictly increasing in lexicographic order; such a sequence has no
/// duplicate entries, adjacent or otherwise.
pub open spec fn strictly_sorted_lex(ls: Seq<Seq<char>>) -> bool {
    forall|i: int, j: int| 0 <= i < j < ls.len() ==> lex_lt(ls[i], ls[j])
}

/// Inserting into a sequence adds exactly one value to its set of entries.
pub proof fn lemma_insert_to_set<A>(s: Seq<A>, i: int, x: A)
    requires
        0 <= i <= s.len(),
    ensures
        s.insert(i, x).to_set() == s.to_set().insert(x),
{
    let t = s.insert(i, x);
    s.insert_ensures(i, x);
    assert forall|y: A| t.to_set().contains(y) implies s.to_set().insert(x).contains(y) by {
        let k = choose|k: int| 0 <= k < t.len() && t[k] == y;
        if k < i {
            assert(s[k] == y);
            assert(s.contains(y));
        } else if k > i {
            assert(s[k - 1] == y);
            assert(s.contains(y));
        }
    }
    assert forall|y: A| s.to_set().insert(x).contains(y) implies t.to_set().contains(y) by {
        if y == x {
            assert(t[i] == y);
            assert(t.contains(y));
        } else {
            let k = choose|k: int| 0 <= k < s.len() && s[k] == y;
            if k < i {
                assert(t[k] == y);
            } else {
                assert(t[k + 1] == y);
            }
            assert(t.contains(y));
        }
    }
    assert(t.to_set() =~= s.to_set().insert(x));
}

/// Inserts `x` at its place in the strictly sorted `r`, unless an equal
/// line is already there.
pub fn insert_unique_sorted(r: &mut Vec<String>, x: String)
    requires
        strictly_sorted_lex(old(r).deep_view()),
    ensures
        strictly_sorted_lex(final(r).deep_view()),
        final(r).deep_view().to_set() == old(r).deep_view().to_set().insert(x@),
{
    let ghost orig = r.deep_view();
    let mut j: usize = 0;
    while j < r.len() && str_lt(r[j].as_str(), x.as_str())
        invariant
            strictly_sorted_lex(r.deep_view()),
            r.deep_view() == orig,
            j <= r@.len(),
            forall|m: int| 0 <= m < j ==> lex_lt(#[trigger] orig[m], x@),
        decreases r@.len() - j,
    {
        j = j + 1;
    }
    if j < r.len() && str_eq(r[j].as_str(), x.as_str()) {
        proof {
            assert(orig[j as int] == x@);
            assert(orig.contains(x@));
            assert(orig.to_set() =~= orig.to_set().insert(x@));
        }
        return ;
    }
    proof {
        if j < r@.len() {
            lemma_lex_lt_connected(orig[j as int], x@);
            assert(lex_lt(x@, orig[j as int]));
        }
    }
    r.insert(j, x);
    proof {
        let after = r.deep_view();
        assert(after =~~= orig.insert(j as int, x@)) by {
            orig.insert_ensures(j as int, x@);
            assert(after.len() == orig.len() + 1);
            assert forall|m: int| 0 <= m < after.len() implies after[m] == orig.insert(
                j as int,
                x@,
            )[m] by {
                if m < j {
                    assert(r@[m] == old(r)@[m]);
                } else if m > j {
                    assert(r@[m] == old(r)@[m - 1]);
                }
            }
        }
        lemma_insert_to_set(orig, j as int, x@);
        let t = orig.insert(j as int, x@);
        orig.insert_ensures(j as int, x@);
        assert forall|p: int, q: int| 0 <= p < q < t.len() implies lex_lt(t[p], t[q]) by {
            if q < j {
                assert(lex_lt(orig[p], orig[q]));
            } else if q == j {
                assert(lex_lt(orig[p], x@));
            } else if p < j {
                assert(t[q] == orig[q - 1]);
                if p < q - 1 {
                    assert(lex_lt(orig[p], orig[q - 1]));
                } else {
                    assert(lex_lt(orig[p], x@));
                    assert(lex_lt(x@, orig[q - 1]));
                    lemma_lex_lt_transitive(orig[p], x@, orig[q - 1]);
                }
            } else if p == j {
                assert(t[p] == x@);
                assert(t[q] == orig[q - 1]);
                if q - 1 == j {
                    assert(lex_lt(x@, orig[j as int]));
                } else {
                    assert(lex_lt(x@, orig[j as int]));
                    assert(lex_lt(orig[j as int], orig[q - 1]));
                    lemma_lex_lt_transitive(x@, orig[j as int], orig[q - 1]);
                }
            } else {
                assert(lex_lt(orig[p - 1], orig[q - 1]));
            }
        }
    }
}

/// The strictly sorted sequence of the distinct entries of `input`.
pub fn sort_dedup_lines(input: &Vec<String>) -> (r: Vec<String>)
    ensures
        strictly_sorted_lex(r.deep_view()),
        r.deep_view().to_set() == input.deep_view().to_set(),
{
    let mut r: Vec<String> = Vec::new();
    let ghost inp = input.deep_view();
    let mut k: usize = 0;
    proof {
        assert(r.deep_view().to_set() =~= inp.take(0).to_set());
    }
    while k < input.len()
        invariant
            k <= input.len(),
            input.deep_view() == inp,
            strictly_sorted_lex(r.deep_view()),
            r.deep_view().to_set() == inp.take(k as int).to_set(),
        decreases input.len() - k,
    {
        let x = input[k].clone();
        proof {
            assert(x@ == inp[k as int]);
        }
        insert_unique_sorted(&mut r, x);
        k = k + 1;
        proof {
            let pre = inp.take(k as int - 1);
            let cur = inp.take(k as int);
            assert(cur =~= pre.push(inp[k as int - 1]));
            assert forall|y: Seq<char>| cur.to_set().contains(y) implies pre.to_set().insert(
                inp[k as int - 1],
            ).contains(y) by {
                let m = choose|m: int| 0 <= m < cur.len() && cur[m] == y;
                if m < k as int - 1 {
                    assert(pre[m] == y);
                    assert(pre.contains(y));
                }
            }
            assert forall|y: Seq<char>|
                pre.to_set().insert(inp[k as int - 1]).contains(y) implies cur.to_set().contains(
                y,
            ) by {
                if y == inp[k as int - 1] {
                    assert(cur[k as int - 1] == y);
                    assert(cur.contains(y));
                } else {
                    let m = choose|m: int| 0 <= m < pre.len() && pre[m] == y;
                    assert(cur[m] == y);
                    assert(cur.contains(y));
                }
            }
            assert(cur.to_set() =~= pre.to_set().insert(inp[k as int - 1]));
        }
    }
    proof {
        assert(inp.take(inp.len() as int) =~= inp);
    }
    r
}

/// Two strictly sorted line lists with the same set of entries are the
/// same list: sortedness and the entry set pin the sequence.
pub proof fn lemma_strictly_sorted_unique(a: Seq<Seq<char>>, b: Seq<Seq<char>>)
    requires
        strictly_sorted_lex(a),
        strictly_sorted_lex(b),
        a.to_set() == b.to_set(),
    ensures
        a == b,
    decreases a.len(),
{
    if a.len() == 0 {
        if b.len() > 0 {
            assert(b.contains(b[0]));
            assert(a.to_set().contains(b[0]));
            let k = choose|k: int| 0 <= k < a.len() && a[k] == b[0];
        }
        assert(a =~= b);
    } else if b.len() == 0 {
        assert(a.contains(a[0]));
        assert(b.to_set().contains(a[0]));
        let k = choose|k: int| 0 <= k < b.len() && b[k] == a[0];
        assert(a =~= b);
    } else {
        assert(a.contains(a[0]));
        assert(b.to_set().contains(a[0]));
        let j = choose|j: int| 0 <= j < b.len() && b[j] == a[0];
        assert(b.contains(b[0]));
        assert(a.to_set().contains(b[0]));
        let i = choose|i: int| 0 <= i < a.len() && a[i] == b[0];
        if a[0] != b[0] {
            assert(j > 0);
            assert(lex_lt(b[0], b[j]));
            assert(i > 0);
            assert(lex_lt(a[0], a[i]));
            lemma_lex_lt_transitive(a[0], b[0], a[0]);
            lemma_lex_lt_irreflexive(a[0]);
        }
        lemma_sorted_drop_first_set(a);
        lemma_sorted_drop_first_set(b);
        assert(strictly_sorted_lex(a.drop_first())) by {
            assert forall|p: int, q: int|
                0 <= p < q < a.drop_first().len() implies lex_lt(
                a.drop_first()[p],
                a.drop_first()[q],
            ) by {
                assert(a.drop_first()[p] == a[p + 1]);
                assert(a.drop_first()[q] == a[q + 1]);
            }
        }
        assert(strictly_sorted_lex(b.drop_first())) by {
            assert forall|p: int, q: int|
                0 <= p < q < b.drop_first().len() implies lex_lt(
                b.drop_first()[p],
                b.drop_first()[q],
            ) by {
                assert(b.drop_first()[p] == b[p + 1]);
                assert(b.drop_first()[q] == b[q + 1]);
            }
        }
        assert(a.drop_first().to_set() == b.drop_first().to_set());
        lemma_strictly_sorted_unique(a.drop_first(), b.drop_first());
        lemma_eq_head_tail_lines(a, b);
    }
}

/// A line list is determined by its head and its tail.
proof fn lemma_eq_head_tail_lines(a: Seq<Seq<char>>, b: Seq<Seq<char>>)
    requires
        a.len() > 0,
        b.len() > 0,
        a[0] == b[0],
        a.drop_first() == b.drop_first(),
    ensures
        a == b,
{
    assert(a =~= seq![a[0]] + a.drop_first());
    assert(b =~= seq![b[0]] + b.drop_first());
}

/// Dropping the head of a strictly sorted list removes exactly the head
/// from its entry set.
proof fn lemma_sorted_drop_first_set(a: Seq<Seq<char>>)
    requires
        strictly_sorted_lex(a),
        a.len() > 0,
    ensures
        a.drop_first().to_set() == a.to_set().remove(a[0]),
{
    let d = a.drop_first();
    assert forall|x: Seq<char>| d.to_set().contains(x) implies a.to_set().remove(
        a[0],
    ).contains(x) by {
        let k = choose|k: int| 0 <= k < d.len() && d[k] == x;
        assert(a[k + 1] == x);
        assert(a.contains(x));
        assert(lex_lt(a[0], a[k + 1]));
        lemma_lex_lt_irreflexive(a[0]);
    }
    assert forall|x: Seq<char>| a.to_set().remove(a[0]).contains(x) implies d.to_set().contains(
        x,
    ) by {
        let k = choose|k: int| 0 <= k < a.len() && a[k] == x;
        assert(k > 0);
        assert(d[k - 1] == x);
        assert(d.contains(x));
    }
    assert(d.to_set() =~= a.to_set().remove(a[0]));
}

} // verus!
