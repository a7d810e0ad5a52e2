//! Parsing and ordering of single lines in the vi tag format. Sorting puts
//! headers first and, among tags of one name, `struct` and `enum` entries
//! before the rest, so editors find the type before its impls.

use vstd::prelude::*;
use crate::rt_result::AppResult;
use crate::strutil::{
    find_char, find_char_in, lemma_find_char, lemma_lex_lt_connected, lemma_lex_lt_irreflexive,
    lemma_lex_lt_transitive, lex_lt, lines_of, spec_lines, spec_split, spec_unlines, split_on_char,
    str_eq, str_lt, unlines,
};

verus! {

// ---------------------------------------------------------------------------
// The address patterns that mark a tag as a struct or an enum definition.
// ---------------------------------------------------------------------------

/// The whitespace characters the address patterns skip: the ASCII class.
/// The classifier is defined over these alone; exotic Unicode whitespace
/// after the pattern opener is not skipped.
pub open spec fn is_tag_ws(c: char) -> bool {
    c == ' ' || c == '\t' || c == '\n' || c == '\r' || c == '\u{0B}' || c == '\u{0C}'
}

/// The first index at or after `i` holding a non-whitespace character.
pub open spec fn skip_ws(s: Seq<char>, i: int) -> int
    decreases s.len() - i,
    when 0 <= i <= s.len()
{
    if i < s.len() && is_tag_ws(s[i]) {
        skip_ws(s, i + 1)
    } else {
        i
    }
}

pub proof fn lemma_skip_ws(s: Seq<char>, i: int)
    requires
        0 <= i <= s.len(),
    ensures
        i <= skip_ws(s, i) <= s.len(),
        forall|m: int| i <= m < skip_ws(s, i) ==> is_tag_ws(s[m]),
        skip_ws(s, i) < s.len() ==> !is_tag_ws(s[skip_ws(s, i)]),
    decreases s.len() - i,
{
    if i < s.len() && is_tag_ws(s[i]) {
        lemma_skip_ws(s, i + 1);
    }
}

/// Whether `w` stands at position `i` of `s`.
pub open spec fn matches_at(s: Seq<char>, i: int, w: Seq<char>) -> bool {
    0 <= i && i + w.len() <= s.len() && s.subrange(i, i + w.len()) == w
}

/// Whether the tag address is a source pattern `/^` followed by optional
/// whitespace, an optional `pub `, and the keyword `kw`.
pub open spec fn spec_addr_matches(s: Seq<char>, kw: Seq<char>) -> bool {
    s.len() >= 2 && s[0] == '/' && s[1] == '^' && {
        let j = skip_ws(s, 2);
        if matches_at(s, j, "pub "@) {
            matches_at(s, j + 4, kw)
        } else {
            matches_at(s, j, kw)
        }
    }
}

fn is_ws_char(c: char) -> (r: bool)
    ensures
        r == is_tag_ws(c),
{
    c == ' ' || c == '\t' || c == '\n' || c == '\r' || c == '\u{0B}' || c == '\u{0C}'
}

/// Exact mirror of `matches_at`.
fn matches_at_exec(s: &str, i: usize, w: &str) -> (r: bool)
    requires
        i <= s@.len(),
    ensures
        r == matches_at(s@, i as int, w@),
{
    let n = s.unicode_len();
    let wn = w.unicode_len();
    if wn > n - i {
        return false;
    }
    let window = s.substring_char(i, i + wn);
    proof {
        assert(window@ =~= s@.subrange(i as int, i as int + w@.len()));
    }
    str_eq(window, w)
}

/// Exact mirror of `spec_addr_matches`.
fn addr_matches(s: &str, kw: &str) -> (r: bool)
    ensures
        r == spec_addr_matches(s@, kw@),
{
    let n = s.unicode_len();
    if n < 2 {
        return false;
    }
    if !(s.get_char(0) == '/' && s.get_char(1) == '^') {
        return false;
    }
    let mut j: usize = 2;
    while j < n && is_ws_char_at(s, j)
        invariant
            n == s@.len(),
            n >= 2,
            2 <= j <= n,
            forall|m: int| 2 <= m < j ==> is_tag_ws(s@[m]),
        decreases n - j,
    {
        j = j + 1;
    }
    proof {
        lemma_skip_ws(s@, 2);
        let k = skip_ws(s@, 2);
        if k < j {
            assert(is_tag_ws(s@[k]));
        }
        if k > j {
            assert(is_tag_ws(s@[j as int]));
        }
        assert(k == j as int);
        reveal_strlit("pub ");
    }
    if matches_at_exec(s, j, "pub ") {
        matches_at_exec(s, j + 4, kw)
    } else {
        matches_at_exec(s, j, kw)
    }
}

fn is_ws_char_at(s: &str, j: usize) -> (r: bool)
    requires
        j < s@.len(),
    ensures
        r == is_tag_ws(s@[j as int]),
{
    is_ws_char(s.get_char(j))
}

// ---------------------------------------------------------------------------
// The kind of address a tag line points at.
// ---------------------------------------------------------------------------

/// What the `tagaddress` of a tag line contains.
#[derive(PartialEq, Eq, PartialOrd, Ord, Debug, Clone, Copy)]
pub enum AddressType {
    Struct,
    Enum,
    Other,
}

/// The sorting rank of an address type: definitions of types come first.
pub open spec fn addr_rank(a: AddressType) -> int {
    match a {
        AddressType::Struct => 0,
        AddressType::Enum => 1,
        AddressType::Other => 2,
    }
}

/// The address type a given tag address parses to.
pub open spec fn spec_addr_of(s: Seq<char>) -> AddressType {
    if spec_addr_matches(s, "struct"@) {
        AddressType::Struct
    } else if spec_addr_matches(s, "enum"@) {
        AddressType::Enum
    } else {
        AddressType::Other
    }
}

impl AddressType {
    /// Classifies a tag address by the source pattern it carries.
    pub fn parse(tag_address: &str) -> (r: AddressType)
        ensures
            r == spec_addr_of(tag_address@),
    {
        if addr_matches(tag_address, "struct") {
            AddressType::Struct
        } else if addr_matches(tag_address, "enum") {
            AddressType::Enum
        } else {
            AddressType::Other
        }
    }
}

// ---------------------------------------------------------------------------
// One line of a vi tag file.
// ---------------------------------------------------------------------------

/// The kind of a vi tag line.
#[derive(PartialEq, Eq, PartialOrd, Ord, Debug, Clone, Copy)]
pub enum Kind<'a> {
    /// A format header, a line starting with `!`.
    Header,
    /// A tag line `name<Tab>file<Tab>address`.
    Tag { name: &'a str, address_type: AddressType },
    /// Anything else.
    Other,
}

/// One line of a vi tag file together with its parsed kind.
#[derive(PartialEq, Eq, PartialOrd, Ord, Debug, Clone, Copy)]
pub struct Line<'a> {
    /// The kind of the line.
    pub kind: Kind<'a>,
    /// The complete line.
    pub line: &'a str,
}

/// The sorting rank of the kind a line parses to.
pub open spec fn kind_rank_of(s: Seq<char>) -> int {
    if s.len() == 0 {
        2
    } else if s[0] == '!' {
        0
    } else if spec_split(s, '\t').len() < 3 {
        2
    } else {
        1
    }
}

/// Whether a `Line` value is the faithful parse of its text.
pub open spec fn line_wf(l: Line<'_>) -> bool {
    match l.kind {
        Kind::Header => kind_rank_of(l.line@) == 0,
        Kind::Other => kind_rank_of(l.line@) == 2,
        Kind::Tag { name, address_type } => kind_rank_of(l.line@) == 1 && name@ == spec_split(
            l.line@,
            '\t',
        )[0] && address_type == spec_addr_of(spec_split(l.line@, '\t')[2]),
    }
}

impl<'a> Line<'a> {
    /// Parses one tag-file line: headers start with `!`; a tag line has at
    /// least three tab-separated fields, of which the first is the name and
    /// the third the address; everything else is `Other`.
    pub fn parse(line: &'a str) -> (r: Line<'a>)
        ensures
            r.line@ == line@,
            line_wf(r),
    {
        let n = line.unicode_len();
        if n == 0 {
            return Line { kind: Kind::Other, line };
        }
        if line.get_char(0) == '!' {
            return Line { kind: Kind::Header, line };
        }
        proof {
            lemma_find_char(line@, '\t');
        }
        let t1 = match find_char_in(line, '\t') {
            None => {
                proof {
                    assert(spec_split(line@, '\t').len() == 1);
                }
                return Line { kind: Kind::Other, line };
            },
            Some(t1) => t1,
        };
        let rest1 = line.substring_char(t1 + 1, n);
        proof {
            assert(rest1@ =~= line@.skip(t1 as int + 1));
            lemma_find_char(rest1@, '\t');
        }
        let t2 = match find_char_in(rest1, '\t') {
            None => {
                proof {
                    assert(spec_split(rest1@, '\t').len() == 1);
                    assert(spec_split(line@, '\t').len() == 2);
                }
                return Line { kind: Kind::Other, line };
            },
            Some(t2) => t2,
        };
        let rest1_n = rest1.unicode_len();
        let rest2 = rest1.substring_char(t2 + 1, rest1_n);
        proof {
            assert(rest2@ =~= rest1@.skip(t2 as int + 1));
            lemma_find_char(rest2@, '\t');
        }
        let name = line.substring_char(0, t1);
        let address_field = match find_char_in(rest2, '\t') {
            None => rest2,
            Some(t3) => {
                let f = rest2.substring_char(0, t3);
                proof {
                    assert(f@ =~= rest2@.take(t3 as int));
                }
                f
            },
        };
        proof {
            let parts = spec_split(line@, '\t');
            let parts1 = spec_split(rest1@, '\t');
            let parts2 = spec_split(rest2@, '\t');
            assert(parts =~= seq![line@.take(t1 as int)] + parts1);
            assert(parts1 =~= seq![rest1@.take(t2 as int)] + parts2);
            assert(parts2.len() >= 1);
            assert(parts.len() >= 3);
            assert(parts[0] == line@.take(t1 as int));
            assert(parts[2] == parts2[0]);
            assert(name@ =~= line@.take(t1 as int));
            assert(address_field@ == parts2[0]);
        }
        Line { kind: Kind::Tag { name, address_type: AddressType::parse(address_field) }, line }
    }
}

// ---------------------------------------------------------------------------
// The order on tag lines, and sorting by it.
// ---------------------------------------------------------------------------

/// The strict order on tag-line texts: by kind rank, then for tags by name
/// and address rank, with the full text as the last tiebreak.
pub open spec fn spec_tag_lt(x: Seq<char>, y: Seq<char>) -> bool {
    let rx = kind_rank_of(x);
    let ry = kind_rank_of(y);
    if rx != ry {
        rx < ry
    } else if rx == 1 {
        let nx = spec_split(x, '\t')[0];
        let ny = spec_split(y, '\t')[0];
        if nx != ny {
            lex_lt(nx, ny)
        } else {
            let ax = addr_rank(spec_addr_of(spec_split(x, '\t')[2]));
            let ay = addr_rank(spec_addr_of(spec_split(y, '\t')[2]));
            if ax != ay {
                ax < ay
            } else {
                lex_lt(x, y)
            }
        }
    } else {
        lex_lt(x, y)
    }
}

/// The reflexive closure used for sortedness.
pub open spec fn spec_tag_le(x: Seq<char>, y: Seq<char>) -> bool {
    spec_tag_lt(x, y) || x == y
}

/// Sorted by the tag-line order.
pub open spec fn sorted_tag_lines(ls: Seq<Seq<char>>) -> bool {
    forall|i: int, j: int| 0 <= i < j < ls.len() ==> spec_tag_le(ls[i], ls[j])
}

pub proof fn lemma_tag_lt_connected(x: Seq<char>, y: Seq<char>)
    ensures
        spec_tag_lt(x, y) || spec_tag_lt(y, x) || x == y,
{
    let rx = kind_rank_of(x);
    let ry = kind_rank_of(y);
    if rx == ry {
        if rx == 1 {
            let nx = spec_split(x, '\t')[0];
            let ny = spec_split(y, '\t')[0];
            if nx != ny {
                lemma_lex_lt_connected(nx, ny);
            } else {
                lemma_lex_lt_connected(x, y);
            }
        } else {
            lemma_lex_lt_connected(x, y);
        }
    }
}

pub proof fn lemma_tag_lt_transitive(x: Seq<char>, y: Seq<char>, z: Seq<char>)
    requires
        spec_tag_lt(x, y),
        spec_tag_lt(y, z),
    ensures
        spec_tag_lt(x, z),
{
    if kind_rank_of(x) == kind_rank_of(y) && kind_rank_of(y) == kind_rank_of(z) {
        if kind_rank_of(x) == 1 {
            let nx = spec_split(x, '\t')[0];
            let ny = spec_split(y, '\t')[0];
            let nz = spec_split(z, '\t')[0];
            if nx != ny && ny != nz {
                lemma_lex_lt_transitive(nx, ny, nz);
                lemma_lex_lt_irreflexive(nx);
            } else if nx == ny && ny != nz {
            } else if nx != ny && ny == nz {
            } else {
                let ax = addr_rank(spec_addr_of(spec_split(x, '\t')[2]));
                let ay = addr_rank(spec_addr_of(spec_split(y, '\t')[2]));
                let az = addr_rank(spec_addr_of(spec_split(z, '\t')[2]));
                if ax == ay && ay == az {
                    lemma_lex_lt_transitive(x, y, z);
                }
            }
        } else {
            lemma_lex_lt_transitive(x, y, z);
        }
    }
}

/// Exact mirror of `spec_tag_le` on parsed lines.
fn line_le(a: &Line<'_>, b: &Line<'_>) -> (r: bool)
    requires
        line_wf(*a),
        line_wf(*b),
    ensures
        r == spec_tag_le(a.line@, b.line@),
{
    let ra: u8 = match a.kind {
        Kind::Header => 0,
        Kind::Tag { .. } => 1,
        Kind::Other => 2,
    };
    let rb: u8 = match b.kind {
        Kind::Header => 0,
        Kind::Tag { .. } => 1,
        Kind::Other => 2,
    };
    if ra != rb {
        return ra < rb;
    }
    if ra == 1 {
        let (na, aa) = match a.kind {
            Kind::Tag { name, address_type } => (name, address_type),
            _ => ("", AddressType::Other),
        };
        let (nb, ab) = match b.kind {
            Kind::Tag { name, address_type } => (name, address_type),
            _ => ("", AddressType::Other),
        };
        if !str_eq(na, nb) {
            return str_lt(na, nb);
        }
        let ka: u8 = match aa {
            AddressType::Struct => 0,
            AddressType::Enum => 1,
            AddressType::Other => 2,
        };
        let kb: u8 = match ab {
            AddressType::Struct => 0,
            AddressType::Enum => 1,
            AddressType::Other => 2,
        };
        if ka != kb {
            return ka < kb;
        }
        if str_eq(a.line, b.line) {
            return true;
        }
        return str_lt(a.line, b.line);
    }
    if str_eq(a.line, b.line) {
        return true;
    }
    str_lt(a.line, b.line)
}

/// Inserting into a sequence adds one entry to its multiset.
pub proof fn lemma_insert_to_multiset<A>(s: Seq<A>, i: int, x: A)
    requires
        0 <= i <= s.len(),
    ensures
        s.insert(i, x).to_multiset() == s.to_multiset().insert(x),
{
    broadcast use vstd::seq_lib::group_to_multiset_ensures;

    assert(s.insert(i, x) =~= s.take(i).push(x) + s.skip(i));
    vstd::seq_lib::lemma_multiset_commutative(s.take(i).push(x), s.skip(i));
    assert(s =~= s.take(i) + s.skip(i));
    vstd::seq_lib::lemma_multiset_commutative(s.take(i), s.skip(i));
    assert(s.take(i).push(x).to_multiset() =~= s.take(i).to_multiset().insert(x));
    assert(s.insert(i, x).to_multiset() =~= s.to_multiset().insert(x));
}

/// The texts of a sequence of parsed lines.
pub open spec fn line_texts(ls: Seq<Line<'_>>) -> Seq<Seq<char>> {
    ls.map_values(|l: Line<'_>| l.line@)
}

/// Sorts parsed lines by the tag-line order, keeping the multiset of texts.
fn sort_parsed_lines<'a>(input: Vec<Line<'a>>) -> (r: Vec<Line<'a>>)
    requires
        forall|m: int| 0 <= m < input@.len() ==> line_wf(#[trigger] input@[m]),
    ensures
        forall|m: int| 0 <= m < r@.len() ==> line_wf(#[trigger] r@[m]),
        sorted_tag_lines(line_texts(r@)),
        line_texts(r@).to_multiset() == line_texts(input@).to_multiset(),
{
    broadcast use vstd::seq_lib::group_to_multiset_ensures;

    let ghost inp = input@;
    let mut r: Vec<Line<'a>> = Vec::new();
    let mut input = input;
    proof {
        assert(line_texts(r@).to_multiset() =~= line_texts(inp.take(0)).to_multiset());
    }
    let mut k: usize = 0;
    while k < input.len()
        invariant
            k <= input@.len(),
            input@ == inp,
            forall|m: int| 0 <= m < inp.len() ==> line_wf(#[trigger] inp[m]),
            forall|m: int| 0 <= m < r@.len() ==> line_wf(#[trigger] r@[m]),
            sorted_tag_lines(line_texts(r@)),
            line_texts(r@).to_multiset() == line_texts(inp.take(k as int)).to_multiset(),
        decreases input@.len() - k,
    {
        let x = input[k];
        let ghost before = r@;
        let mut j: usize = 0;
        while j < r.len() && line_le(&r[j], &x)
            invariant
                r@ == before,
                forall|m: int| 0 <= m < r@.len() ==> line_wf(#[trigger] r@[m]),
                line_wf(x),
                j <= r@.len(),
                forall|m: int| 0 <= m < j ==> spec_tag_le(#[trigger] before[m].line@, x.line@),
            decreases r@.len() - j,
        {
            j = j + 1;
        }
        proof {
            if j < r@.len() {
                lemma_tag_lt_connected(before[j as int].line@, x.line@);
            }
        }
        r.insert(j, x);
        k = k + 1;
        proof {
            assert(r@ =~= before.insert(j as int, x));
            let texts = line_texts(r@);
            let btexts = line_texts(before);
            assert(texts =~= btexts.insert(j as int, x.line@));
            lemma_insert_to_multiset(btexts, j as int, x.line@);
            assert(inp.take(k as int) =~= inp.take(k as int - 1).push(inp[k as int - 1]));
            assert(line_texts(inp.take(k as int)) =~= line_texts(inp.take(k as int - 1)).push(
                inp[k as int - 1].line@,
            ));
            assert(x == inp[k as int - 1]);
            assert(line_texts(inp.take(k as int - 1)).push(inp[k as int - 1].line@).to_multiset()
                == line_texts(inp.take(k as int - 1)).to_multiset().insert(
                inp[k as int - 1].line@,
            )) by {
                broadcast use vstd::seq_lib::group_to_multiset_ensures;

            }
            assert(texts.to_multiset() == btexts.to_multiset().insert(x.line@));
            assert(btexts.to_multiset() == line_texts(inp.take(k as int - 1)).to_multiset());
            assert(texts.to_multiset() =~= line_texts(inp.take(k as int)).to_multiset());
            assert forall|p: int, q: int| 0 <= p < q < texts.len() implies spec_tag_le(
                texts[p],
                texts[q],
            ) by {
                if q < j {
                } else if q == j {
                    assert(spec_tag_le(btexts[p], x.line@));
                } else if p < j {
                    assert(texts[q] == btexts[q - 1]);
                } else if p == j {
                    assert(texts[p] == x.line@);
                    assert(texts[q] == btexts[q - 1]);
                    if !spec_tag_le(x.line@, btexts[q - 1]) {
                        assert(spec_tag_le(btexts[j as int], x.line@) == false);
                        if j as int == q - 1 {
                            lemma_tag_lt_connected(x.line@, btexts[q - 1]);
                        } else {
                            assert(spec_tag_le(btexts[j as int], btexts[q - 1]));
                            lemma_tag_lt_connected(x.line@, btexts[q - 1]);
                            if spec_tag_lt(btexts[q - 1], x.line@) {
                                if spec_tag_lt(btexts[j as int], btexts[q - 1]) {
                                    lemma_tag_lt_transitive(
                                        btexts[j as int],
                                        btexts[q - 1],
                                        x.line@,
                                    );
                                }
                            }
                        }
                    }
                } else {
                    assert(texts[p] == btexts[p - 1]);
                    assert(texts[q] == btexts[q - 1]);
                }
            }
        }
    }
    proof {
        assert(inp.take(inp.len() as int) =~= inp);
    }
    r
}

/// Sorts vi tag lines so that, for one name, `struct` and `enum` tags come
/// before the others; headers come first of all.
pub fn sort_lines<'a>(str_lines: Vec<&'a str>) -> (r: Vec<&'a str>)
    ensures
        r.deep_view().to_multiset() == str_lines.deep_view().to_multiset(),
        sorted_tag_lines(r.deep_view()),
{
    broadcast use vstd::seq_lib::group_to_multiset_ensures;

    let ghost inp = str_lines.deep_view();
    let mut parsed: Vec<Line<'a>> = Vec::new();
    let mut k: usize = 0;
    while k < str_lines.len()
        invariant
            k <= str_lines@.len(),
            str_lines.deep_view() == inp,
            parsed@.len() == k,
            forall|m: int| 0 <= m < k ==> line_wf(#[trigger] parsed@[m]),
            forall|m: int| 0 <= m < k ==> (#[trigger] parsed@[m]).line@ == inp[m],
        decreases str_lines@.len() - k,
    {
        let l = Line::parse(str_lines[k]);
        parsed.push(l);
        k = k + 1;
    }
    proof {
        assert(line_texts(parsed@) =~= inp);
    }
    let sorted = sort_parsed_lines(parsed);
    let mut r: Vec<&'a str> = Vec::new();
    let mut k: usize = 0;
    while k < sorted.len()
        invariant
            k <= sorted@.len(),
            r@.len() == k,
            forall|m: int| 0 <= m < k ==> (#[trigger] r@[m])@ == sorted@[m].line@,
            sorted_tag_lines(line_texts(sorted@)),
            line_texts(sorted@).to_multiset() == inp.to_multiset(),
        decreases sorted@.len() - k,
    {
        let l = sorted[k].line;
        r.push(l);
        k = k + 1;
    }
    proof {
        assert(r.deep_view() =~= line_texts(sorted@));
    }
    r
}

/// Rewrites the contents of a vi tag file with its lines sorted by
/// `sort_lines`; the caller reads and writes the file itself.
pub fn sort_file(contents: &str) -> (r: AppResult<String>)
    ensures
        r is Ok,
        ({
            let ls = spec_lines(contents@);
            exists|sorted: Seq<Seq<char>>|
                {
                    &&& #[trigger] sorted.to_multiset() == ls.to_multiset()
                    &&& sorted_tag_lines(sorted)
                    &&& r->Ok_0@ == spec_unlines(sorted)
                }
        }),
{
    let owned_lines = lines_of(contents);
    let mut borrowed: Vec<&str> = Vec::new();
    let mut k: usize = 0;
    while k < owned_lines.len()
        invariant
            k <= owned_lines@.len(),
            borrowed@.len() == k,
            forall|m: int| 0 <= m < k ==> (#[trigger] borrowed@[m])@ == owned_lines.deep_view()[m],
        decreases owned_lines@.len() - k,
    {
        let l: &str = owned_lines[k].as_str();
        borrowed.push(l);
        k = k + 1;
    }
    proof {
        assert(borrowed.deep_view() =~= owned_lines.deep_view());
    }
    let sorted = sort_lines(borrowed);
    let mut out: Vec<String> = Vec::new();
    let mut k: usize = 0;
    while k < sorted.len()
        invariant
            k <= sorted@.len(),
            out@.len() == k,
            forall|m: int| 0 <= m < k ==> (#[trigger] out@[m])@ == sorted.deep_view()[m],
        decreases sorted@.len() - k,
    {
        let l: String = sorted[k].to_owned();
        out.push(l);
        k = k + 1;
    }
    proof {
        assert(out.deep_view() =~= sorted.deep_view());
    }
    let joined = unlines(&out);
    proof {
        let ls = spec_lines(contents@);
        let witness = sorted.deep_view();
        assert(witness.to_multiset() == ls.to_multiset() && sorted_tag_lines(witness) && joined@
            == spec_unlines(witness));
    }
    Ok(joined)
}

} // verus!
