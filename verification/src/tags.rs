//! The merge protocol that combines a crate's fresh tags with its
//! dependencies' cached tags: sorted duplicate-free text for vi, reference
//! lines for emacs; the re-export scanner that decides which dependencies
//! belong into the cached file; and the external tool's argument vector and
//! outcome classification.

use vstd::prelude::*;
use crate::rt_result::{RtErr, RtResult};
use crate::strutil::{
    lemma_unlines_push, lines_of, sort_dedup_lines, spec_lines, spec_unlines,
    strictly_sorted_lex, str_eq, unlines,
};
use crate::types::TagsSpec;

verus! {

// ---------------------------------------------------------------------------
// The vi header lines.
// ---------------------------------------------------------------------------

/// The first header of a merged vi tag file.
pub open spec fn vi_header_format() -> Seq<char> {
    "!_TAG_FILE_FORMAT\t2\t/extended format; --format=1 will not append ;\" to lines/"@
}

/// The second header of a merged vi tag file.
pub open spec fn vi_header_sorted() -> Seq<char> {
    "!_TAG_FILE_SORTED\t1\t/0=unsorted, 1=sorted, 2=foldcase/"@
}

// ---------------------------------------------------------------------------
// Content lines: everything that is not a header and not empty.
// ---------------------------------------------------------------------------

/// A line that carries a tag: non-empty and not a `!` header.
pub open spec fn is_content_line(l: Seq<char>) -> bool {
    l.len() > 0 && l[0] != '!'
}

/// The content lines of a line list, in order.
pub open spec fn content_lines(ls: Seq<Seq<char>>) -> Seq<Seq<char>>
    decreases ls.len(),
{
    if ls.len() == 0 {
        Seq::empty()
    } else {
        let rest = content_lines(ls.drop_last());
        if is_content_line(ls.last()) {
            rest.push(ls.last())
        } else {
            rest
        }
    }
}

/// The content lines of several texts, in order.
pub open spec fn all_content(inputs: Seq<Seq<char>>) -> Seq<Seq<char>>
    decreases inputs.len(),
{
    if inputs.len() == 0 {
        Seq::empty()
    } else {
        all_content(inputs.drop_last()) + content_lines(spec_lines(inputs.last()))
    }
}

/// Appends the content lines of `text` to `acc`.
fn push_content_lines(acc: &mut Vec<String>, text: &str)
    ensures
        final(acc).deep_view() == old(acc).deep_view() + content_lines(spec_lines(text@)),
{
    let ghost orig = acc.deep_view();
    let ls = lines_of(text);
    let ghost ls_view = ls.deep_view();
    let mut k: usize = 0;
    while k < ls.len()
        invariant
            k <= ls@.len(),
            ls.deep_view() == ls_view,
            acc.deep_view() =~~= orig + content_lines(ls_view.take(k as int)),
        decreases ls@.len() - k,
    {
        let l = &ls[k];
        let ghost before = acc.deep_view();
        if l.as_str().unicode_len() > 0 && l.as_str().get_char(0) != '!' {
            acc.push(l.clone());
            proof {
                assert(is_content_line(ls_view[k as int]));
                assert(acc.deep_view() =~~= before.push(ls_view[k as int]));
            }
        } else {
            proof {
                assert(!is_content_line(ls_view[k as int]));
            }
        }
        k = k + 1;
        proof {
            assert(ls_view.take(k as int).drop_last() =~= ls_view.take(k as int - 1));
            assert(ls_view.take(k as int).last() == ls_view[k as int - 1]);
            assert(acc.deep_view() =~~= orig + content_lines(ls_view.take(k as int)));
        }
    }
    proof {
        assert(ls_view.take(ls_view.len() as int) =~= ls_view);
        assert(acc.deep_view() =~~= orig + content_lines(ls_view));
    }
}

// ---------------------------------------------------------------------------
// The vi merge: filter headers away, sort, drop duplicates, re-add headers.
// ---------------------------------------------------------------------------

/// Merges a crate's tag text with its dependencies' tag texts in the vi
/// format. With no dependencies the text is returned as it stands; else the
/// result is the two headers followed by every content line of every input,
/// sorted, each distinct line once.
pub fn merge_vi_contents(lib: &str, deps: &Vec<String>) -> (r: String)
    ensures
        deps@.len() == 0 ==> r@ == lib@,
        deps@.len() > 0 ==> exists|body: Seq<Seq<char>>|
            {
                &&& #[trigger] strictly_sorted_lex(body)
                &&& body.to_set() == all_content(seq![lib@] + deps.deep_view()).to_set()
                &&& r@ == spec_unlines(seq![vi_header_format(), vi_header_sorted()] + body)
            },
        r@.len() >= lib@.len() || deps@.len() > 0,
        deps@.len() > 0 ==> r@.len() > 0,
{
    if deps.len() == 0 {
        return lib.to_owned();
    }
    let mut acc: Vec<String> = Vec::new();
    push_content_lines(&mut acc, lib);
    proof {
        assert(seq![lib@].drop_last() =~= Seq::<Seq<char>>::empty());
        assert(all_content(Seq::<Seq<char>>::empty()) =~= Seq::<Seq<char>>::empty());
        assert(seq![lib@].last() == lib@);
        assert(all_content(seq![lib@]) =~~= content_lines(spec_lines(lib@)));
        assert(acc.deep_view() =~~= all_content(seq![lib@]));
    }
    let ghost deps_view = deps.deep_view();
    let mut k: usize = 0;
    while k < deps.len()
        invariant
            k <= deps@.len(),
            deps.deep_view() == deps_view,
            acc.deep_view() =~~= all_content(seq![lib@] + deps_view.take(k as int)),
        decreases deps@.len() - k,
    {
        push_content_lines(&mut acc, deps[k].as_str());
        k = k + 1;
        proof {
            let pre = seq![lib@] + deps_view.take(k as int - 1);
            let cur = seq![lib@] + deps_view.take(k as int);
            assert(cur.drop_last() =~= pre);
            assert(cur.last() == deps_view[k as int - 1]);
            assert(acc.deep_view() =~~= all_content(cur));
        }
    }
    proof {
        assert(seq![lib@] + deps_view.take(deps_view.len() as int) =~= seq![lib@] + deps_view);
    }
    let body = sort_dedup_lines(&acc);
    let mut out: Vec<String> = Vec::new();
    out.push(
        "!_TAG_FILE_FORMAT\t2\t/extended format; --format=1 will not append ;\" to lines/".to_owned(),
    );
    out.push("!_TAG_FILE_SORTED\t1\t/0=unsorted, 1=sorted, 2=foldcase/".to_owned());
    proof {
        assert(out.deep_view()[0] == vi_header_format());
        assert(out.deep_view()[1] == vi_header_sorted());
    }
    let ghost body_view = body.deep_view();
    let mut k: usize = 0;
    while k < body.len()
        invariant
            k <= body@.len(),
            body.deep_view() == body_view,
            out@.len() == k + 2,
            out.deep_view()[0] == vi_header_format(),
            out.deep_view()[1] == vi_header_sorted(),
            forall|m: int| 2 <= m < k + 2 ==> (#[trigger] out@[m])@ == body_view[m - 2],
        decreases body@.len() - k,
    {
        let l = body[k].clone();
        proof {
            assert(l@ == body_view[k as int]);
        }
        out.push(l);
        k = k + 1;
    }
    proof {
        let lhs = out.deep_view();
        let rhs = seq![vi_header_format(), vi_header_sorted()] + body_view;
        assert(lhs.len() == rhs.len());
        assert forall|m: int| 0 <= m < lhs.len() implies lhs[m] == rhs[m] by {
            if m >= 2 {
                assert((out@[m])@ == body_view[m - 2]);
            }
        }
        assert(out.deep_view() =~~= seq![vi_header_format(), vi_header_sorted()] + body_view);
    }
    let r = unlines(&out);
    proof {
        let full = seq![vi_header_format(), vi_header_sorted()] + body_view;
        assert(r@ == spec_unlines(full));
        assert(strictly_sorted_lex(body_view) && body_view.to_set() == all_content(
            seq![lib@] + deps_view,
        ).to_set() && r@ == spec_unlines(seq![vi_header_format(), vi_header_sorted()] + body_view));
        assert(full.len() >= 2);
        lemma_unlines_len(full);
    }
    r
}

/// Joined lines are at least as many characters as there are lines: each
/// line ends with its newline.
pub proof fn lemma_unlines_len(ls: Seq<Seq<char>>)
    ensures
        spec_unlines(ls).len() >= ls.len(),
    decreases ls.len(),
{
    if ls.len() > 0 {
        lemma_unlines_push(ls.drop_last(), ls.last());
        assert(ls.drop_last().push(ls.last()) =~= ls);
        lemma_unlines_len(ls.drop_last());
    }
}

// ---------------------------------------------------------------------------
// The emacs merge: the crate's bytes, then one reference line per
// dependency tag file, skipping the destination itself.
// ---------------------------------------------------------------------------

/// The marker appended to a referenced path.
pub open spec fn incl_mark() -> Seq<char> {
    ",inc"@ + "lude"@
}

/// The reference lines for the given dependency tag files, skipping any
/// entry equal to the destination.
pub open spec fn emacs_ref_lines(paths: Seq<Seq<char>>, into: Seq<char>) -> Seq<Seq<char>>
    decreases paths.len(),
{
    if paths.len() == 0 {
        Seq::empty()
    } else {
        let rest = emacs_ref_lines(paths.drop_last(), into);
        if paths.last() == into {
            rest
        } else {
            rest.push(paths.last() + incl_mark())
        }
    }
}

/// Builds the reference marker.
fn incl_str() -> (r: String)
    ensures
        r@ == incl_mark(),
{
    let mut s = ",inc".to_owned();
    s.append("lude");
    proof {
        assert(s@ =~= incl_mark());
    }
    s
}

/// Merges in the emacs format: the crate's tag text as it stands, then one
/// reference line per dependency tag file, never referencing the
/// destination itself.
pub fn merge_emacs_contents(lib: &str, dep_paths: &Vec<String>, into: &str) -> (r: String)
    ensures
        r@ == lib@ + spec_unlines(emacs_ref_lines(dep_paths.deep_view(), into@)),
        lib@.len() > 0 ==> r@.len() > 0,
{
    let mark = incl_str();
    let mut s = lib.to_owned();
    let ghost paths = dep_paths.deep_view();
    let mut k: usize = 0;
    proof {
        assert(s@ =~= lib@ + spec_unlines(emacs_ref_lines(paths.take(0), into@)));
    }
    while k < dep_paths.len()
        invariant
            k <= dep_paths@.len(),
            dep_paths.deep_view() == paths,
            mark@ == incl_mark(),
            s@ == lib@ + spec_unlines(emacs_ref_lines(paths.take(k as int), into@)),
        decreases dep_paths@.len() - k,
    {
        let p = &dep_paths[k];
        if !str_eq(p.as_str(), into) {
            s.append(p.as_str());
            s.append(mark.as_str());
            s.append("\n");
        }
        k = k + 1;
        proof {
            reveal_strlit("\n");
            let pre = paths.take(k as int - 1);
            let cur = paths.take(k as int);
            assert(cur.drop_last() =~= pre);
            assert(cur.last() == paths[k as int - 1]);
            if paths[k as int - 1] == into@ {
                assert(emacs_ref_lines(cur, into@) == emacs_ref_lines(pre, into@));
            } else {
                assert(emacs_ref_lines(cur, into@) == emacs_ref_lines(pre, into@).push(
                    paths[k as int - 1] + incl_mark(),
                ));
                lemma_unlines_push(emacs_ref_lines(pre, into@), paths[k as int - 1] + incl_mark());
                assert(s@ =~= lib@ + spec_unlines(emacs_ref_lines(cur, into@)));
            }
        }
    }
    proof {
        assert(paths.take(paths.len() as int) =~= paths);
    }
    s
}

/// Appending an equal suffix keeps distinct texts distinct.
proof fn lemma_concat_suffix_injective(a: Seq<char>, b: Seq<char>, c: Seq<char>)
    requires
        a + c == b + c,
    ensures
        a == b,
{
    assert((a + c).len() == a.len() + c.len());
    assert((b + c).len() == b.len() + c.len());
    assert(a.len() == b.len());
    assert forall|i: int| 0 <= i < a.len() implies a[i] == b[i] by {
        assert((a + c)[i] == a[i]);
        assert((b + c)[i] == b[i]);
    }
    assert(a =~= b);
}

/// Law: the reference lines of an emacs merge never mention the destination
/// file, and mention any one dependency file at most once, provided the
/// dependency files are distinct. (Two dependencies whose cached tag files
/// coincide would be referenced twice.)
pub proof fn lemma_emacs_refs(paths: Seq<Seq<char>>, into: Seq<char>)
    requires
        forall|i: int, j: int| 0 <= i < j < paths.len() ==> paths[i] != paths[j],
    ensures
        ({
            let lines = emacs_ref_lines(paths, into);
            &&& forall|k: int| 0 <= k < lines.len() ==> lines[k] != into + incl_mark()
            &&& forall|k: int, m: int| 0 <= k < m < lines.len() ==> lines[k] != lines[m]
            &&& forall|k: int|
                0 <= k < lines.len() ==> exists|i: int|
                    0 <= i < paths.len() && paths[i] != into && #[trigger] lines[k] == #[trigger] (
                    paths[i] + incl_mark())
        }),
    decreases paths.len(),
{
    if paths.len() > 0 {
        lemma_emacs_refs(paths.drop_last(), into);
        let lines = emacs_ref_lines(paths, into);
        let rest = emacs_ref_lines(paths.drop_last(), into);
        assert forall|k: int|
            0 <= k < rest.len() implies exists|i: int|
            0 <= i < paths.len() && paths[i] != into && #[trigger] rest[k] == #[trigger] (paths[i]
                + incl_mark()) by {
            let i = choose|i: int|
                0 <= i < paths.drop_last().len() && paths.drop_last()[i] != into && rest[k] == (
                #[trigger] (paths.drop_last()[i] + incl_mark()));
            assert(paths[i] != into && rest[k] == paths[i] + incl_mark());
        }
        if paths.last() == into {
        } else {
            assert(lines == rest.push(paths.last() + incl_mark()));
            assert forall|k: int| 0 <= k < lines.len() implies lines[k] != into + incl_mark() by {
                if k == lines.len() - 1 {
                    if paths.last() + incl_mark() == into + incl_mark() {
                        lemma_concat_suffix_injective(paths.last(), into, incl_mark());
                    }
                }
            }
            assert forall|k: int, m: int|
                0 <= k < m < lines.len() implies lines[k] != lines[m] by {
                if m == lines.len() - 1 {
                    assert(lines[k] == rest[k]);
                    let i = choose|i: int|
                        0 <= i < paths.drop_last().len() && paths.drop_last()[i] != into && (
                        #[trigger] rest[k]) == #[trigger] (paths.drop_last()[i] + incl_mark());
                    if lines[k] == lines[m] {
                        lemma_concat_suffix_injective(
                            paths.drop_last()[i],
                            paths.last(),
                            incl_mark(),
                        );
                        assert(paths[i] == paths[paths.len() - 1]);
                    }
                }
            }
            assert forall|k: int|
                0 <= k < lines.len() implies exists|i: int|
                0 <= i < paths.len() && paths[i] != into && #[trigger] lines[k] == #[trigger] (
                paths[i] + incl_mark()) by {
                if k == lines.len() - 1 {
                    assert(paths[paths.len() - 1] != into && lines[k] == paths[paths.len() - 1]
                        + incl_mark());
                }
            }
        }
    }
}

// ---------------------------------------------------------------------------
// The external tool: argument vector and outcome.
// ---------------------------------------------------------------------------

/// The full argument vector for one tag-generation run: the configured
/// command, the output file, and the source directories to scan.
pub fn create_tags_command(tags_spec: &TagsSpec, src_dirs: &Vec<String>, tags_file: &str) -> (r:
    Vec<String>)
    ensures
        r.deep_view() == tags_spec.spec_ctags_command() + seq!["-o"@, tags_file@]
            + src_dirs.deep_view(),
{
    let mut r = tags_spec.ctags_command();
    let ghost base = r.deep_view();
    r.push("-o".to_owned());
    r.push(tags_file.to_owned());
    let ghost with_out = r.deep_view();
    proof {
        assert(with_out =~~= base + seq!["-o"@, tags_file@]);
    }
    let ghost dirs = src_dirs.deep_view();
    let ghost base_len = r@.len() as int;
    proof {
        assert forall|m: int| 0 <= m < base_len implies (#[trigger] r@[m])@ == with_out[m] by {}
    }
    let mut k: usize = 0;
    while k < src_dirs.len()
        invariant
            k <= src_dirs@.len(),
            src_dirs.deep_view() == dirs,
            0 <= base_len,
            base_len == with_out.len(),
            r@.len() == base_len + k,
            forall|m: int| 0 <= m < base_len ==> (#[trigger] r@[m])@ == with_out[m],
            forall|m: int|
                base_len <= m < base_len + k ==> (#[trigger] r@[m])@ == dirs[m - base_len],
        decreases src_dirs@.len() - k,
    {
        let d = src_dirs[k].clone();
        proof {
            assert(d@ == dirs[k as int]);
        }
        let ghost pre = r@;
        let ghost dv = d@;
        r.push(d);
        proof {
            assert(r@ =~= pre.push(d));
            assert forall|m: int|
                base_len <= m < r@.len() implies (#[trigger] r@[m])@ == dirs[m - base_len] by {
                if m < pre.len() {
                    assert(r@[m] == pre[m]);
                    assert((pre[m])@ == dirs[m - base_len]);
                } else {
                    assert((r@[m])@ == dv);
                }
            }
            assert forall|m: int|
                0 <= m < base_len implies (#[trigger] r@[m])@ == with_out[m] by {
                assert(r@[m] == pre[m]);
                assert((pre[m])@ == with_out[m]);
            }
        }
        k = k + 1;
    }
    proof {
        let lhs = r.deep_view();
        let rhs = with_out + dirs;
        assert(lhs.len() == rhs.len());
        assert forall|m: int| 0 <= m < lhs.len() implies lhs[m] == rhs[m] by {
            if m >= base_len {
                assert((r@[m])@ == dirs[m - base_len]);
            }
        }
        assert(r.deep_view() =~~= with_out + dirs);
        assert(r.deep_view() =~~= base + seq!["-o"@, tags_file@] + dirs);
    }
    r
}

/// What the tool reports when it fails without a word.
pub open spec fn silent_failure_text() -> Seq<char> {
    "ctags execution failed without any stderr or stdout output"@
}

/// Classifies the external tool's exit: success passes; a failure carries
/// the tool's standard error, or its standard output when that is empty, or
/// a fixed note when both are silent.
pub fn tool_outcome(success: bool, stderr: &str, stdout: &str) -> (r: RtResult<()>)
    ensures
        r is Ok <==> success,
        !success ==> (r->Err_0 matches RtErr::ToolFailed { context } && context@ == (
        if stderr@.len() > 0 {
            stderr@
        } else if stdout@.len() > 0 {
            stdout@
        } else {
            silent_failure_text()
        })),
{
    if success {
        return Ok(());
    }
    if stderr.unicode_len() > 0 {
        return Err(RtErr::ToolFailed { context: stderr.to_owned() });
    }
    if stdout.unicode_len() > 0 {
        return Err(RtErr::ToolFailed { context: stdout.to_owned() });
    }
    Err(
        RtErr::ToolFailed {
            context: "ctags execution failed without any stderr or stdout output".to_owned(),
        },
    )
}

// ---------------------------------------------------------------------------
// The re-export scanner: a shallow, line-based scan of a crate's library
// root for crates that are declared and publicly re-used. It is a string
// match by design; comments and attributes are not understood.
// ---------------------------------------------------------------------------

/// Length of the run of `c` at the front of `s`.
pub open spec fn leading_run(s: Seq<char>, c: char) -> int
    decreases s.len(),
{
    if s.len() > 0 && s[0] == c {
        1 + leading_run(s.drop_first(), c)
    } else {
        0
    }
}

/// Length of the run of `c` at the back of `s`.
pub open spec fn trailing_run(s: Seq<char>, c: char) -> int
    decreases s.len(),
{
    if s.len() > 0 && s.last() == c {
        1 + trailing_run(s.drop_last(), c)
    } else {
        0
    }
}

pub proof fn lemma_leading_run(s: Seq<char>, c: char)
    ensures
        0 <= leading_run(s, c) <= s.len(),
        forall|i: int| 0 <= i < leading_run(s, c) ==> s[i] == c,
        leading_run(s, c) < s.len() ==> s[leading_run(s, c)] != c,
    decreases s.len(),
{
    if s.len() > 0 && s[0] == c {
        lemma_leading_run(s.drop_first(), c);
        let lr = leading_run(s.drop_first(), c);
        assert forall|i: int| 0 <= i < lr + 1 implies s[i] == c by {
            if i > 0 {
                assert(s.drop_first()[i - 1] == c);
            }
        }
    }
}

pub proof fn lemma_trailing_run(s: Seq<char>, c: char)
    ensures
        0 <= trailing_run(s, c) <= s.len(),
        forall|i: int| s.len() - trailing_run(s, c) <= i < s.len() ==> s[i] == c,
        trailing_run(s, c) < s.len() ==> s[s.len() - trailing_run(s, c) - 1] != c,
    decreases s.len(),
{
    if s.len() > 0 && s.last() == c {
        lemma_trailing_run(s.drop_last(), c);
        let tr = trailing_run(s.drop_last(), c);
        assert forall|i: int| s.len() - (tr + 1) <= i < s.len() implies s[i] == c by {
            if i < s.len() - 1 {
                assert(s.drop_last()[i] == c);
            }
        }
    }
}

/// `s` with every leading and trailing `c` removed.
pub open spec fn spec_trim_char(s: Seq<char>, c: char) -> Seq<char> {
    if leading_run(s, c) == s.len() {
        Seq::empty()
    } else {
        s.subrange(leading_run(s, c), s.len() - trailing_run(s, c))
    }
}

/// Exact mirror of `spec_trim_char`.
pub fn trim_char_str<'a>(s: &'a str, c: char) -> (r: &'a str)
    ensures
        r@ == spec_trim_char(s@, c),
{
    proof {
        lemma_leading_run(s@, c);
        lemma_trailing_run(s@, c);
    }
    let n = s.unicode_len();
    let mut a: usize = 0;
    while a < n && s.get_char(a) == c
        invariant
            n == s@.len(),
            a <= n,
            forall|i: int| 0 <= i < a ==> s@[i] == c,
        decreases n - a,
    {
        a = a + 1;
    }
    proof {
        lemma_leading_run(s@, c);
        let lr = leading_run(s@, c);
        if lr < a {
            assert(s@[lr] == c);
        }
        if lr > a {
            assert(s@[a as int] == c);
        }
        assert(lr == a as int);
    }
    if a == n {
        let r = s.substring_char(n, n);
        proof {
            assert(r@ =~= spec_trim_char(s@, c));
        }
        return r;
    }
    let mut b: usize = n;
    while b > 0 && s.get_char(b - 1) == c
        invariant
            n == s@.len(),
            b <= n,
            forall|i: int| b <= i < n ==> s@[i] == c,
        decreases b,
    {
        b = b - 1;
    }
    proof {
        lemma_trailing_run(s@, c);
        let tr = trailing_run(s@, c);
        if n - tr < b {
            assert(s@[n - tr - 1] != c);
            assert(n - tr - 1 >= b);
            assert(s@[n - tr - 1] == c);
        }
        if n - tr > b {
            assert(b > 0);
            assert(s@[b - 1] == c);
        }
        assert(n as int - tr == b as int);
        assert(b >= a);
    }
    let r = s.substring_char(a, b);
    proof {
        assert(r@ =~= spec_trim_char(s@, c));
    }
    r
}

/// Whether a `::` separator stands at position `i` of `s`.
pub open spec fn dcolon_at(s: Seq<char>, i: int) -> bool {
    0 <= i < s.len() - 1 && s[i] == ':' && s[i + 1] == ':'
}

/// Index of the first `::` in `s`, or -1 when absent.
pub open spec fn find_dcolon(s: Seq<char>) -> int
    decreases s.len(),
{
    if s.len() < 2 {
        -1
    } else if s[0] == ':' && s[1] == ':' {
        0
    } else {
        let r = find_dcolon(s.drop_first());
        if r < 0 {
            -1
        } else {
            r + 1
        }
    }
}

pub proof fn lemma_find_dcolon(s: Seq<char>)
    ensures
        -1 <= find_dcolon(s) < s.len(),
        find_dcolon(s) == -1 <==> (forall|i: int| !(#[trigger] dcolon_at(s, i))),
        find_dcolon(s) >= 0 ==> dcolon_at(s, find_dcolon(s)) && (forall|i: int|
            0 <= i < find_dcolon(s) ==> !(#[trigger] dcolon_at(s, i))),
    decreases s.len(),
{
    if s.len() < 2 {
        assert forall|i: int| !(#[trigger] dcolon_at(s, i)) by {}
    } else if s[0] == ':' && s[1] == ':' {
        assert(dcolon_at(s, 0));
    } else {
        lemma_find_dcolon(s.drop_first());
        let d = s.drop_first();
        let r = find_dcolon(d);
        assert forall|i: int| 1 <= i < s.len() - 1 implies (dcolon_at(s, i) <==> dcolon_at(
            d,
            i - 1,
        )) by {
            assert(d[i - 1] == s[i]);
            if i < s.len() - 1 {
                assert(d[i] == s[i + 1]);
            }
        }
        if r == -1 {
            assert forall|i: int| !(#[trigger] dcolon_at(s, i)) by {
                if 1 <= i < s.len() - 1 {
                    assert(!dcolon_at(d, i - 1));
                }
            }
        } else {
            assert(dcolon_at(d, r));
            assert(dcolon_at(s, r + 1));
            assert forall|i: int| 0 <= i < r + 1 implies !(#[trigger] dcolon_at(s, i)) by {
                if i >= 1 {
                    assert(!dcolon_at(d, i - 1));
                }
            }
        }
    }
}

/// The leading path segment of a `use` target: everything before the first
/// `::`, or the whole text when there is none.
pub open spec fn first_mod_segment(s: Seq<char>) -> Seq<char> {
    if find_dcolon(s) < 0 {
        s
    } else {
        s.take(find_dcolon(s))
    }
}

/// Exact mirror of `first_mod_segment`.
pub fn first_mod_segment_of(s: &str) -> (r: String)
    ensures
        r@ == first_mod_segment(s@),
{
    proof {
        lemma_find_dcolon(s@);
    }
    let n = s.unicode_len();
    if n < 2 {
        proof {
            assert(find_dcolon(s@) == -1);
        }
        return s.to_owned();
    }
    let mut i: usize = 0;
    while i < n - 1
        invariant
            n == s@.len(),
            n >= 2,
            i <= n - 1,
            forall|m: int| 0 <= m < i ==> !(#[trigger] dcolon_at(s@, m)),
        decreases n - i,
    {
        if s.get_char(i) == ':' && s.get_char(i + 1) == ':' {
            proof {
                lemma_find_dcolon(s@);
                let f = find_dcolon(s@);
                assert(dcolon_at(s@, i as int));
                if f == -1 {
                    assert(!dcolon_at(s@, i as int));
                }
                if f < i as int {
                    assert(!dcolon_at(s@, f));
                }
                if f > i as int {
                    assert(!dcolon_at(s@, i as int));
                }
                assert(f == i as int);
            }
            let r = s.substring_char(0, i).to_owned();
            proof {
                assert(r@ =~= first_mod_segment(s@));
            }
            return r;
        }
        i = i + 1;
    }
    proof {
        lemma_find_dcolon(s@);
        assert forall|m: int| !(#[trigger] dcolon_at(s@, m)) by {
            if 0 <= m < s@.len() - 1 {
                assert(m < i);
            }
        }
        assert(find_dcolon(s@) == -1);
    }
    s.to_owned()
}

/// The ASCII whitespace characters the line scan splits on.
pub open spec fn scan_ws(c: char) -> bool {
    c == ' ' || c == '\t' || c == '\n' || c == '\u{C}' || c == '\r'
}

fn scan_ws_char(c: char) -> (r: bool)
    ensures
        r == scan_ws(c),
{
    c == ' ' || c == '\t' || c == '\n' || c == '\u{C}' || c == '\r'
}

/// Index of the first ASCII whitespace character, or -1 when absent.
pub open spec fn find_ws(s: Seq<char>) -> int
    decreases s.len(),
{
    if s.len() == 0 {
        -1
    } else if scan_ws(s[0]) {
        0
    } else {
        let r = find_ws(s.drop_first());
        if r < 0 {
            -1
        } else {
            r + 1
        }
    }
}

pub proof fn lemma_find_ws(s: Seq<char>)
    ensures
        -1 <= find_ws(s) < s.len(),
        find_ws(s) == -1 <==> (forall|i: int| 0 <= i < s.len() ==> !scan_ws(#[trigger] s[i])),
        find_ws(s) >= 0 ==> scan_ws(s[find_ws(s)]) && (forall|i: int|
            0 <= i < find_ws(s) ==> !scan_ws(#[trigger] s[i])),
    decreases s.len(),
{
    if s.len() > 0 && !scan_ws(s[0]) {
        lemma_find_ws(s.drop_first());
        let r = find_ws(s.drop_first());
        if r == -1 {
            assert forall|i: int| 0 <= i < s.len() implies !scan_ws(#[trigger] s[i]) by {
                if i > 0 {
                    assert(!scan_ws(s.drop_first()[i - 1]));
                }
            }
        } else {
            assert(s[r + 1] == s.drop_first()[r]);
            assert forall|i: int| 0 <= i < r + 1 implies !scan_ws(#[trigger] s[i]) by {
                if i > 0 {
                    assert(!scan_ws(s.drop_first()[i - 1]));
                }
            }
        }
    }
}

/// The ASCII-whitespace-separated words of `s`, in order, none empty.
pub open spec fn spec_words(s: Seq<char>) -> Seq<Seq<char>>
    decreases s.len(),
{
    if s.len() == 0 {
        Seq::empty()
    } else if scan_ws(s[0]) {
        spec_words(s.drop_first())
    } else {
        let e = find_ws(s);
        if e < 0 {
            seq![s]
        } else {
            proof {
                lemma_find_ws(s);
            }
            seq![s.take(e)] + spec_words(s.skip(e))
        }
    }
}

/// Exact mirror of `spec_words`.
pub fn words_of(s: &str) -> (r: Vec<String>)
    ensures
        r.deep_view() == spec_words(s@),
    decreases s@.len(),
{
    proof {
        lemma_find_ws(s@);
    }
    let n = s.unicode_len();
    if n == 0 {
        let r: Vec<String> = Vec::new();
        proof {
            assert(r.deep_view() =~~= spec_words(s@));
        }
        return r;
    }
    if scan_ws_char(s.get_char(0)) {
        let rest = s.substring_char(1, n);
        proof {
            assert(rest@ =~= s@.drop_first());
        }
        return words_of(rest);
    }
    let mut i: usize = 0;
    while i < n
        invariant
            n == s@.len(),
            n > 0,
            !scan_ws(s@[0]),
            i <= n,
            forall|m: int| 0 <= m < i ==> !scan_ws(#[trigger] s@[m]),
        decreases n - i,
    {
        if scan_ws_char(s.get_char(i)) {
            proof {
                lemma_find_ws(s@);
                let f = find_ws(s@);
                if f == -1 {
                    assert(!scan_ws(s@[i as int]));
                }
                if f < i as int {
                    assert(!scan_ws(s@[f]));
                }
                if f > i as int {
                    assert(!scan_ws(s@[i as int]));
                }
                assert(f == i as int);
            }
            let head = s.substring_char(0, i).to_owned();
            let tail = s.substring_char(i, n);
            proof {
                assert(head@ =~= s@.take(i as int));
                assert(tail@ =~= s@.skip(i as int));
            }
            let rest = words_of(tail);
            let ghost rest_view = rest.deep_view();
            let mut r = rest;
            r.insert(0, head);
            proof {
                let lhs = r.deep_view();
                let rhs = seq![s@.take(i as int)] + spec_words(s@.skip(i as int));
                assert(lhs.len() == rhs.len());
                assert forall|m: int| 0 <= m < lhs.len() implies lhs[m] == rhs[m] by {
                    if m == 0 {
                        assert(r@[0]@ == s@.take(i as int));
                    } else {
                        assert(r@[m]@ == rest_view[m - 1]);
                    }
                }
                assert(lhs =~~= rhs);
                assert(spec_words(s@) == rhs);
            }
            return r;
        }
        i = i + 1;
    }
    proof {
        lemma_find_ws(s@);
        assert(find_ws(s@) == -1);
    }
    let mut r: Vec<String> = Vec::new();
    r.push(s.to_owned());
    proof {
        assert(r.deep_view() =~~= spec_words(s@));
    }
    r
}

/// `s` with its trailing run of `c` removed.
pub open spec fn spec_strip_trailing(s: Seq<char>, c: char) -> Seq<char> {
    s.take(s.len() - trailing_run(s, c))
}

/// Exact mirror of `spec_strip_trailing`.
pub fn strip_trailing_str<'a>(s: &'a str, c: char) -> (r: &'a str)
    ensures
        r@ == spec_strip_trailing(s@, c),
{
    proof {
        lemma_trailing_run(s@, c);
    }
    let n = s.unicode_len();
    let mut b: usize = n;
    while b > 0 && s.get_char(b - 1) == c
        invariant
            n == s@.len(),
            b <= n,
            forall|i: int| b <= i < n ==> s@[i] == c,
        decreases b,
    {
        b = b - 1;
    }
    proof {
        lemma_trailing_run(s@, c);
        let tr = trailing_run(s@, c);
        if n - tr < b {
            assert(s@[n - tr - 1] != c);
            assert(n - tr - 1 >= b);
            assert(s@[n - tr - 1] == c);
        }
        if n - tr > b {
            assert(b > 0);
            assert(s@[b - 1] == c);
        }
        assert(n as int - tr == b as int);
    }
    let r = s.substring_char(0, b);
    proof {
        assert(r@ =~= spec_strip_trailing(s@, c));
    }
    r
}

/// The keyword that declares a linked crate.
pub open spec fn ec_kw() -> Seq<char> {
    "ext"@ + "ern"@
}

/// Builds the crate-declaration keyword.
fn ec_str() -> (r: String)
    ensures
        r@ == ec_kw(),
{
    let mut s = "ext".to_owned();
    s.append("ern");
    proof {
        assert(s@ =~= ec_kw());
    }
    s
}

/// The items of a scanned line: the trailing semicolons stripped, the rest
/// split on ASCII whitespace.
pub open spec fn line_items(l: Seq<char>) -> Seq<Seq<char>> {
    spec_words(spec_strip_trailing(l, ';'))
}

/// The leading segment publicly re-used by the line, if any.
pub open spec fn pub_use_target(l: Seq<char>) -> Option<Seq<char>> {
    let items = line_items(l);
    if items.len() >= 3 && items[0] == "pub"@ && items[1] == "use"@ {
        Some(first_mod_segment(items[2]))
    } else {
        None
    }
}

/// The crate declared by the line, as `(name, visible name)`, if any.
pub open spec fn crate_decl(l: Seq<char>) -> Option<(Seq<char>, Seq<char>)> {
    let items = line_items(l);
    if items.len() == 3 && items[0] == ec_kw() && items[1] == "crate"@ {
        Some((spec_trim_char(items[2], '"'), items[2]))
    } else if items.len() == 5 && items[0] == ec_kw() && items[1] == "crate"@ && items[3] == "as"@ {
        Some((spec_trim_char(items[2], '"'), items[4]))
    } else {
        None
    }
}

/// Whether the scanned lines declare crate `n` and publicly re-use it under
/// its visible name.
pub open spec fn spec_reexported(lines: Seq<Seq<char>>, n: Seq<char>) -> bool {
    exists|i: int, j: int|
        {
            &&& 0 <= i < lines.len()
            &&& 0 <= j < lines.len()
            &&& ((#[trigger] crate_decl(lines[i])) matches Some(d) && d.0 == n
                && #[trigger] pub_use_target(lines[j]) == Some(d.1))
        }
}

/// Exact mirror of `pub_use_target`.
fn pub_use_target_of(l: &str) -> (r: Option<String>)
    ensures
        match r {
            Some(t) => pub_use_target(l@) == Some(t@),
            None => pub_use_target(l@) is None,
        },
{
    let trimmed = strip_trailing_str(l, ';');
    let items = words_of(trimmed);
    proof {
        assert(items.deep_view() == line_items(l@));
    }
    if items.len() >= 3 && str_eq(items[0].as_str(), "pub") && str_eq(items[1].as_str(), "use") {
        let t = first_mod_segment_of(items[2].as_str());
        proof {
            assert(items[2 as int]@ == line_items(l@)[2]);
        }
        Some(t)
    } else {
        None
    }
}

/// Exact mirror of `crate_decl`.
fn crate_decl_of(l: &str) -> (r: Option<(String, String)>)
    ensures
        match r {
            Some(d) => crate_decl(l@) == Some((d.0@, d.1@)),
            None => crate_decl(l@) is None,
        },
{
    let kw = ec_str();
    let trimmed = strip_trailing_str(l, ';');
    let items = words_of(trimmed);
    proof {
        assert(items.deep_view() == line_items(l@));
    }
    if items.len() == 3 && str_eq(items[0].as_str(), kw.as_str()) && str_eq(
        items[1].as_str(),
        "crate",
    ) {
        let name = trim_char_str(items[2].as_str(), '"').to_owned();
        let visible = items[2].clone();
        Some((name, visible))
    } else if items.len() == 5 && str_eq(items[0].as_str(), kw.as_str()) && str_eq(
        items[1].as_str(),
        "crate",
    ) && str_eq(items[3].as_str(), "as") {
        let name = trim_char_str(items[2].as_str(), '"').to_owned();
        let visible = items[4].clone();
        Some((name, visible))
    } else {
        None
    }
}

/// Scans a crate's library root for crates that are both declared and
/// publicly re-used: the dependencies whose tags belong into this crate's
/// cached tag file. An absent library root yields the empty set.
#[verifier::rlimit(50)]
pub fn find_reexported_crates(lib_contents: Option<&str>) -> (r: Vec<String>)
    ensures
        ({
            let lines = match lib_contents {
                Some(s) => spec_lines(s@),
                None => Seq::<Seq<char>>::empty(),
            };
            forall|n: Seq<char>|
                #[trigger] r.deep_view().to_set().contains(n) <==> spec_reexported(lines, n)
        }),
{
    let text = match lib_contents {
        Some(s) => s,
        None => {
            let r: Vec<String> = Vec::new();
            proof {
                assert forall|n: Seq<char>|
                    #[trigger] r.deep_view().to_set().contains(n) <==> spec_reexported(
                    Seq::<Seq<char>>::empty(),
                    n,
                ) by {
                    assert(r.deep_view() =~~= Seq::<Seq<char>>::empty());
                    if spec_reexported(Seq::<Seq<char>>::empty(), n) {
                        let (i, j) = choose|i: int, j: int|
                            {
                                &&& 0 <= i < 0
                                &&& 0 <= j < 0
                                &&& ((#[trigger] crate_decl(Seq::<Seq<char>>::empty()[i]))
                                    matches Some(d) && d.0 == n && #[trigger] pub_use_target(
                                    Seq::<Seq<char>>::empty()[j],
                                ) == Some(d.1))
                            };
                        assert(0 <= i < 0);
                    }
                }
            }
            return r;
        },
    };
    let ls = lines_of(text);
    let ghost lines = ls.deep_view();
    let mut uses: Vec<String> = Vec::new();
    let mut decls: Vec<(String, String)> = Vec::new();
    let mut k: usize = 0;
    while k < ls.len()
        invariant
            k <= ls@.len(),
            ls.deep_view() == lines,
            forall|a: Seq<char>|
                #[trigger] uses.deep_view().to_set().contains(a) <==> (exists|j: int|
                    0 <= j < k && #[trigger] pub_use_target(lines[j]) == Some(a)),
            forall|m: int|
                0 <= m < decls@.len() ==> (exists|i: int|
                    0 <= i < k && #[trigger] crate_decl(lines[i]) == Some(
                        ((#[trigger] decls@[m]).0@, decls@[m].1@),
                    )),
            forall|i: int|
                0 <= i < k && (#[trigger] crate_decl(lines[i])) is Some ==> (exists|m: int|
                    0 <= m < decls@.len() && crate_decl(lines[i]) == Some(
                        ((#[trigger] decls@[m]).0@, decls@[m].1@),
                    )),
        decreases ls@.len() - k,
    {
        let l = &ls[k];
        proof {
            assert(l@ == lines[k as int]);
        }
        match pub_use_target_of(l.as_str()) {
            Some(t) => {
                let ghost before = uses.deep_view();
                uses.push(t);
                proof {
                    assert forall|a: Seq<char>|
                        #[trigger] uses.deep_view().to_set().contains(a) <==> (exists|j: int|
                            0 <= j < k + 1 && #[trigger] pub_use_target(lines[j]) == Some(
                                a,
                            )) by {
                        assert(uses.deep_view() =~~= before.push(
                            pub_use_target(lines[k as int])->Some_0,
                        ));
                        crate::strutil::lemma_insert_to_set(
                            before,
                            before.len() as int,
                            pub_use_target(lines[k as int])->Some_0,
                        );
                        assert(before.insert(
                            before.len() as int,
                            pub_use_target(lines[k as int])->Some_0,
                        ) =~~= before.push(pub_use_target(lines[k as int])->Some_0));
                        if uses.deep_view().to_set().contains(a) {
                            if a == pub_use_target(lines[k as int])->Some_0 {
                                assert(pub_use_target(lines[k as int]) == Some(a));
                            } else {
                                assert(before.to_set().contains(a));
                                let j = choose|j: int|
                                    0 <= j < k && #[trigger] pub_use_target(lines[j]) == Some(a);
                                assert(0 <= j < k + 1 && pub_use_target(lines[j]) == Some(a));
                            }
                        }
                        if exists|j: int|
                            0 <= j < k + 1 && #[trigger] pub_use_target(lines[j]) == Some(a) {
                            let j = choose|j: int|
                                0 <= j < k + 1 && #[trigger] pub_use_target(lines[j]) == Some(a);
                            if j < k {
                                assert(before.to_set().contains(a));
                            } else {
                                assert(a == pub_use_target(lines[k as int])->Some_0);
                            }
                        }
                    }
                }
            },
            None => {
                proof {
                    assert forall|a: Seq<char>|
                        #[trigger] uses.deep_view().to_set().contains(a) <==> (exists|j: int|
                            0 <= j < k + 1 && #[trigger] pub_use_target(lines[j]) == Some(
                                a,
                            )) by {
                        if exists|j: int|
                            0 <= j < k + 1 && #[trigger] pub_use_target(lines[j]) == Some(a) {
                            let j = choose|j: int|
                                0 <= j < k + 1 && #[trigger] pub_use_target(lines[j]) == Some(a);
                            assert(j < k);
                        }
                    }
                }
            },
        }
        match crate_decl_of(l.as_str()) {
            Some(d) => {
                let ghost before = decls@;
                decls.push(d);
                proof {
                    assert forall|i: int|
                        0 <= i < k + 1 && (#[trigger] crate_decl(lines[i])) is Some implies (exists|
                        m: int,
                    |
                        0 <= m < decls@.len() && crate_decl(lines[i]) == Some(
                            ((#[trigger] decls@[m]).0@, decls@[m].1@),
                        )) by {
                        if i < k {
                            let m = choose|m: int|
                                0 <= m < before.len() && crate_decl(lines[i]) == Some(
                                    ((#[trigger] before[m]).0@, before[m].1@),
                                );
                            assert(decls@[m] == before[m]);
                            assert(crate_decl(lines[i]) == Some((decls@[m].0@, decls@[m].1@)));
                        } else {
                            let m = decls@.len() - 1;
                            assert(crate_decl(lines[i]) == Some((decls@[m].0@, decls@[m].1@)));
                        }
                    }
                    assert forall|m: int|
                        0 <= m < decls@.len() implies (exists|i: int|
                        0 <= i < k + 1 && #[trigger] crate_decl(lines[i]) == Some(
                            ((#[trigger] decls@[m]).0@, decls@[m].1@),
                        )) by {
                        if m < before.len() {
                            assert(decls@[m] == before[m]);
                            let i = choose|i: int|
                                0 <= i < k && #[trigger] crate_decl(lines[i]) == Some(
                                    ((#[trigger] before[m]).0@, before[m].1@),
                                );
                            assert(0 <= i < k + 1 && crate_decl(lines[i]) == Some(
                                (decls@[m].0@, decls@[m].1@),
                            ));
                        } else {
                            assert(crate_decl(lines[k as int]) == Some(
                                (decls@[m].0@, decls@[m].1@),
                            ));
                        }
                    }
                }
            },
            None => {
                proof {
                    assert forall|i: int|
                        0 <= i < k + 1 && (#[trigger] crate_decl(lines[i])) is Some implies (exists|
                        m: int,
                    |
                        0 <= m < decls@.len() && crate_decl(lines[i]) == Some(
                            ((#[trigger] decls@[m]).0@, decls@[m].1@),
                        )) by {
                        assert(i < k);
                    }
                }
            },
        }
        k = k + 1;
    }
    let mut r: Vec<String> = Vec::new();
    let mut m: usize = 0;
    while m < decls.len()
        invariant
            m <= decls@.len(),
            forall|x: Seq<char>|
                #[trigger] r.deep_view().to_set().contains(x) <==> (exists|mm: int|
                    0 <= mm < m && (#[trigger] decls@[mm]).0@ == x && uses.deep_view().to_set().contains(
                        decls@[mm].1@,
                    )),
        decreases decls@.len() - m,
    {
        let name_matches = crate::fs_view::contains_str(&uses, decls[m].1.as_str());
        if name_matches {
            let ghost before = r.deep_view();
            let n = decls[m].0.clone();
            r.push(n);
            proof {
                assert(r.deep_view() =~~= before.push(decls@[m as int].0@));
                crate::strutil::lemma_insert_to_set(
                    before,
                    before.len() as int,
                    decls@[m as int].0@,
                );
                assert(before.insert(before.len() as int, decls@[m as int].0@) =~~= before.push(
                    decls@[m as int].0@,
                ));
                assert forall|x: Seq<char>|
                    #[trigger] r.deep_view().to_set().contains(x) <==> (exists|mm: int|
                        0 <= mm < m + 1 && (#[trigger] decls@[mm]).0@ == x
                            && uses.deep_view().to_set().contains(decls@[mm].1@)) by {
                    if r.deep_view().to_set().contains(x) {
                        if x == decls@[m as int].0@ {
                            assert(0 <= m < m + 1 && decls@[m as int].0@ == x
                                && uses.deep_view().to_set().contains(decls@[m as int].1@));
                        } else {
                            let mm = choose|mm: int|
                                0 <= mm < m && (#[trigger] decls@[mm]).0@ == x
                                    && uses.deep_view().to_set().contains(decls@[mm].1@);
                            assert(0 <= mm < m + 1 && decls@[mm].0@ == x
                                && uses.deep_view().to_set().contains(decls@[mm].1@));
                        }
                    }
                    if exists|mm: int|
                        0 <= mm < m + 1 && (#[trigger] decls@[mm]).0@ == x
                            && uses.deep_view().to_set().contains(decls@[mm].1@) {
                        let mm = choose|mm: int|
                            0 <= mm < m + 1 && (#[trigger] decls@[mm]).0@ == x
                                && uses.deep_view().to_set().contains(decls@[mm].1@);
                        if mm < m {
                            assert(before.to_set().contains(x));
                        } else {
                            assert(x == decls@[m as int].0@);
                        }
                    }
                }
            }
        } else {
            proof {
                assert forall|x: Seq<char>|
                    #[trigger] r.deep_view().to_set().contains(x) <==> (exists|mm: int|
                        0 <= mm < m + 1 && (#[trigger] decls@[mm]).0@ == x
                            && uses.deep_view().to_set().contains(decls@[mm].1@)) by {
                    if exists|mm: int|
                        0 <= mm < m + 1 && (#[trigger] decls@[mm]).0@ == x
                            && uses.deep_view().to_set().contains(decls@[mm].1@) {
                        let mm = choose|mm: int|
                            0 <= mm < m + 1 && (#[trigger] decls@[mm]).0@ == x
                                && uses.deep_view().to_set().contains(decls@[mm].1@);
                        assert(mm < m);
                    }
                }
            }
        }
        m = m + 1;
    }
    proof {
        assert forall|n: Seq<char>|
            #[trigger] r.deep_view().to_set().contains(n) <==> spec_reexported(lines, n) by {
            if r.deep_view().to_set().contains(n) {
                let mm = choose|mm: int|
                    0 <= mm < decls@.len() && (#[trigger] decls@[mm]).0@ == n
                        && uses.deep_view().to_set().contains(decls@[mm].1@);
                let i = choose|i: int|
                    0 <= i < lines.len() && #[trigger] crate_decl(lines[i]) == Some(
                        (decls@[mm].0@, decls@[mm].1@),
                    );
                let j = choose|j: int|
                    0 <= j < lines.len() && #[trigger] pub_use_target(lines[j]) == Some(
                        decls@[mm].1@,
                    );
                assert(crate_decl(lines[i]) matches Some(d) && d.0 == n && pub_use_target(lines[j])
                    == Some(d.1));
            }
            if spec_reexported(lines, n) {
                let (i, j) = choose|i: int, j: int|
                    {
                        &&& 0 <= i < lines.len()
                        &&& 0 <= j < lines.len()
                        &&& ((#[trigger] crate_decl(lines[i])) matches Some(d) && d.0 == n
                            && #[trigger] pub_use_target(lines[j]) == Some(d.1))
                    };
                let mm = choose|mm: int|
                    0 <= mm < decls@.len() && crate_decl(lines[i]) == Some(
                        ((#[trigger] decls@[mm]).0@, decls@[mm].1@),
                    );
                assert(uses.deep_view().to_set().contains(decls@[mm].1@));
                assert(decls@[mm].0@ == n);
            }
        }
    }
    r
}

/// Law: the vi merge output is a function of its inputs. Any two texts
/// that satisfy the merge contract for the same crate text and dependency
/// texts are byte-identical; running a merge twice over unchanged inputs
/// therefore reproduces the same file.
pub proof fn lemma_vi_merge_deterministic(
    lib: Seq<char>,
    deps: Seq<Seq<char>>,
    out1: Seq<char>,
    out2: Seq<char>,
)
    requires
        deps.len() > 0,
        exists|body: Seq<Seq<char>>|
            {
                &&& #[trigger] strictly_sorted_lex(body)
                &&& body.to_set() == all_content(seq![lib] + deps).to_set()
                &&& out1 == spec_unlines(seq![vi_header_format(), vi_header_sorted()] + body)
            },
        exists|body: Seq<Seq<char>>|
            {
                &&& #[trigger] strictly_sorted_lex(body)
                &&& body.to_set() == all_content(seq![lib] + deps).to_set()
                &&& out2 == spec_unlines(seq![vi_header_format(), vi_header_sorted()] + body)
            },
    ensures
        out1 == out2,
{
    let body1 = choose|body: Seq<Seq<char>>|
        {
            &&& #[trigger] strictly_sorted_lex(body)
            &&& body.to_set() == all_content(seq![lib] + deps).to_set()
            &&& out1 == spec_unlines(seq![vi_header_format(), vi_header_sorted()] + body)
        };
    let body2 = choose|body: Seq<Seq<char>>|
        {
            &&& #[trigger] strictly_sorted_lex(body)
            &&& body.to_set() == all_content(seq![lib] + deps).to_set()
            &&& out2 == spec_unlines(seq![vi_header_format(), vi_header_sorted()] + body)
        };
    crate::strutil::lemma_strictly_sorted_unique(body1, body2);
}

} // verus!
