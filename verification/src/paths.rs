//! A plain model of slash-separated paths, and the fixed directories the
//! engine uses under the user's home directory.

use vstd::prelude::*;
use crate::strutil::lemma_find_char;

verus! {

use crate::strutil::find_char;

/// The result of joining a directory path and a child name.
pub open spec fn spec_path_join(base: Seq<char>, child: Seq<char>) -> Seq<char> {
    base + seq!['/'] + child
}

/// Joins a directory path and a child name with a single `/` separator.
pub fn path_join(base: &str, child: &str) -> (r: String)
    ensures
        r@ == spec_path_join(base@, child@),
{
    let mut s = base.to_owned();
    s.append("/");
    s.append(child);
    proof {
        reveal_strlit("/");
        assert(s@ =~= spec_path_join(base@, child@));
    }
    s
}

/// Index of the last occurrence of `c` in `s`, or -1 when absent.
pub open spec fn find_last_char(s: Seq<char>, c: char) -> int
    decreases s.len(),
{
    if s.len() == 0 {
        -1
    } else if s.last() == c {
        s.len() - 1
    } else {
        find_last_char(s.drop_last(), c)
    }
}

pub proof fn lemma_find_last_char(s: Seq<char>, c: char)
    ensures
        -1 <= find_last_char(s, c) < s.len(),
        find_last_char(s, c) == -1 <==> (forall|i: int| 0 <= i < s.len() ==> s[i] != c),
        find_last_char(s, c) >= 0 ==> s[find_last_char(s, c)] == c && (forall|i: int|
            find_last_char(s, c) < i < s.len() ==> s[i] != c),
    decreases s.len(),
{
    if s.len() > 0 && s.last() != c {
        lemma_find_last_char(s.drop_last(), c);
        let r = find_last_char(s.drop_last(), c);
        if r == -1 {
            assert forall|i: int| 0 <= i < s.len() implies s[i] != c by {
                if i < s.len() - 1 {
                    assert(s.drop_last()[i] != c);
                }
            }
        } else {
            assert(s[r] == s.drop_last()[r]);
            assert forall|i: int| r < i < s.len() implies s[i] != c by {
                if i < s.len() - 1 {
                    assert(s.drop_last()[i] != c);
                }
            }
        }
    }
}

/// The parent of a slash-separated path: the prefix before the last
/// separator, the root for a top-level entry, and nothing for the root
/// itself or a bare name.
pub open spec fn spec_parent(s: Seq<char>) -> Option<Seq<char>> {
    let i = find_last_char(s, '/');
    if i < 0 {
        None
    } else if i == 0 {
        if s.len() == 1 {
            None
        } else {
            Some(seq!['/'])
        }
    } else {
        Some(s.take(i))
    }
}

/// A path's parent is strictly shorter than the path.
pub proof fn lemma_parent_shorter(s: Seq<char>)
    ensures
        spec_parent(s) is Some ==> spec_parent(s)->Some_0.len() < s.len(),
{
    lemma_find_last_char(s, '/');
}

/// Exact mirror of `spec_parent`.
pub fn path_parent(s: &str) -> (r: Option<String>)
    ensures
        r is Some <==> spec_parent(s@) is Some,
        r is Some ==> r->Some_0@ == spec_parent(s@)->Some_0,
{
    proof {
        lemma_find_last_char(s@, '/');
    }
    let n = s.unicode_len();
    let mut i: usize = n;
    while i > 0
        invariant
            n == s@.len(),
            i <= n,
            forall|j: int| i <= j < n ==> s@[j] != '/',
        decreases i,
    {
        if s.get_char(i - 1) == '/' {
            proof {
                lemma_find_last_char(s@, '/');
                let f = find_last_char(s@, '/');
                if f == -1 {
                    assert(s@[i - 1] != '/');
                }
                if f > i - 1 {
                    assert(s@[f] == '/');
                }
                if f < i - 1 {
                    assert(s@[i - 1] != '/');
                }
                assert(f == i - 1);
            }
            if i - 1 == 0 {
                if n == 1 {
                    return None;
                }
                let r = "/".to_owned();
                proof {
                    reveal_strlit("/");
                    assert(r@ =~= seq!['/']);
                }
                return Some(r);
            }
            let p = s.substring_char(0, i - 1).to_owned();
            proof {
                assert(p@ =~= s@.take(i - 1));
            }
            return Some(p);
        }
        i = i - 1;
    }
    proof {
        assert(find_last_char(s@, '/') == -1);
    }
    None
}

/// Whether a path is absolute: it begins with the separator.
pub open spec fn spec_is_absolute(s: Seq<char>) -> bool {
    s.len() > 0 && s[0] == '/'
}

/// Exact mirror of `spec_is_absolute`.
pub fn path_is_absolute(s: &str) -> (r: bool)
    ensures
        r == spec_is_absolute(s@),
{
    let n = s.unicode_len();
    n > 0 && s.get_char(0) == '/'
}

/// Where the engine puts all of its state, under the user's home directory.
pub fn rusty_tags_dir(home: &str) -> (r: String)
    ensures
        r@ == spec_path_join(home@, ".rusty-tags"@),
{
    path_join(home, ".rusty-tags")
}

/// Where the engine caches per-crate tag files.
pub fn rusty_tags_cache_dir(home: &str) -> (r: String)
    ensures
        r@ == spec_path_join(spec_path_join(home@, ".rusty-tags"@), "cache"@),
{
    let d = rusty_tags_dir(home);
    path_join(d.as_str(), "cache")
}

/// Where the engine puts its advisory lock files.
pub fn rusty_tags_locks_dir(home: &str) -> (r: String)
    ensures
        r@ == spec_path_join(spec_path_join(home@, ".rusty-tags"@), "locks"@),
{
    let d = rusty_tags_dir(home);
    path_join(d.as_str(), "locks")
}

} // verus!
