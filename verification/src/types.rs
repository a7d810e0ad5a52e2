//! The data model of the engine: source identities, parsed name/version
//! pairs, the tag-kind parameters, per-source naming of project and cache
//! files, and the advisory lock decision.

use vstd::prelude::*;
use crate::fs_view::{find_dir_upwards_containing, FsView};
use crate::paths::{path_join, spec_path_join};
use crate::rt_result::{RtErr, RtResult};
use crate::strutil::{fnv1a_of_str, spec_dec, spec_fnv1a, spec_split, split_on_char, u64_to_dec};

verus! {

use vstd::string::StringSliceAdditionalSpecFns;
use crate::fs_view::spec_find_up;

// ---------------------------------------------------------------------------
// Source identity.
// ---------------------------------------------------------------------------

/// A dense handle into the dependency graph's source table.
#[derive(PartialEq, Eq, Structural, Clone, Copy, Debug)]
pub struct SourceId {
    pub id: usize,
}

/// Sorts the ids ascending and drops duplicates, so that a collection of
/// sources mentions each one once.
pub fn unique_sources(sources: &mut Vec<SourceId>)
    ensures
        strictly_increasing_ids(final(sources)@),
        final(sources)@.to_set() == old(sources)@.to_set(),
{
    let ghost inp = sources@;
    let mut r: Vec<SourceId> = Vec::new();
    let mut k: usize = 0;
    proof {
        assert(r@.to_set() =~= inp.take(0).to_set());
    }
    while k < sources.len()
        invariant
            k <= sources@.len(),
            sources@ == inp,
            strictly_increasing_ids(r@),
            r@.to_set() == inp.take(k as int).to_set(),
        decreases sources@.len() - k,
    {
        let x = sources[k];
        insert_unique_id(&mut r, x);
        k = k + 1;
        proof {
            let pre = inp.take(k as int - 1);
            let cur = inp.take(k as int);
            assert(cur =~= pre.push(inp[k as int - 1]));
            assert forall|y: SourceId| cur.to_set().contains(y) implies pre.to_set().insert(
                inp[k as int - 1],
            ).contains(y) by {
                let m = choose|m: int| 0 <= m < cur.len() && cur[m] == y;
                if m < k as int - 1 {
                    assert(pre[m] == y);
                    assert(pre.contains(y));
                }
            }
            assert forall|y: SourceId|
                pre.to_set().insert(inp[k as int - 1]).contains(y) implies cur.to_set().contains(
                y,
            ) by {
                if y == inp[k as int - 1] {
                    assert(cur[k as int - 1] == y);
                    assert(cur.contains(y));
                } else {
                    let m = choose|m: int| 0 <= m < pre.len() && pre[m] == y;
                    assert(cur[m] == y);
                    assert(cur.contains(y));
                }
            }
            assert(cur.to_set() =~= pre.to_set().insert(inp[k as int - 1]));
        }
    }
    proof {
        assert(inp.take(inp.len() as int) =~= inp);
    }
    *sources = r;
}

/// Ids strictly ascending: no id appears twice.
pub open spec fn strictly_increasing_ids(ids: Seq<SourceId>) -> bool {
    forall|i: int, j: int| 0 <= i < j < ids.len() ==> ids[i].id < ids[j].id
}

fn insert_unique_id(r: &mut Vec<SourceId>, x: SourceId)
    requires
        strictly_increasing_ids(old(r)@),
    ensures
        strictly_increasing_ids(final(r)@),
        final(r)@.to_set() == old(r)@.to_set().insert(x),
{
    let ghost orig = r@;
    let mut j: usize = 0;
    while j < r.len() && r[j].id < x.id
        invariant
            strictly_increasing_ids(r@),
            r@ == orig,
            j <= r@.len(),
            forall|m: int| 0 <= m < j ==> (#[trigger] orig[m]).id < x.id,
        decreases r@.len() - j,
    {
        j = j + 1;
    }
    if j < r.len() && r[j].id == x.id {
        proof {
            assert(orig[j as int] == x);
            assert(orig.contains(x));
            assert(orig.to_set() =~= orig.to_set().insert(x));
        }
        return ;
    }
    r.insert(j, x);
    proof {
        assert(r@ =~= orig.insert(j as int, x));
        crate::strutil::lemma_insert_to_set(orig, j as int, x);
        orig.insert_ensures(j as int, x);
        let t = orig.insert(j as int, x);
        assert forall|p: int, q: int| 0 <= p < q < t.len() implies t[p].id < t[q].id by {
            if q < j {
            } else if q == j {
            } else if p == j {
            }
        }
    }
}

// ---------------------------------------------------------------------------
// Name and version, parsed from a metadata id string.
// ---------------------------------------------------------------------------

/// Names the strings that semver's `Version::parse` accepts.
pub uninterp spec fn semver_accepts(s: Seq<char>) -> bool;

/// Relies on semver's `Version::parse`: whether a version string is accepted
/// depends on its characters alone.
#[verifier::external_body]
fn semver_parse_ok(s: &str) -> (r: bool)
    ensures
        r == semver_accepts(s@),
{
    semver::Version::parse(s).is_ok()
}

/// Whether a version string satisfies the semver grammar.
pub fn version_text_ok(s: &str) -> (r: bool)
    ensures
        r == semver_accepts(s@),
{
    semver_parse_ok(s)
}

/// A source's package name together with its version string.
#[derive(Clone, Debug)]
pub struct SourceVersion {
    /// The package name.
    pub name: String,
    /// The semantic version, kept in its textual form.
    pub version: String,
}

impl SourceVersion {
    /// Pairs a name with a version string.
    pub fn new(name: String, version: String) -> (r: SourceVersion)
        ensures
            r.name@ == name@,
            r.version@ == version@,
    {
        SourceVersion { name, version }
    }

    /// Parses a metadata id of the form `<name> <version> (...)` by
    /// splitting on spaces; the version must satisfy the semver grammar.
    pub fn parse_from_id(id: &str) -> (r: RtResult<SourceVersion>)
        ensures
            ({
                let parts = spec_split(id@, ' ');
                &&& r is Ok <==> parts.len() >= 2 && semver_accepts(parts[1])
                &&& r is Ok ==> r->Ok_0.name@ == parts[0] && r->Ok_0.version@ == parts[1]
                &&& r is Err ==> (r->Err_0 matches RtErr::BadMetadata { key, context } && context@
                    == id@)
            }),
    {
        let parts = split_on_char(id, ' ');
        if parts.len() < 2 {
            return Err(
                RtErr::BadMetadata { key: "id".to_owned(), context: id.to_owned() },
            );
        }
        let version = &parts[1];
        proof {
            assert(version@ == spec_split(id@, ' ')[1]);
        }
        if !semver_parse_ok(version.as_str()) {
            return Err(
                RtErr::BadMetadata { key: "version".to_owned(), context: id.to_owned() },
            );
        }
        let name = parts[0].clone();
        proof {
            assert(name@ == spec_split(id@, ' ')[0]);
        }
        Ok(SourceVersion { name, version: version.clone() })
    }

    /// The `(name, version)` rendering used in messages.
    pub fn display(&self) -> (r: String)
        ensures
            r@ == spec_name_version(self.name@, self.version@),
    {
        let mut s = "(".to_owned();
        s.append(self.name.as_str());
        s.append(", ");
        s.append(self.version.as_str());
        s.append(")");
        proof {
            assert(s@ =~= spec_name_version(self.name@, self.version@));
        }
        s
    }
}

/// The `(name, version)` rendering used in messages.
pub open spec fn spec_name_version(name: Seq<char>, version: Seq<char>) -> Seq<char> {
    "("@ + name + ", "@ + version + ")"@
}

// ---------------------------------------------------------------------------
// Tag kinds and the external tool's parameters.
// ---------------------------------------------------------------------------

/// Which kind of tags is created.
#[derive(PartialEq, Eq, Structural, Debug, Clone, Copy)]
pub enum TagsKind {
    Vi,
    Emacs,
}

/// Which external tag tool is used, by its executable name.
#[derive(Debug, Clone)]
pub enum TagsExe {
    ExuberantCtags(String),
    UniversalCtags(String),
}

/// The parameters of a run that touch on-disk naming and tool invocation.
#[derive(Debug, Clone)]
pub struct TagsSpec {
    /// The kind of tags to produce.
    pub kind: TagsKind,
    /// The external tool to run.
    pub exe: TagsExe,
    /// The project-tree file name for vi tags.
    pub vi_tags: String,
    /// The project-tree file name for emacs tags.
    pub emacs_tags: String,
    /// Extra options handed to the tool, one argument when non-empty.
    pub ctags_options: String,
}

/// The file extension a tag kind uses in the cache.
pub open spec fn spec_file_extension(kind: TagsKind) -> Seq<char> {
    match kind {
        TagsKind::Vi => "vi"@,
        TagsKind::Emacs => "emacs"@,
    }
}

impl TagsSpec {
    /// Builds the parameters; the two project-tree file names must differ,
    /// else every run of one kind would clobber the other's output.
    pub fn new(
        kind: TagsKind,
        exe: TagsExe,
        vi_tags: String,
        emacs_tags: String,
        ctags_options: String,
    ) -> (r: RtResult<TagsSpec>)
        ensures
            r is Ok <==> vi_tags@ != emacs_tags@,
            r is Ok ==> ({
                let t = r->Ok_0;
                &&& t.kind == kind
                &&& t.vi_tags@ == vi_tags@
                &&& t.emacs_tags@ == emacs_tags@
                &&& t.ctags_options@ == ctags_options@
            }),
            r is Err ==> r->Err_0 is ConfigInvalid,
    {
        if crate::strutil::str_eq(vi_tags.as_str(), emacs_tags.as_str()) {
            return Err(RtErr::ConfigInvalid { context: vi_tags });
        }
        Ok(TagsSpec { kind, exe, vi_tags, emacs_tags, ctags_options })
    }

    /// The cache-file extension of the configured kind.
    pub fn file_extension(&self) -> (r: &'static str)
        ensures
            r@ == spec_file_extension(self.kind),
    {
        match self.kind {
            TagsKind::Vi => "vi",
            TagsKind::Emacs => "emacs",
        }
    }

    /// The project-tree file name of the configured kind.
    pub fn file_name(&self) -> (r: &str)
        ensures
            r@ == self.spec_file_name(),
    {
        match self.kind {
            TagsKind::Vi => self.vi_tags.as_str(),
            TagsKind::Emacs => self.emacs_tags.as_str(),
        }
    }

    /// The project-tree file name of the configured kind.
    pub open spec fn spec_file_name(&self) -> Seq<char> {
        match self.kind {
            TagsKind::Vi => self.vi_tags@,
            TagsKind::Emacs => self.emacs_tags@,
        }
    }

    /// The argument vector of the external tool, without output path and
    /// source directories; the caller appends those and spawns the process.
    pub open spec fn spec_ctags_command(&self) -> Seq<Seq<char>> {
        let generic = (if self.kind is Emacs {
            seq!["-e"@]
        } else {
            Seq::empty()
        }) + seq!["--recurse"@] + (if self.ctags_options@.len() > 0 {
            seq![self.ctags_options@]
        } else {
            Seq::empty()
        });
        match self.exe {
            TagsExe::ExuberantCtags(exe) => seq![exe@] + generic + exuberant_rust_args(),
            TagsExe::UniversalCtags(exe) => seq![exe@] + generic + seq!["--languages=Rust"@],
        }
    }

    /// Exact mirror of `spec_ctags_command`.
    pub fn ctags_command(&self) -> (r: Vec<String>)
        ensures
            r.deep_view() == self.spec_ctags_command(),
    {
        let ghost generic = (if self.kind is Emacs {
            seq!["-e"@]
        } else {
            Seq::<Seq<char>>::empty()
        }) + seq!["--recurse"@] + (if self.ctags_options@.len() > 0 {
            seq![self.ctags_options@]
        } else {
            Seq::<Seq<char>>::empty()
        });
        let mut r: Vec<String> = Vec::new();
        match &self.exe {
            TagsExe::ExuberantCtags(exe) => {
                r.push(exe.clone());
                proof {
                    assert(r.deep_view() =~~= seq![exe@]);
                }
                let ghost g0 = r.deep_view();
                self.generic_ctags_options(&mut r);
                proof {
                    assert(r.deep_view() == g0 + generic);
                }
                let ghost g1 = r.deep_view();
                let mut tail = exuberant_args();
                r.append(&mut tail);
                proof {
                    assert(r.deep_view() =~~= g1 + exuberant_rust_args());
                    assert(self.exe matches TagsExe::ExuberantCtags(e) && e@ == exe@);
                    assert(r.deep_view() =~~= self.spec_ctags_command());
                }
            },
            TagsExe::UniversalCtags(exe) => {
                r.push(exe.clone());
                proof {
                    assert(r.deep_view() =~~= seq![exe@]);
                }
                let ghost g0 = r.deep_view();
                self.generic_ctags_options(&mut r);
                proof {
                    assert(r.deep_view() == g0 + generic);
                }
                let ghost g1 = r.deep_view();
                r.push("--languages=Rust".to_owned());
                proof {
                    assert(r.deep_view() =~~= g1 + seq!["--languages=Rust"@]);
                    assert(self.exe matches TagsExe::UniversalCtags(e) && e@ == exe@);
                    assert(r.deep_view() =~~= self.spec_ctags_command());
                }
            },
        }
        r
    }

    fn generic_ctags_options(&self, r: &mut Vec<String>)
        ensures
            final(r).deep_view() == old(r).deep_view() + (if self.kind is Emacs {
                seq!["-e"@]
            } else {
                Seq::<Seq<char>>::empty()
            }) + seq!["--recurse"@] + (if self.ctags_options@.len() > 0 {
                seq![self.ctags_options@]
            } else {
                Seq::<Seq<char>>::empty()
            }),
    {
        let ghost orig = r.deep_view();
        match self.kind {
            TagsKind::Vi => {},
            TagsKind::Emacs => {
                r.push("-e".to_owned());
            },
        }
        r.push("--recurse".to_owned());
        if self.ctags_options.as_str().unicode_len() > 0 {
            r.push(self.ctags_options.clone());
        }
        proof {
            assert(final(r).deep_view() =~~= orig + (if self.kind is Emacs {
                seq!["-e"@]
            } else {
                Seq::<Seq<char>>::empty()
            }) + seq!["--recurse"@] + (if self.ctags_options@.len() > 0 {
                seq![self.ctags_options@]
            } else {
                Seq::<Seq<char>>::empty()
            }));
        }
    }
}

/// The fixed language definition handed to an exuberant tool, which has no
/// built-in Rust support: a regex pattern per kind of definition.
pub open spec fn exuberant_rust_args() -> Seq<Seq<char>> {
    seq![
        "--languages=Rust"@,
        "--langdef=Rust"@,
        "--langmap=Rust:.rs"@,
        "--regex-Rust=/^[ \\t]*(#\\[[^\\]]\\][ \\t]*)*(pub[ \\t]+)?(extern[ \\t]+)?(\"[^\"]+\"[ \\t]+)?(unsafe[ \\t]+)?fn[ \\t]+([a-zA-Z0-9_]+)/\\6/f,functions,function definitions/"@,
        "--regex-Rust=/^[ \\t]*(pub[ \\t]+)?type[ \\t]+([a-zA-Z0-9_]+)/\\2/T,types,type definitions/"@,
        "--regex-Rust=/^[ \\t]*(pub[ \\t]+)?enum[ \\t]+([a-zA-Z0-9_]+)/\\2/g,enum,enumeration names/"@,
        "--regex-Rust=/^[ \\t]*(pub[ \\t]+)?struct[ \\t]+([a-zA-Z0-9_]+)/\\2/s,structure names/"@,
        "--regex-Rust=/^[ \\t]*(pub[ \\t]+)?mod[ \\t]+([a-zA-Z0-9_]+)\\s*\\{/\\2/m,modules,module names/"@,
        "--regex-Rust=/^[ \\t]*(pub[ \\t]+)?(static|const)[ \\t]+([a-zA-Z0-9_]+)/\\3/c,consts,static constants/"@,
        "--regex-Rust=/^[ \\t]*(pub[ \\t]+)?(unsafe[ \\t]+)?trait[ \\t]+([a-zA-Z0-9_]+)/\\3/t,traits,traits/"@,
        "--regex-Rust=/^[ \\t]*macro_rules![ \\t]+([a-zA-Z0-9_]+)/\\1/d,macros,macro definitions/"@,
    ]
}

/// Exact mirror of `exuberant_rust_args`.
fn exuberant_args() -> (r: Vec<String>)
    ensures
        r.deep_view() == exuberant_rust_args(),
{
    let mut r: Vec<String> = Vec::new();
    r.push("--languages=Rust".to_owned());
    r.push("--langdef=Rust".to_owned());
    r.push("--langmap=Rust:.rs".to_owned());
    r.push(
        "--regex-Rust=/^[ \\t]*(#\\[[^\\]]\\][ \\t]*)*(pub[ \\t]+)?(extern[ \\t]+)?(\"[^\"]+\"[ \\t]+)?(unsafe[ \\t]+)?fn[ \\t]+([a-zA-Z0-9_]+)/\\6/f,functions,function definitions/".to_owned(),
    );
    r.push(
        "--regex-Rust=/^[ \\t]*(pub[ \\t]+)?type[ \\t]+([a-zA-Z0-9_]+)/\\2/T,types,type definitions/".to_owned(),
    );
    r.push(
        "--regex-Rust=/^[ \\t]*(pub[ \\t]+)?enum[ \\t]+([a-zA-Z0-9_]+)/\\2/g,enum,enumeration names/".to_owned(),
    );
    r.push(
        "--regex-Rust=/^[ \\t]*(pub[ \\t]+)?struct[ \\t]+([a-zA-Z0-9_]+)/\\2/s,structure names/".to_owned(),
    );
    r.push(
        "--regex-Rust=/^[ \\t]*(pub[ \\t]+)?mod[ \\t]+([a-zA-Z0-9_]+)\\s*\\{/\\2/m,modules,module names/".to_owned(),
    );
    r.push(
        "--regex-Rust=/^[ \\t]*(pub[ \\t]+)?(static|const)[ \\t]+([a-zA-Z0-9_]+)/\\3/c,consts,static constants/".to_owned(),
    );
    r.push(
        "--regex-Rust=/^[ \\t]*(pub[ \\t]+)?(unsafe[ \\t]+)?trait[ \\t]+([a-zA-Z0-9_]+)/\\3/t,traits,traits/".to_owned(),
    );
    r.push(
        "--regex-Rust=/^[ \\t]*macro_rules![ \\t]+([a-zA-Z0-9_]+)/\\1/d,macros,macro definitions/".to_owned(),
    );
    proof {
        assert(r.deep_view() =~~= exuberant_rust_args());
    }
    r
}

// ---------------------------------------------------------------------------
// A source: the unit of work.
// ---------------------------------------------------------------------------

/// The cache entry name `<name>-<hash>.<ext>`.
pub open spec fn spec_cached_file_name(name: Seq<char>, hash: Seq<char>, ext: Seq<char>) -> Seq<
    char,
> {
    name + "-"@ + hash + "."@ + ext
}

/// Builds the cache entry name `<name>-<hash>.<ext>`.
pub fn cached_file_name(name: &str, hash: &str, ext: &str) -> (r: String)
    ensures
        r@ == spec_cached_file_name(name@, hash@, ext@),
{
    let mut s = name.to_owned();
    s.append("-");
    s.append(hash);
    s.append(".");
    s.append(ext);
    proof {
        assert(s@ =~= spec_cached_file_name(name@, hash@, ext@));
    }
    s
}

/// The stable digest of a source directory, as a decimal string; it names
/// the directory's cache entries.
pub open spec fn spec_source_hash(dir: Seq<char>) -> Seq<char> {
    spec_dec(spec_fnv1a(vstd::utf8::encode_utf8(dir)) as int)
}

/// Exact mirror of `spec_source_hash`.
pub fn source_hash(dir: &str) -> (r: String)
    ensures
        r@ == spec_source_hash(dir@),
{
    let h = fnv1a_of_str(dir);
    u64_to_dec(h)
}

/// One crate to tag: its identity, where its sources live, and where its
/// two tag files go.
#[derive(Debug, Clone)]
pub struct Source {
    /// The graph-internal id of the source.
    pub id: SourceId,
    /// The package name.
    pub name: String,
    /// The package version, in textual form.
    pub version: String,
    /// The root directory of the crate's sources.
    pub dir: String,
    /// The stable digest of `dir`, naming cache entries.
    pub hash: String,
    /// Whether the source is a workspace member.
    pub is_root: bool,
    /// The tag file in the project tree, beside the crate's manifest.
    pub tags_file: String,
    /// The tag file in the user cache.
    pub cached_tags_file: String,
}

impl Source {
    /// Builds a source: the project tag file goes beside the manifest found
    /// by walking upward from `dir` (or into `dir` itself when none is
    /// found), and the cache entry is named by the directory digest.
    pub fn new(
        id: SourceId,
        source_version: &SourceVersion,
        dir: &str,
        is_root: bool,
        tags_spec: &TagsSpec,
        cache_dir: &str,
        fs: &FsView,
    ) -> (r: Source)
        ensures
            r.id == id,
            r.name@ == source_version.name@,
            r.version@ == source_version.version@,
            r.dir@ == dir@,
            r.is_root == is_root,
            r.hash@ == spec_source_hash(dir@),
            r.tags_file@ == spec_path_join(
                match spec_find_up("Cargo.toml"@, dir@, fs.file_set()) {
                    Some(d) => d,
                    None => dir@,
                },
                tags_spec.spec_file_name(),
            ),
            r.cached_tags_file@ == spec_path_join(
                cache_dir@,
                spec_cached_file_name(
                    source_version.name@,
                    spec_source_hash(dir@),
                    spec_file_extension(tags_spec.kind),
                ),
            ),
    {
        let tags_dir = match find_dir_upwards_containing("Cargo.toml", dir, fs) {
            Some(d) => d,
            None => dir.to_owned(),
        };
        let tags_file = path_join(tags_dir.as_str(), tags_spec.file_name());
        let hash = source_hash(dir);
        let file_name = cached_file_name(
            source_version.name.as_str(),
            hash.as_str(),
            tags_spec.file_extension(),
        );
        let cached_tags_file = path_join(cache_dir, file_name.as_str());
        Source {
            id,
            name: source_version.name.clone(),
            version: source_version.version.clone(),
            dir: dir.to_owned(),
            hash,
            is_root,
            tags_file,
            cached_tags_file,
        }
    }

    /// The dirty rule: a source needs its tags rebuilt when recreation is
    /// forced, when it is a workspace member, or when either of its tag
    /// files is missing.
    pub fn needs_tags_update(&self, force_recreate: bool, fs: &FsView) -> (r: bool)
        ensures
            r == self.spec_needs_tags_update(force_recreate, fs.file_set()),
    {
        if force_recreate {
            return true;
        }
        if self.is_root {
            return true;
        }
        !fs.is_file(self.cached_tags_file.as_str()) || !fs.is_file(self.tags_file.as_str())
    }

    /// The dirty rule.
    pub open spec fn spec_needs_tags_update(&self, force_recreate: bool, files: Set<Seq<char>>) -> bool {
        force_recreate || self.is_root || !files.contains(self.cached_tags_file@)
            || !files.contains(self.tags_file@)
    }

    /// Why the source is rebuilt, for verbose output.
    pub open spec fn spec_recreate_status(&self, force: bool, files: Set<Seq<char>>) -> Seq<char> {
        let nv = spec_name_version(self.name@, self.version@);
        if force {
            "Forced recreating of tags for "@ + nv
        } else if self.is_root {
            "Recreating tags for cargo project root "@ + nv
        } else if !files.contains(self.cached_tags_file@) {
            "Recreating tags for "@ + nv + ", because of missing cache file at "@
                + self.cached_tags_file@
        } else if !files.contains(self.tags_file@) {
            "Recreating tags for "@ + nv + ", because of missing tags file at "@ + self.tags_file@
        } else {
            "Recreating tags for "@ + nv + ", because one of its dependencies was updated"@
        }
    }

    /// Why the source is rebuilt, for verbose output.
    pub fn recreate_status(&self, force_recreate: bool, fs: &FsView) -> (r: String)
        ensures
            r@ == self.spec_recreate_status(force_recreate, fs.file_set()),
    {
        let nv = SourceVersion::new(self.name.clone(), self.version.clone()).display();
        if force_recreate {
            let mut s = "Forced recreating of tags for ".to_owned();
            s.append(nv.as_str());
            proof {
                assert(s@ =~= self.spec_recreate_status(force_recreate, fs.file_set()));
            }
            s
        } else if self.is_root {
            let mut s = "Recreating tags for cargo project root ".to_owned();
            s.append(nv.as_str());
            proof {
                assert(s@ =~= self.spec_recreate_status(force_recreate, fs.file_set()));
            }
            s
        } else if !fs.is_file(self.cached_tags_file.as_str()) {
            let mut s = "Recreating tags for ".to_owned();
            s.append(nv.as_str());
            s.append(", because of missing cache file at ");
            s.append(self.cached_tags_file.as_str());
            proof {
                assert(s@ =~= self.spec_recreate_status(force_recreate, fs.file_set()));
            }
            s
        } else if !fs.is_file(self.tags_file.as_str()) {
            let mut s = "Recreating tags for ".to_owned();
            s.append(nv.as_str());
            s.append(", because of missing tags file at ");
            s.append(self.tags_file.as_str());
            proof {
                assert(s@ =~= self.spec_recreate_status(force_recreate, fs.file_set()));
            }
            s
        } else {
            let mut s = "Recreating tags for ".to_owned();
            s.append(nv.as_str());
            s.append(", because one of its dependencies was updated");
            proof {
                assert(s@ =~= self.spec_recreate_status(force_recreate, fs.file_set()));
            }
            s
        }
    }

    /// The advisory lock path of this source for the given tag kind.
    pub open spec fn spec_lock_path(&self, kind: TagsKind, locks_dir: Seq<char>) -> Seq<char> {
        spec_path_join(
            locks_dir,
            spec_cached_file_name(self.name@, self.hash@, spec_file_extension(kind)),
        )
    }

    /// Decides the lock state of this source: the caller creates the file
    /// when `Locked` comes back and deletes it when the work is done.
    pub fn lock(&self, tags_spec: &TagsSpec, locks_dir: &str, fs: &FsView) -> (r: SourceLock)
        ensures
            ({
                let path = self.spec_lock_path(tags_spec.kind, locks_dir@);
                if fs.file_set().contains(path) {
                    r matches SourceLock::AlreadyLocked { path: p } && p@ == path
                } else {
                    r matches SourceLock::Locked { path: p } && p@ == path
                }
            }),
    {
        let file_name = cached_file_name(
            self.name.as_str(),
            self.hash.as_str(),
            tags_spec.file_extension(),
        );
        let lock_file = path_join(locks_dir, file_name.as_str());
        if fs.is_file(lock_file.as_str()) {
            SourceLock::AlreadyLocked { path: lock_file }
        } else {
            SourceLock::Locked { path: lock_file }
        }
    }
}

/// The decision whether this run owns a source's rebuild. The caller
/// creates the lock file on `Locked` and removes it afterwards; on
/// `AlreadyLocked` the source is skipped, never failed.
#[derive(Debug, Clone)]
pub enum SourceLock {
    /// This run holds the lock; the file at `path` is to be created now and
    /// deleted when the source is done.
    Locked { path: String },
    /// Another run holds the lock file at `path`.
    AlreadyLocked { path: String },
}

} // verus!
