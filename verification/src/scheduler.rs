//! Per-source build steps: the pure pipeline that turns a source's fresh
//! tag text and its dependencies' cached tag files into the two outputs
//! (cache entry and project file), and the state machine one source walks
//! through during a run.

use vstd::prelude::*;
use crate::fs_view::FsView;
use crate::paths::{path_join, spec_path_join};
use crate::strutil::{spec_lines, spec_unlines, strictly_sorted_lex};
use crate::tags::{
    all_content, emacs_ref_lines, find_reexported_crates, merge_emacs_contents, merge_vi_contents,
    spec_reexported, vi_header_format, vi_header_sorted,
};
use crate::types::{TagsKind, TagsSpec};

verus! {

// ---------------------------------------------------------------------------
// The inputs a source's rebuild reads from its dependencies.
// ---------------------------------------------------------------------------

/// One direct dependency as the merge sees it: its package name, the path
/// of its cached tag file, and that file's contents where it exists. A
/// missing file is tolerated and the dependency skipped; it may mean a
/// cycle or a lock-holder that was skipped.
pub struct DepTagInput {
    /// The dependency's package name.
    pub name: String,
    /// The path of the dependency's cached tag file.
    pub cached_tags_file: String,
    /// The contents of that file, when it exists.
    pub contents: Option<String>,
}

/// The scanned lines of a library root, empty when the file is absent.
pub open spec fn lib_lines_of(lib_rs: Option<&str>) -> Seq<Seq<char>> {
    match lib_rs {
        Some(s) => spec_lines(s@),
        None => Seq::empty(),
    }
}

/// The contents chosen for the cached file: dependencies that are publicly
/// re-exported and whose cached file exists.
pub open spec fn cache_dep_contents(deps: Seq<DepTagInput>, lines: Seq<Seq<char>>) -> Seq<
    Seq<char>,
>
    decreases deps.len(),
{
    if deps.len() == 0 {
        Seq::empty()
    } else {
        let rest = cache_dep_contents(deps.drop_last(), lines);
        let d = deps.last();
        if spec_reexported(lines, d.name@) && d.contents is Some {
            rest.push(d.contents->Some_0@)
        } else {
            rest
        }
    }
}

/// The paths chosen for the cached file, in step with
/// `cache_dep_contents`.
pub open spec fn cache_dep_paths(deps: Seq<DepTagInput>, lines: Seq<Seq<char>>) -> Seq<Seq<char>>
    decreases deps.len(),
{
    if deps.len() == 0 {
        Seq::empty()
    } else {
        let rest = cache_dep_paths(deps.drop_last(), lines);
        let d = deps.last();
        if spec_reexported(lines, d.name@) && d.contents is Some {
            rest.push(d.cached_tags_file@)
        } else {
            rest
        }
    }
}

/// The contents chosen for the project file: every dependency whose cached
/// file exists.
pub open spec fn all_dep_contents(deps: Seq<DepTagInput>) -> Seq<Seq<char>>
    decreases deps.len(),
{
    if deps.len() == 0 {
        Seq::empty()
    } else {
        let rest = all_dep_contents(deps.drop_last());
        let d = deps.last();
        if d.contents is Some {
            rest.push(d.contents->Some_0@)
        } else {
            rest
        }
    }
}

/// The paths chosen for the project file, in step with
/// `all_dep_contents`.
pub open spec fn all_dep_paths(deps: Seq<DepTagInput>) -> Seq<Seq<char>>
    decreases deps.len(),
{
    if deps.len() == 0 {
        Seq::empty()
    } else {
        let rest = all_dep_paths(deps.drop_last());
        let d = deps.last();
        if d.contents is Some {
            rest.push(d.cached_tags_file@)
        } else {
            rest
        }
    }
}

/// What one merged output must look like, given the merge inputs that were
/// chosen for it.
pub open spec fn merged_output_ok(
    kind: TagsKind,
    raw: Seq<char>,
    contents: Seq<Seq<char>>,
    paths: Seq<Seq<char>>,
    into: Seq<char>,
    out: Seq<char>,
) -> bool {
    match kind {
        TagsKind::Vi => {
            &&& contents.len() == 0 ==> out == raw
            &&& contents.len() > 0 ==> exists|body: Seq<Seq<char>>|
                {
                    &&& #[trigger] strictly_sorted_lex(body)
                    &&& body.to_set() == all_content(seq![raw] + contents).to_set()
                    &&& out == spec_unlines(seq![vi_header_format(), vi_header_sorted()] + body)
                }
        },
        TagsKind::Emacs => out == raw + spec_unlines(emacs_ref_lines(paths, into)),
    }
}

/// Builds the two outputs of one source's rebuild: the cached file (the
/// source's tags plus its publicly re-exported dependencies' tags) and the
/// project file (the source's tags plus all direct dependencies' tags).
/// Both are non-empty whenever the fresh tag text is.
pub fn update_source_tags(
    tags_spec: &TagsSpec,
    raw_tags: &str,
    lib_rs: Option<&str>,
    deps: &Vec<DepTagInput>,
    cached_tags_file: &str,
    tags_file: &str,
) -> (r: (String, String))
    ensures
        ({
            let lines = lib_lines_of(lib_rs);
            &&& merged_output_ok(
                tags_spec.kind,
                raw_tags@,
                cache_dep_contents(deps@, lines),
                cache_dep_paths(deps@, lines),
                cached_tags_file@,
                r.0@,
            )
            &&& merged_output_ok(
                tags_spec.kind,
                raw_tags@,
                all_dep_contents(deps@),
                all_dep_paths(deps@),
                tags_file@,
                r.1@,
            )
            &&& raw_tags@.len() > 0 ==> r.0@.len() > 0 && r.1@.len() > 0
        }),
{
    let ghost lines = lib_lines_of(lib_rs);
    let reexported = find_reexported_crates(lib_rs);
    let mut cache_contents: Vec<String> = Vec::new();
    let mut cache_paths: Vec<String> = Vec::new();
    let mut all_contents: Vec<String> = Vec::new();
    let mut all_paths: Vec<String> = Vec::new();
    let ghost deps_view = deps@;
    let mut k: usize = 0;
    while k < deps.len()
        invariant
            k <= deps@.len(),
            deps@ == deps_view,
            forall|n: Seq<char>|
                #[trigger] reexported.deep_view().to_set().contains(n) <==> spec_reexported(
                    lines,
                    n,
                ),
            cache_contents.deep_view() =~~= cache_dep_contents(deps_view.take(k as int), lines),
            cache_paths.deep_view() =~~= cache_dep_paths(deps_view.take(k as int), lines),
            all_contents.deep_view() =~~= all_dep_contents(deps_view.take(k as int)),
            all_paths.deep_view() =~~= all_dep_paths(deps_view.take(k as int)),
        decreases deps@.len() - k,
    {
        let d = &deps[k];
        proof {
            assert(*d == deps_view[k as int]);
        }
        let is_reexported = crate::fs_view::contains_str(&reexported, d.name.as_str());
        match &d.contents {
            Some(c) => {
                if is_reexported {
                    cache_contents.push(c.clone());
                    cache_paths.push(d.cached_tags_file.clone());
                }
                all_contents.push(c.clone());
                all_paths.push(d.cached_tags_file.clone());
            },
            None => {},
        }
        k = k + 1;
        proof {
            let cur = deps_view.take(k as int);
            assert(cur.drop_last() =~= deps_view.take(k as int - 1));
            assert(cur.last() == deps_view[k as int - 1]);
            assert(cache_contents.deep_view() =~~= cache_dep_contents(cur, lines));
            assert(cache_paths.deep_view() =~~= cache_dep_paths(cur, lines));
            assert(all_contents.deep_view() =~~= all_dep_contents(cur));
            assert(all_paths.deep_view() =~~= all_dep_paths(cur));
        }
    }
    proof {
        assert(deps_view.take(deps_view.len() as int) =~= deps_view);
    }
    let cache_out;
    let project_out;
    match tags_spec.kind {
        TagsKind::Vi => {
            cache_out = merge_vi_contents(raw_tags, &cache_contents);
            project_out = merge_vi_contents(raw_tags, &all_contents);
        },
        TagsKind::Emacs => {
            cache_out = merge_emacs_contents(raw_tags, &cache_paths, cached_tags_file);
            project_out = merge_emacs_contents(raw_tags, &all_paths, tags_file);
        },
    }
    (cache_out, project_out)
}

// ---------------------------------------------------------------------------
// The state machine one source walks through during a run.
// ---------------------------------------------------------------------------

/// Why a source was skipped.
#[derive(PartialEq, Eq, Structural, Clone, Copy, Debug)]
pub enum SkipReason {
    /// Another run holds the source's lock file.
    AlreadyLocked,
    /// The planner did not select the source.
    NotDirty,
}

/// Where one source stands during a run.
#[derive(PartialEq, Eq, Structural, Clone, Copy, Debug)]
pub enum BuildState {
    /// Not started.
    Pending,
    /// This run holds the source's lock.
    Locked,
    /// The external tool has produced the fresh tag text.
    Generated,
    /// The cached file has been written and renamed into place.
    CacheMerged,
    /// The project file has been written and renamed into place.
    Published,
    /// All work for the source is finished and the lock released.
    Done,
    /// The source was passed over for this run.
    Skipped(SkipReason),
}

/// What happened to a source since its last state.
#[derive(PartialEq, Eq, Structural, Clone, Copy, Debug)]
pub enum BuildEvent {
    /// The lock file was created by this run.
    LockAcquired,
    /// The lock file already existed.
    LockBusy,
    /// The planner did not select the source.
    NotSelected,
    /// The external tool finished successfully.
    ToolFinished,
    /// The cached file was renamed into place.
    CacheWritten,
    /// The project file was renamed into place.
    ProjectWritten,
    /// The lock was released.
    Released,
}

/// The legal transitions of a source.
pub open spec fn spec_next_state(s: BuildState, e: BuildEvent) -> Option<BuildState> {
    match (s, e) {
        (BuildState::Pending, BuildEvent::LockAcquired) => Some(BuildState::Locked),
        (BuildState::Pending, BuildEvent::LockBusy) => Some(
            BuildState::Skipped(SkipReason::AlreadyLocked),
        ),
        (BuildState::Pending, BuildEvent::NotSelected) => Some(
            BuildState::Skipped(SkipReason::NotDirty),
        ),
        (BuildState::Locked, BuildEvent::ToolFinished) => Some(BuildState::Generated),
        (BuildState::Generated, BuildEvent::CacheWritten) => Some(BuildState::CacheMerged),
        (BuildState::CacheMerged, BuildEvent::ProjectWritten) => Some(BuildState::Published),
        (BuildState::Published, BuildEvent::Released) => Some(BuildState::Done),
        _ => None,
    }
}

/// Whether the run holds the source's lock in this state; on any exit,
/// normal or failed, from such a state the lock file must be deleted.
pub open spec fn spec_holds_lock(s: BuildState) -> bool {
    match s {
        BuildState::Locked | BuildState::Generated | BuildState::CacheMerged
            | BuildState::Published => true,
        _ => false,
    }
}

/// Steps the state machine; `None` marks a transition the scheduler must
/// never take.
pub fn next_state(s: BuildState, e: BuildEvent) -> (r: Option<BuildState>)
    ensures
        r == spec_next_state(s, e),
{
    match (s, e) {
        (BuildState::Pending, BuildEvent::LockAcquired) => Some(BuildState::Locked),
        (BuildState::Pending, BuildEvent::LockBusy) => Some(
            BuildState::Skipped(SkipReason::AlreadyLocked),
        ),
        (BuildState::Pending, BuildEvent::NotSelected) => Some(
            BuildState::Skipped(SkipReason::NotDirty),
        ),
        (BuildState::Locked, BuildEvent::ToolFinished) => Some(BuildState::Generated),
        (BuildState::Generated, BuildEvent::CacheWritten) => Some(BuildState::CacheMerged),
        (BuildState::CacheMerged, BuildEvent::ProjectWritten) => Some(BuildState::Published),
        (BuildState::Published, BuildEvent::Released) => Some(BuildState::Done),
        _ => None,
    }
}

/// Exact mirror of `spec_holds_lock`.
pub fn holds_lock(s: BuildState) -> (r: bool)
    ensures
        r == spec_holds_lock(s),
{
    match s {
        BuildState::Locked | BuildState::Generated | BuildState::CacheMerged
            | BuildState::Published => true,
        _ => false,
    }
}

/// Law: every step of the machine keeps the lock discipline sound: a lock
/// is only ever taken from `Pending`, and only the `Released` step gives it
/// up without failing.
pub proof fn lemma_lock_discipline(s: BuildState, e: BuildEvent)
    ensures
        spec_next_state(s, e) matches Some(n) && spec_holds_lock(n) && !spec_holds_lock(s) ==> s
            is Pending && e is LockAcquired,
        spec_next_state(s, e) matches Some(n) && spec_holds_lock(s) && !spec_holds_lock(n) ==> e
            is Released,
{
}

// ---------------------------------------------------------------------------
// Tags for the standard library.
// ---------------------------------------------------------------------------

/// The candidate subdirectories of a standard-library source tree, for
/// both the current layout and the pre-2020 one.
pub open spec fn std_candidate_names() -> Seq<Seq<char>> {
    seq![
        "alloc"@,
        "core"@,
        "panic_abort"@,
        "panic_unwind"@,
        "proc_macro"@,
        "profiler_builtins"@,
        "rtstartup"@,
        "std"@,
        "stdarch"@,
        "term"@,
        "test"@,
        "unwind"@,
        "liballoc"@,
        "libarena"@,
        "libbacktrace"@,
        "libcollections"@,
        "libcore"@,
        "libflate"@,
        "libfmt_macros"@,
        "libgetopts"@,
        "libgraphviz"@,
        "liblog"@,
        "librand"@,
        "librbml"@,
        "libserialize"@,
        "libstd"@,
        "libsyntax"@,
        "libterm"@,
    ]
}

/// Exact mirror of `std_candidate_names`.
fn std_candidates() -> (r: Vec<String>)
    ensures
        r.deep_view() == std_candidate_names(),
{
    let mut r: Vec<String> = Vec::new();
    r.push("alloc".to_owned());
    r.push("core".to_owned());
    r.push("panic_abort".to_owned());
    r.push("panic_unwind".to_owned());
    r.push("proc_macro".to_owned());
    r.push("profiler_builtins".to_owned());
    r.push("rtstartup".to_owned());
    r.push("std".to_owned());
    r.push("stdarch".to_owned());
    r.push("term".to_owned());
    r.push("test".to_owned());
    r.push("unwind".to_owned());
    r.push("liballoc".to_owned());
    r.push("libarena".to_owned());
    r.push("libbacktrace".to_owned());
    r.push("libcollections".to_owned());
    r.push("libcore".to_owned());
    r.push("libflate".to_owned());
    r.push("libfmt_macros".to_owned());
    r.push("libgetopts".to_owned());
    r.push("libgraphviz".to_owned());
    r.push("liblog".to_owned());
    r.push("librand".to_owned());
    r.push("librbml".to_owned());
    r.push("libserialize".to_owned());
    r.push("libstd".to_owned());
    r.push("libsyntax".to_owned());
    r.push("libterm".to_owned());
    proof {
        assert(r.deep_view() =~~= std_candidate_names());
    }
    r
}

/// The candidate directories that exist under the standard-library source
/// path, in the fixed order.
pub open spec fn spec_std_src_dirs(
    src_path: Seq<char>,
    names: Seq<Seq<char>>,
    dirs: Set<Seq<char>>,
) -> Seq<Seq<char>>
    decreases names.len(),
{
    if names.len() == 0 {
        Seq::empty()
    } else {
        let rest = spec_std_src_dirs(src_path, names.drop_last(), dirs);
        let full = spec_path_join(src_path, names.last());
        if dirs.contains(full) {
            rest.push(full)
        } else {
            rest
        }
    }
}

/// What to do about the standard library's tags.
pub enum StdLibPlan {
    /// The tag file exists and recreation is not forced: nothing to do.
    UpToDate,
    /// No candidate source directory exists under the source path.
    NoSources,
    /// Run the tool over these directories into a temporary, then rename
    /// onto the tag file.
    Build { src_dirs: Vec<String>, tags_file: String },
}

/// Decides the standard-library side job: the tag file goes into the
/// chosen output directory (or beside the sources), is kept when it
/// already exists unless recreation is forced, and is built from every
/// candidate directory that exists.
pub fn std_lib_tags_plan(
    src_path: &str,
    output_dir_std: &Option<String>,
    file_name: &str,
    force_recreate: bool,
    fs: &FsView,
) -> (r: StdLibPlan)
    ensures
        ({
            let out_dir = match output_dir_std {
                Some(d) => d@,
                None => src_path@,
            };
            let target = spec_path_join(out_dir, file_name@);
            let srcs = spec_std_src_dirs(src_path@, std_candidate_names(), fs.dir_set());
            &&& (r is UpToDate <==> fs.file_set().contains(target) && !force_recreate)
            &&& (r is NoSources ==> srcs.len() == 0)
            &&& (r matches StdLibPlan::Build { src_dirs, tags_file } ==> src_dirs.deep_view()
                == srcs && tags_file@ == target && srcs.len() > 0)
            &&& (!(fs.file_set().contains(target) && !force_recreate) && srcs.len() > 0 ==> r
                is Build)
        }),
{
    let out_dir = match output_dir_std {
        Some(d) => d.as_str(),
        None => src_path,
    };
    let target = path_join(out_dir, file_name);
    if fs.is_file(target.as_str()) && !force_recreate {
        return StdLibPlan::UpToDate;
    }
    let names = std_candidates();
    let ghost names_view = names.deep_view();
    let mut src_dirs: Vec<String> = Vec::new();
    let mut k: usize = 0;
    while k < names.len()
        invariant
            k <= names@.len(),
            names.deep_view() == names_view,
            src_dirs.deep_view() =~~= spec_std_src_dirs(
                src_path@,
                names_view.take(k as int),
                fs.dir_set(),
            ),
        decreases names@.len() - k,
    {
        let full = path_join(src_path, names[k].as_str());
        if fs.is_dir(full.as_str()) {
            src_dirs.push(full);
        }
        k = k + 1;
        proof {
            let cur = names_view.take(k as int);
            assert(cur.drop_last() =~= names_view.take(k as int - 1));
            assert(cur.last() == names_view[k as int - 1]);
            assert(src_dirs.deep_view() =~~= spec_std_src_dirs(src_path@, cur, fs.dir_set()));
        }
    }
    proof {
        assert(names_view.take(names_view.len() as int) =~= names_view);
    }
    if src_dirs.len() == 0 {
        return StdLibPlan::NoSources;
    }
    StdLibPlan::Build { src_dirs, tags_file: target }
}

} // verus!
