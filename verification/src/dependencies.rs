//! Metadata ingest: reads the package manager's metadata (as the plain
//! JSON model), selects each package's source directory from its first
//! acceptable target, and builds the dependency graph.

use vstd::prelude::*;
use crate::config::Config;
use crate::dep_tree::{id_set, DepTree};
use crate::fs_view::FsView;
use crate::json::{assoc_get, JsonValue};
use crate::paths::{path_parent, spec_parent};
use crate::rt_result::{RtErr, RtResult};
use crate::strutil::{contains_seq, str_contains, str_eq};
use crate::types::{Source, SourceId, SourceVersion};

verus! {

use crate::paths::spec_is_absolute;
use crate::paths::path_is_absolute;

// ---------------------------------------------------------------------------
// Typed lookups into the metadata, each failing with the missing key.
// ---------------------------------------------------------------------------

/// Looks up an array under `entry`.
fn as_array_from_value<'a>(entry: &str, value: &'a JsonValue) -> (r: RtResult<&'a Vec<JsonValue>>)
    ensures
        match r {
            Ok(v) => ({
                let g = value.spec_get(entry@);
                &&& g is Some
                &&& g->Some_0 is Array
                &&& v@ == g->Some_0->Array_0@
            }),
            Err(e) => !({
                let g = value.spec_get(entry@);
                g is Some && g->Some_0 is Array
            }) && e is BadMetadata,
        },
{
    match value.get(entry) {
        Some(j) => match j.as_array() {
            Some(a) => Ok(a),
            None => Err(
                RtErr::BadMetadata { key: entry.to_owned(), context: "not an array".to_owned() },
            ),
        },
        None => Err(
            RtErr::BadMetadata { key: entry.to_owned(), context: "missing entry".to_owned() },
        ),
    }
}

/// Looks up a string under `entry`.
fn as_str_from_value<'a>(entry: &str, value: &'a JsonValue) -> (r: RtResult<&'a str>)
    ensures
        match r {
            Ok(v) => ({
                let g = value.spec_get(entry@);
                &&& g is Some
                &&& g->Some_0 is Str
                &&& v@ == g->Some_0->Str_0@
            }),
            Err(e) => !({
                let g = value.spec_get(entry@);
                g is Some && g->Some_0 is Str
            }) && e is BadMetadata,
        },
{
    match value.get(entry) {
        Some(j) => match j.as_str() {
            Some(s) => Ok(s),
            None => Err(
                RtErr::BadMetadata { key: entry.to_owned(), context: "not a string".to_owned() },
            ),
        },
        None => Err(
            RtErr::BadMetadata { key: entry.to_owned(), context: "missing entry".to_owned() },
        ),
    }
}

// ---------------------------------------------------------------------------
// Target selection: the first acceptable target decides the source
// directory; first match wins, in metadata order.
// ---------------------------------------------------------------------------

/// A target kind the engine accepts: a binary, anything library-like, a
/// procedural macro crate, or a test target.
pub open spec fn spec_acceptable_kind(k: Seq<char>) -> bool {
    k == "bin"@ || contains_seq(k, "lib"@) || k == "proc-macro"@ || k == "test"@
}

/// Exact mirror of `spec_acceptable_kind`.
fn acceptable_kind(k: &str) -> (r: bool)
    ensures
        r == spec_acceptable_kind(k@),
{
    str_eq(k, "bin") || str_contains(k, "lib") || str_eq(k, "proc-macro") || str_eq(k, "test")
}

/// The outcome of scanning one structure: malformed data, nothing usable,
/// or a chosen source directory.
pub enum TargetOutcome {
    /// A required entry is missing or ill-typed, or the chosen directory
    /// does not exist.
    Malformed,
    /// Nothing acceptable here; keep looking.
    Skip,
    /// The chosen source directory.
    Chosen(Seq<char>),
}

/// Scans a target's kind list: the first non-string entry is malformed;
/// the first acceptable kind selects the target.
pub open spec fn kinds_decision(kinds: Seq<JsonValue>) -> TargetOutcome
    decreases kinds.len(),
{
    if kinds.len() == 0 {
        TargetOutcome::Skip
    } else if !(kinds[0] is Str) {
        TargetOutcome::Malformed
    } else if spec_acceptable_kind(kinds[0]->Str_0@) {
        TargetOutcome::Chosen(Seq::empty())
    } else {
        kinds_decision(kinds.drop_first())
    }
}

/// Decides one target: when one of its kinds is acceptable, the source
/// directory is the file's parent for an absolute file path, the
/// manifest's directory for a relative path, and the path itself
/// otherwise; the directory must exist.
pub open spec fn target_decision(
    t: JsonValue,
    manifest_dir: Seq<char>,
    files: Set<Seq<char>>,
    dirs: Set<Seq<char>>,
) -> TargetOutcome {
    match t.spec_get("kind"@) {
        Some(kv) => if !(kv is Array) {
            TargetOutcome::Malformed
        } else {
            match kinds_decision(kv->Array_0@) {
                TargetOutcome::Malformed => TargetOutcome::Malformed,
                TargetOutcome::Skip => TargetOutcome::Skip,
                TargetOutcome::Chosen(_) => {
                    match t.spec_get("src_path"@) {
                        Some(sv) => if !(sv is Str) {
                            TargetOutcome::Malformed
                        } else {
                            let sp = sv->Str_0@;
                            if spec_is_absolute(sp) && files.contains(sp) {
                                match spec_parent(sp) {
                                    Some(p) => if dirs.contains(p) {
                                        TargetOutcome::Chosen(p)
                                    } else {
                                        TargetOutcome::Malformed
                                    },
                                    None => TargetOutcome::Malformed,
                                }
                            } else if !spec_is_absolute(sp) {
                                if dirs.contains(manifest_dir) {
                                    TargetOutcome::Chosen(manifest_dir)
                                } else {
                                    TargetOutcome::Malformed
                                }
                            } else {
                                if dirs.contains(sp) {
                                    TargetOutcome::Chosen(sp)
                                } else {
                                    TargetOutcome::Malformed
                                }
                            }
                        },
                        None => TargetOutcome::Malformed,
                    }
                },
            }
        },
        None => TargetOutcome::Malformed,
    }
}

/// Scans the target list: first match wins, in metadata order.
pub open spec fn targets_decision(
    ts: Seq<JsonValue>,
    manifest_dir: Seq<char>,
    files: Set<Seq<char>>,
    dirs: Set<Seq<char>>,
) -> TargetOutcome
    decreases ts.len(),
{
    if ts.len() == 0 {
        TargetOutcome::Skip
    } else {
        match target_decision(ts[0], manifest_dir, files, dirs) {
            TargetOutcome::Malformed => TargetOutcome::Malformed,
            TargetOutcome::Chosen(p) => TargetOutcome::Chosen(p),
            TargetOutcome::Skip => targets_decision(ts.drop_first(), manifest_dir, files, dirs),
        }
    }
}

/// The source directory of a package: its manifest's directory is found,
/// then the first acceptable target decides.
pub open spec fn spec_source_path(
    package: JsonValue,
    files: Set<Seq<char>>,
    dirs: Set<Seq<char>>,
) -> TargetOutcome {
    match package.spec_get("targets"@) {
        Some(ts) => if !(ts is Array) {
            TargetOutcome::Malformed
        } else {
            match package.spec_get("manifest_path"@) {
                Some(mp) => if !(mp is Str) {
                    TargetOutcome::Malformed
                } else {
                    match spec_parent(mp->Str_0@) {
                        Some(md) => targets_decision(ts->Array_0@, md, files, dirs),
                        None => TargetOutcome::Malformed,
                    }
                },
                None => TargetOutcome::Malformed,
            }
        },
        None => TargetOutcome::Malformed,
    }
}

/// Processes one target; the exact counterpart of `target_decision`.
fn process_target(t: &JsonValue, manifest_dir: &str, fs: &FsView) -> (r: RtResult<Option<String>>)
    ensures
        match target_decision(*t, manifest_dir@, fs.file_set(), fs.dir_set()) {
            TargetOutcome::Malformed => r is Err && r->Err_0 is BadMetadata,
            TargetOutcome::Skip => r matches Ok(None),
            TargetOutcome::Chosen(p) => r matches Ok(Some(pp)) && pp@ == p,
        },
{
    let kinds = match as_array_from_value("kind", t) {
        Ok(v) => v,
        Err(e) => {
            return Err(e);
        },
    };
    let ghost kinds_view = kinds@;
    proof {
        assert(kinds_view.skip(0) =~= kinds_view);
    }
    let mut k: usize = 0;
    let mut chosen: bool = false;
    while k < kinds.len() && !chosen
        invariant
            k <= kinds@.len(),
            kinds@ == kinds_view,
            t.spec_get("kind"@) is Some,
            t.spec_get("kind"@)->Some_0 is Array,
            t.spec_get("kind"@)->Some_0->Array_0@ == kinds_view,
            !chosen ==> kinds_decision(kinds_view.skip(k as int)) == kinds_decision(kinds_view),
            chosen ==> kinds_decision(kinds_view) is Chosen,
        decreases kinds@.len() - k, if chosen {
            0int
        } else {
            1int
        },
    {
        let kind = &kinds[k];
        proof {
            assert(kinds_view.skip(k as int)[0] == kinds_view[k as int]);
            assert(kinds_view.skip(k as int).drop_first() =~= kinds_view.skip(k as int + 1));
        }
        match kind.as_str() {
            Some(ks) => {
                if acceptable_kind(ks) {
                    chosen = true;
                } else {
                    k = k + 1;
                }
            },
            None => {
                return Err(
                    RtErr::BadMetadata {
                        key: "kind".to_owned(),
                        context: "not a string".to_owned(),
                    },
                );
            },
        }
    }
    if !chosen {
        proof {
            assert(kinds_view.skip(kinds_view.len() as int) =~= Seq::<JsonValue>::empty());
        }
        return Ok(None);
    }
    let sp = match as_str_from_value("src_path", t) {
        Ok(v) => v,
        Err(e) => {
            return Err(e);
        },
    };
    if path_is_absolute(sp) && fs.is_file(sp) {
        match path_parent(sp) {
            Some(p) => {
                if fs.is_dir(p.as_str()) {
                    Ok(Some(p))
                } else {
                    Err(
                        RtErr::BadMetadata {
                            key: "src_path".to_owned(),
                            context: "not a directory".to_owned(),
                        },
                    )
                }
            },
            None => Err(
                RtErr::BadMetadata {
                    key: "src_path".to_owned(),
                    context: "no parent directory".to_owned(),
                },
            ),
        }
    } else if !path_is_absolute(sp) {
        if fs.is_dir(manifest_dir) {
            Ok(Some(manifest_dir.to_owned()))
        } else {
            Err(
                RtErr::BadMetadata {
                    key: "src_path".to_owned(),
                    context: "not a directory".to_owned(),
                },
            )
        }
    } else {
        if fs.is_dir(sp) {
            Ok(Some(sp.to_owned()))
        } else {
            Err(
                RtErr::BadMetadata {
                    key: "src_path".to_owned(),
                    context: "not a directory".to_owned(),
                },
            )
        }
    }
}

/// Selects a package's source directory; the exact counterpart of
/// `spec_source_path`. A package with no acceptable target yields nothing
/// and is skipped by the caller.
pub fn source_path(package: &JsonValue, fs: &FsView) -> (r: RtResult<Option<String>>)
    ensures
        match spec_source_path(*package, fs.file_set(), fs.dir_set()) {
            TargetOutcome::Malformed => r is Err && r->Err_0 is BadMetadata,
            TargetOutcome::Skip => r matches Ok(None),
            TargetOutcome::Chosen(p) => r matches Ok(Some(pp)) && pp@ == p,
        },
{
    let targets = match as_array_from_value("targets", package) {
        Ok(v) => v,
        Err(e) => {
            return Err(e);
        },
    };
    let manifest_path = match as_str_from_value("manifest_path", package) {
        Ok(v) => v,
        Err(e) => {
            return Err(e);
        },
    };
    let manifest_dir = match path_parent(manifest_path) {
        Some(d) => d,
        None => {
            return Err(
                RtErr::BadMetadata {
                    key: "manifest_path".to_owned(),
                    context: "no parent directory".to_owned(),
                },
            );
        },
    };
    let ghost targets_view = targets@;
    proof {
        assert(targets_view.skip(0) =~= targets_view);
    }
    let mut i: usize = 0;
    while i < targets.len()
        invariant
            i <= targets@.len(),
            targets@ == targets_view,
            package.spec_get("targets"@) is Some,
            package.spec_get("targets"@)->Some_0 is Array,
            package.spec_get("targets"@)->Some_0->Array_0@ == targets_view,
            package.spec_get("manifest_path"@) is Some,
            package.spec_get("manifest_path"@)->Some_0 is Str,
            spec_parent(package.spec_get("manifest_path"@)->Some_0->Str_0@) == Some(
                manifest_dir@,
            ),
            targets_decision(
                targets_view.skip(i as int),
                manifest_dir@,
                fs.file_set(),
                fs.dir_set(),
            ) == targets_decision(targets_view, manifest_dir@, fs.file_set(), fs.dir_set()),
        decreases targets@.len() - i,
    {
        let t = &targets[i];
        proof {
            assert(targets_view.skip(i as int)[0] == targets_view[i as int]);
            assert(targets_view.skip(i as int).drop_first() =~= targets_view.skip(i as int + 1));
        }
        match process_target(t, manifest_dir.as_str(), fs) {
            Ok(Some(p)) => {
                return Ok(Some(p));
            },
            Ok(None) => {
                i = i + 1;
            },
            Err(e) => {
                return Err(e);
            },
        }
    }
    proof {
        assert(targets_view.skip(targets_view.len() as int) =~= Seq::<JsonValue>::empty());
    }
    Ok(None)
}

// ---------------------------------------------------------------------------
// Building the graph from packages and resolve nodes.
// ---------------------------------------------------------------------------

/// Whether one package element carries what the ingest needs: string id,
/// name and version entries, an accepted version text, and a target list
/// that is not malformed.
pub open spec fn spec_package_ok(
    p: JsonValue,
    files: Set<Seq<char>>,
    dirs: Set<Seq<char>>,
) -> bool {
    &&& (p.spec_get("id"@) matches Some(v) && v is Str)
    &&& (p.spec_get("name"@) matches Some(v) && v is Str)
    &&& (p.spec_get("version"@) matches Some(v) && v is Str && crate::types::semver_accepts(
        v->Str_0@,
    ))
    &&& !(spec_source_path(p, files, dirs) is Malformed)
}

/// The accepted packages in metadata order, each as its id, name, version
/// and chosen source directory; a package without an acceptable target
/// contributes nothing.
pub open spec fn spec_accepted(
    pkgs: Seq<JsonValue>,
    files: Set<Seq<char>>,
    dirs: Set<Seq<char>>,
) -> Seq<(Seq<char>, Seq<char>, Seq<char>, Seq<char>)>
    decreases pkgs.len(),
{
    if pkgs.len() == 0 {
        Seq::empty()
    } else {
        let rest = spec_accepted(pkgs.drop_last(), files, dirs);
        let p = pkgs.last();
        match spec_source_path(p, files, dirs) {
            TargetOutcome::Chosen(dir) => rest.push(
                (
                    p.spec_get("id"@)->Some_0->Str_0@,
                    p.spec_get("name"@)->Some_0->Str_0@,
                    p.spec_get("version"@)->Some_0->Str_0@,
                    dir,
                ),
            ),
            _ => rest,
        }
    }
}

/// Index of the first accepted package with the given metadata id, or -1.
pub open spec fn accepted_index(
    acc: Seq<(Seq<char>, Seq<char>, Seq<char>, Seq<char>)>,
    id: Seq<char>,
) -> int
    decreases acc.len(),
{
    if acc.len() == 0 {
        -1
    } else if acc[0].0 == id {
        0
    } else {
        let r = accepted_index(acc.drop_first(), id);
        if r < 0 {
            -1
        } else {
            r + 1
        }
    }
}

/// One accepted package, ready to become a source.
struct Package {
    name: String,
    version: String,
    source_id: SourceId,
    source_path: String,
}

/// Collects the acceptable packages: each gets a fresh slot in the graph
/// and an entry keyed by its metadata id; a package with no acceptable
/// target is silently skipped.
fn collect_packages(metadata: &JsonValue, tree: &mut DepTree, fs: &FsView) -> (r: RtResult<
    Vec<(String, Package)>,
>)
    requires
        old(tree).wf(),
        old(tree).spec_len() == 0,
        old(tree).spec_roots().len() == 0,
    ensures
        final(tree).wf(),
        final(tree).spec_roots().len() == 0,
        forall|i: int|
            0 <= i < final(tree).spec_len() ==> final(tree).spec_source(i) is None && final(tree).spec_deps(i).len() == 0,
        ({
            let pk = metadata.spec_get("packages"@);
            &&& (r is Ok <==> (pk matches Some(a) && a is Array && (forall|m: int|
                0 <= m < a->Array_0@.len() ==> spec_package_ok(
                    #[trigger] a->Array_0@[m],
                    fs.file_set(),
                    fs.dir_set(),
                ))))
            &&& (r matches Ok(map) ==> ({
                let acc = spec_accepted(pk->Some_0->Array_0@, fs.file_set(), fs.dir_set());
                &&& final(tree).spec_len() == acc.len()
                &&& map@.len() == acc.len()
                &&& forall|m: int|
                    0 <= m < map@.len() ==> ({
                        let e = #[trigger] map@[m];
                        &&& e.0@ == acc[m].0
                        &&& e.1.name@ == acc[m].1
                        &&& e.1.version@ == acc[m].2
                        &&& e.1.source_path@ == acc[m].3
                        &&& e.1.source_id.id == m
                    })
            }))
        }),
        r matches Err(e) ==> e is BadMetadata,
{
    let packages = match as_array_from_value("packages", metadata) {
        Ok(v) => v,
        Err(e) => {
            return Err(e);
        },
    };
    tree.reserve_num_sources(packages.len());
    let ghost pkgs_view = packages@;
    let mut map: Vec<(String, Package)> = Vec::new();
    let mut k: usize = 0;
    proof {
        assert(spec_accepted(pkgs_view.take(0), fs.file_set(), fs.dir_set()) =~= Seq::<(
            Seq<char>,
            Seq<char>,
            Seq<char>,
            Seq<char>,
        )>::empty());
    }
    while k < packages.len()
        invariant
            k <= packages@.len(),
            packages@ == pkgs_view,
            metadata.spec_get("packages"@) is Some,
            metadata.spec_get("packages"@)->Some_0 is Array,
            metadata.spec_get("packages"@)->Some_0->Array_0@ == pkgs_view,
            tree.wf(),
            tree.spec_roots().len() == 0,
            tree.spec_len() <= k,
            forall|i: int|
                0 <= i < tree.spec_len() ==> tree.spec_source(i) is None && tree.spec_deps(
                    i,
                ).len() == 0,
            forall|m: int|
                0 <= m < k ==> spec_package_ok(
                    #[trigger] pkgs_view[m],
                    fs.file_set(),
                    fs.dir_set(),
                ),
            ({
                let acc = spec_accepted(pkgs_view.take(k as int), fs.file_set(), fs.dir_set());
                &&& tree.spec_len() == acc.len()
                &&& map@.len() == acc.len()
                &&& forall|m: int|
                    0 <= m < map@.len() ==> ({
                        let e = #[trigger] map@[m];
                        &&& e.0@ == acc[m].0
                        &&& e.1.name@ == acc[m].1
                        &&& e.1.version@ == acc[m].2
                        &&& e.1.source_path@ == acc[m].3
                        &&& e.1.source_id.id == m
                    })
            }),
        decreases packages@.len() - k,
    {
        let package = &packages[k];
        proof {
            assert(*package == pkgs_view[k as int]);
        }
        let id = match as_str_from_value("id", package) {
            Ok(v) => v,
            Err(e) => {
                proof {
                    assert(!spec_package_ok(pkgs_view[k as int], fs.file_set(), fs.dir_set()));
                }
                return Err(e);
            },
        };
        let name = match as_str_from_value("name", package) {
            Ok(v) => v,
            Err(e) => {
                proof {
                    assert(!spec_package_ok(pkgs_view[k as int], fs.file_set(), fs.dir_set()));
                }
                return Err(e);
            },
        };
        let version = match as_str_from_value("version", package) {
            Ok(v) => v,
            Err(e) => {
                proof {
                    assert(!spec_package_ok(pkgs_view[k as int], fs.file_set(), fs.dir_set()));
                }
                return Err(e);
            },
        };
        if !crate::types::version_text_ok(version) {
            proof {
                assert(!spec_package_ok(pkgs_view[k as int], fs.file_set(), fs.dir_set()));
            }
            return Err(
                RtErr::BadMetadata { key: "version".to_owned(), context: id.to_owned() },
            );
        }
        let sp = match source_path(package, fs) {
            Ok(Some(p)) => p,
            Ok(None) => {
                k = k + 1;
                proof {
                    let cur = pkgs_view.take(k as int);
                    assert(cur.drop_last() =~= pkgs_view.take(k as int - 1));
                    assert(cur.last() == pkgs_view[k as int - 1]);
                    assert(spec_accepted(cur, fs.file_set(), fs.dir_set()) =~= spec_accepted(
                        pkgs_view.take(k as int - 1),
                        fs.file_set(),
                        fs.dir_set(),
                    ));
                }
                continue ;
            },
            Err(e) => {
                proof {
                    assert(!spec_package_ok(pkgs_view[k as int], fs.file_set(), fs.dir_set()));
                }
                return Err(e);
            },
        };
        let source_id = tree.new_source();
        let entry = Package {
            name: name.to_owned(),
            version: version.to_owned(),
            source_id,
            source_path: sp,
        };
        map.push((id.to_owned(), entry));
        k = k + 1;
        proof {
            let cur = pkgs_view.take(k as int);
            assert(cur.drop_last() =~= pkgs_view.take(k as int - 1));
            assert(cur.last() == pkgs_view[k as int - 1]);
            let acc = spec_accepted(cur, fs.file_set(), fs.dir_set());
            let pre = spec_accepted(pkgs_view.take(k as int - 1), fs.file_set(), fs.dir_set());
            assert(acc =~= pre.push(
                (
                    pkgs_view[k as int - 1].spec_get("id"@)->Some_0->Str_0@,
                    pkgs_view[k as int - 1].spec_get("name"@)->Some_0->Str_0@,
                    pkgs_view[k as int - 1].spec_get("version"@)->Some_0->Str_0@,
                    spec_source_path(
                        pkgs_view[k as int - 1],
                        fs.file_set(),
                        fs.dir_set(),
                    )->Chosen_0,
                ),
            ));
        }
    }
    proof {
        assert(pkgs_view.take(pkgs_view.len() as int) =~= pkgs_view);
    }
    Ok(map)
}

/// Whether every workspace member names an accepted package.
pub open spec fn spec_members_ok(
    members: Seq<JsonValue>,
    acc: Seq<(Seq<char>, Seq<char>, Seq<char>, Seq<char>)>,
) -> bool {
    forall|j: int|
        0 <= j < members.len() ==> ((#[trigger] members[j]) is Str && accepted_index(
            acc,
            members[j]->Str_0@,
        ) >= 0)
}

/// The accepted slot a resolve node speaks about, or -1 when its id is
/// missing, not a string, or names no accepted package.
pub open spec fn spec_node_slot(
    node: JsonValue,
    acc: Seq<(Seq<char>, Seq<char>, Seq<char>, Seq<char>)>,
) -> int {
    match node.spec_get("id"@) {
        Some(v) => if v is Str {
            accepted_index(acc, v->Str_0@)
        } else {
            -1
        },
        None => -1,
    }
}

/// Whether one resolve node is well-shaped: a string id, and, when it
/// names an accepted package, a dependency list of strings.
pub open spec fn spec_node_ok(
    node: JsonValue,
    acc: Seq<(Seq<char>, Seq<char>, Seq<char>, Seq<char>)>,
) -> bool {
    &&& (node.spec_get("id"@) matches Some(v) && v is Str)
    &&& (spec_node_slot(node, acc) >= 0 ==> (node.spec_get("dependencies"@) matches Some(d) && d
        is Array && (forall|m: int| 0 <= m < d->Array_0@.len() ==> (#[trigger] d->Array_0@[m])
        is Str)))
}

/// The accepted slots a node's dependency list resolves to; an entry that
/// names no accepted package contributes nothing.
pub open spec fn node_dep_set(
    node: JsonValue,
    acc: Seq<(Seq<char>, Seq<char>, Seq<char>, Seq<char>)>,
) -> Set<int> {
    Set::new(
        |j: int|
            0 <= j && exists|m: int|
                {
                    &&& 0 <= m
                        < node.spec_get("dependencies"@)->Some_0->Array_0@.len()
                    &&& (#[trigger] node.spec_get("dependencies"@)->Some_0->Array_0@[m]) is Str
                    &&& accepted_index(
                        acc,
                        node.spec_get("dependencies"@)->Some_0->Array_0@[m]->Str_0@,
                    ) == j
                },
    )
}

/// No two members name one accepted package.
pub open spec fn spec_members_distinct(
    members: Seq<JsonValue>,
    acc: Seq<(Seq<char>, Seq<char>, Seq<char>, Seq<char>)>,
) -> bool {
    forall|j1: int, j2: int|
        0 <= j1 < j2 < members.len() ==> accepted_index(acc, (#[trigger] members[j1])->Str_0@)
            != accepted_index(acc, (#[trigger] members[j2])->Str_0@)
}

/// Every node is well-shaped and no two nodes claim one accepted slot.
pub open spec fn spec_nodes_ok(
    nodes: Seq<JsonValue>,
    acc: Seq<(Seq<char>, Seq<char>, Seq<char>, Seq<char>)>,
) -> bool {
    &&& (forall|kk: int| 0 <= kk < nodes.len() ==> spec_node_ok(#[trigger] nodes[kk], acc))
    &&& (forall|k1: int, k2: int|
        0 <= k1 < k2 < nodes.len() && spec_node_slot(#[trigger] nodes[k1], acc) >= 0
            && spec_node_slot(#[trigger] nodes[k2], acc) >= 0 ==> spec_node_slot(nodes[k1], acc)
            != spec_node_slot(nodes[k2], acc))
}

/// The resolve table exists and its nodes are well-shaped.
pub open spec fn spec_resolve_ok(
    metadata: JsonValue,
    acc: Seq<(Seq<char>, Seq<char>, Seq<char>, Seq<char>)>,
) -> bool {
    &&& metadata.spec_get("resolve"@) is Some
    &&& metadata.spec_get("resolve"@)->Some_0.spec_get("nodes"@) is Some
    &&& metadata.spec_get("resolve"@)->Some_0.spec_get("nodes"@)->Some_0 is Array
    &&& spec_nodes_ok(
        metadata.spec_get("resolve"@)->Some_0.spec_get("nodes"@)->Some_0->Array_0@,
        acc,
    )
}

/// Whether members and resolve nodes are well-shaped for the accepted
/// packages: every member resolves; under `omit_deps` no member repeats;
/// otherwise the resolve nodes exist, each is well-shaped, and no two
/// nodes claim one slot.
pub open spec fn spec_build_ok(
    metadata: JsonValue,
    acc: Seq<(Seq<char>, Seq<char>, Seq<char>, Seq<char>)>,
    omit_deps: bool,
) -> bool {
    &&& metadata.spec_get("workspace_members"@) is Some
    &&& metadata.spec_get("workspace_members"@)->Some_0 is Array
    &&& spec_members_ok(metadata.spec_get("workspace_members"@)->Some_0->Array_0@, acc)
    &&& (omit_deps ==> spec_members_distinct(
        metadata.spec_get("workspace_members"@)->Some_0->Array_0@,
        acc,
    ))
    &&& (!omit_deps ==> spec_resolve_ok(metadata, acc))
}

/// Every stored source carries its accepted package's name, version and
/// directory, and knows whether it is a root.
pub open spec fn tree_matches_accepted(
    t: DepTree,
    acc: Seq<(Seq<char>, Seq<char>, Seq<char>, Seq<char>)>,
) -> bool {
    forall|i: int|
        0 <= i < t.spec_len() ==> ((#[trigger] t.spec_source(i)) matches Some(src) ==> (src.name@
            == acc[i].1 && src.version@ == acc[i].2 && src.dir@ == acc[i].3 && src.is_root
            == id_set(t.spec_roots()).contains(i)))
}

/// The roots are exactly the members' accepted slots, in member order.
pub open spec fn roots_match_members(
    t: DepTree,
    members: Seq<JsonValue>,
    acc: Seq<(Seq<char>, Seq<char>, Seq<char>, Seq<char>)>,
) -> bool {
    &&& t.spec_roots().len() == members.len()
    &&& (forall|j: int|
        0 <= j < members.len() ==> (#[trigger] t.spec_roots()[j]).id as int == accepted_index(
            acc,
            members[j]->Str_0@,
        ))
}

/// A slot is stored exactly when some resolve node claims it.
pub open spec fn slots_match_nodes(
    t: DepTree,
    nodes: Seq<JsonValue>,
    acc: Seq<(Seq<char>, Seq<char>, Seq<char>, Seq<char>)>,
) -> bool {
    forall|i: int|
        0 <= i < t.spec_len() ==> ((#[trigger] t.spec_source(i)) is Some <==> exists|kk: int|
            0 <= kk < nodes.len() && spec_node_slot(#[trigger] nodes[kk], acc) == i)
}

/// Every claiming node's slot holds exactly its resolved dependency ids,
/// ascending.
pub open spec fn deps_match_nodes(
    t: DepTree,
    nodes: Seq<JsonValue>,
    acc: Seq<(Seq<char>, Seq<char>, Seq<char>, Seq<char>)>,
) -> bool {
    forall|kk: int|
        0 <= kk < nodes.len() && spec_node_slot(#[trigger] nodes[kk], acc) >= 0 ==> ({
            let sid = spec_node_slot(nodes[kk], acc);
            &&& crate::types::strictly_increasing_ids(t.spec_deps(sid))
            &&& id_set(t.spec_deps(sid)) == node_dep_set(nodes[kk], acc)
        })
}

/// A slot is stored exactly when it is a root (the `omit_deps` shape).
pub open spec fn slots_match_roots(t: DepTree) -> bool {
    forall|i: int|
        0 <= i < t.spec_len() ==> ((#[trigger] t.spec_source(i)) is Some <==> id_set(
            t.spec_roots(),
        ).contains(i))
}

pub proof fn lemma_accepted_index(
    acc: Seq<(Seq<char>, Seq<char>, Seq<char>, Seq<char>)>,
    id: Seq<char>,
)
    ensures
        -1 <= accepted_index(acc, id) < acc.len(),
        accepted_index(acc, id) >= 0 ==> acc[accepted_index(acc, id)].0 == id,
    decreases acc.len(),
{
    if acc.len() > 0 && acc[0].0 != id {
        lemma_accepted_index(acc.drop_first(), id);
    }
}

/// The map lookup and the accepted-list lookup agree: the map's keys are
/// the accepted ids, in order.
proof fn lemma_index_agree(
    map: Seq<(String, Package)>,
    acc: Seq<(Seq<char>, Seq<char>, Seq<char>, Seq<char>)>,
    id: Seq<char>,
)
    requires
        map.len() == acc.len(),
        forall|m: int| 0 <= m < map.len() ==> (#[trigger] map[m]).0@ == acc[m].0,
    ensures
        crate::json::key_index(map, id) == accepted_index(acc, id),
    decreases map.len(),
{
    if map.len() > 0 {
        if map[0].0@ == id {
        } else {
            assert forall|m: int|
                0 <= m < map.drop_first().len() implies (#[trigger] map.drop_first()[m]).0@
                == acc.drop_first()[m].0 by {
                assert(map.drop_first()[m] == map[m + 1]);
                assert(acc.drop_first()[m] == acc[m + 1]);
            }
            lemma_index_agree(map.drop_first(), acc.drop_first(), id);
        }
    }
}

/// Resolves one node's dependency list to the accepted slots it names,
/// sorted ascending, each once; an entry naming no accepted package is
/// passed over, a non-string entry is malformed.
fn resolve_node_deps(
    node: &JsonValue,
    packages: &Vec<(String, Package)>,
    Ghost(acc): Ghost<Seq<(Seq<char>, Seq<char>, Seq<char>, Seq<char>)>>,
) -> (r: RtResult<Vec<SourceId>>)
    requires
        packages@.len() == acc.len(),
        forall|m: int|
            0 <= m < packages@.len() ==> ((#[trigger] packages@[m]).0@ == acc[m].0 && (
            packages@[m]).1.source_id.id == m),
    ensures
        r matches Ok(v) ==> ({
            &&& node.spec_get("dependencies"@) is Some
            &&& node.spec_get("dependencies"@)->Some_0 is Array
            &&& (forall|m: int|
                0 <= m < node.spec_get("dependencies"@)->Some_0->Array_0@.len() ==> (
                #[trigger] node.spec_get("dependencies"@)->Some_0->Array_0@[m]) is Str)
            &&& crate::types::strictly_increasing_ids(v@)
            &&& id_set(v@) == node_dep_set(*node, acc)
            &&& (forall|m: int|
                0 <= m < v@.len() ==> ((#[trigger] v@[m]).id as int) < acc.len())
        }),
        r is Err ==> (r->Err_0 is BadMetadata && !(node.spec_get("dependencies"@) is Some
            && node.spec_get("dependencies"@)->Some_0 is Array && (forall|m: int|
            0 <= m < node.spec_get("dependencies"@)->Some_0->Array_0@.len() ==> (
            #[trigger] node.spec_get("dependencies"@)->Some_0->Array_0@[m]) is Str))),
{
    let ghost n = acc.len() as int;
    let dependencies = match as_array_from_value("dependencies", node) {
        Ok(v) => v,
        Err(e) => {
            return Err(e);
        },
    };
    let ghost deps_view = dependencies@;
    let mut dep_src_ids: Vec<SourceId> = Vec::new();
    let mut d: usize = 0;
    while d < dependencies.len()
        invariant
            d <= dependencies@.len(),
            dependencies@ == deps_view,
            node.spec_get("dependencies"@) is Some,
            node.spec_get("dependencies"@)->Some_0 is Array,
            node.spec_get("dependencies"@)->Some_0->Array_0@ == deps_view,
            n == acc.len(),
            packages@.len() == acc.len(),
            forall|m: int|
                0 <= m < packages@.len() ==> ((#[trigger] packages@[m]).0@ == acc[m].0 && (
                packages@[m]).1.source_id.id == m),
            forall|m: int| 0 <= m < d ==> (#[trigger] deps_view[m]) is Str,
            forall|m: int|
                0 <= m < dep_src_ids@.len() ==> ((#[trigger] dep_src_ids@[m]).id as int) < n,
            forall|j: int|
                #[trigger] id_set(dep_src_ids@).contains(j) <==> (0 <= j && exists|m: int|
                    0 <= m < d && (#[trigger] deps_view[m]) is Str && accepted_index(
                        acc,
                        deps_view[m]->Str_0@,
                    ) == j),
        decreases dependencies@.len() - d,
    {
        let dep = &dependencies[d];
        proof {
            assert(*dep == deps_view[d as int]);
        }
        let dep_id = match dep.as_str() {
            Some(s) => s,
            None => {
                return Err(
                    RtErr::BadMetadata {
                        key: "dependencies".to_owned(),
                        context: "not a string".to_owned(),
                    },
                );
            },
        };
        let ghost before = dep_src_ids@;
        match assoc_get(packages, dep_id) {
            Some(dp) => {
                proof {
                    crate::json::lemma_key_index(packages@, dep_id@);
                    lemma_index_agree(packages@, acc, dep_id@);
                    let idx = crate::json::key_index(packages@, dep_id@);
                    assert(packages@[idx].1 == *dp);
                    assert((dp.source_id.id as int) == accepted_index(acc, dep_id@));
                    assert((dp.source_id.id as int) < n);
                }
                dep_src_ids.push(dp.source_id);
            },
            None => {
                proof {
                    crate::json::lemma_key_index(packages@, dep_id@);
                    lemma_index_agree(packages@, acc, dep_id@);
                    assert(accepted_index(acc, dep_id@) == -1);
                }
            },
        }
        d = d + 1;
        proof {
            assert forall|j: int|
                #[trigger] id_set(dep_src_ids@).contains(j) <==> (0 <= j && exists|m: int|
                    0 <= m < d && (#[trigger] deps_view[m]) is Str && accepted_index(
                        acc,
                        deps_view[m]->Str_0@,
                    ) == j) by {
                lemma_id_set_contains_here(dep_src_ids@, j);
                lemma_id_set_contains_here(before, j);
                if id_set(dep_src_ids@).contains(j) {
                    let m = choose|m: int|
                        0 <= m < dep_src_ids@.len() && (#[trigger] dep_src_ids@[m]).id as int
                            == j;
                    if m < before.len() {
                        assert(before[m].id as int == j);
                        assert(id_set(before).contains(j));
                    } else {
                        assert(accepted_index(acc, deps_view[d as int - 1]->Str_0@) == j);
                    }
                }
                if 0 <= j && exists|m: int|
                    0 <= m < d && (#[trigger] deps_view[m]) is Str && accepted_index(
                        acc,
                        deps_view[m]->Str_0@,
                    ) == j {
                    let m = choose|m: int|
                        0 <= m < d && (#[trigger] deps_view[m]) is Str && accepted_index(
                            acc,
                            deps_view[m]->Str_0@,
                        ) == j;
                    if m < d - 1 {
                        assert(id_set(before).contains(j));
                        let mm = choose|mm: int|
                            0 <= mm < before.len() && (#[trigger] before[mm]).id as int == j;
                        assert(dep_src_ids@[mm].id as int == j);
                    } else {
                        if accepted_index(acc, deps_view[d as int - 1]->Str_0@) >= 0 {
                            assert(dep_src_ids@[dep_src_ids@.len() - 1].id as int == j);
                        } else {
                            assert(id_set(before).contains(j));
                        }
                    }
                }
            }
        }
    }
    proof {
        assert(id_set(dep_src_ids@) =~= node_dep_set(*node, acc));
    }
    let ghost raw_ids = dep_src_ids@;
    crate::types::unique_sources(&mut dep_src_ids);
    proof {
        assert(id_set(dep_src_ids@) =~= id_set(raw_ids)) by {
            assert forall|j: int|
                #[trigger] id_set(dep_src_ids@).contains(j) implies id_set(raw_ids).contains(
                j,
            ) by {
                lemma_id_set_contains_here(dep_src_ids@, j);
                lemma_id_set_contains_here(raw_ids, j);
                let m = choose|m: int|
                    0 <= m < dep_src_ids@.len() && (#[trigger] dep_src_ids@[m]).id as int == j;
                let x = dep_src_ids@[m];
                assert(dep_src_ids@.contains(x));
                assert(raw_ids.to_set().contains(x));
                assert(raw_ids.contains(x));
                let mm = choose|mm: int| 0 <= mm < raw_ids.len() && raw_ids[mm] == x;
                assert(raw_ids[mm].id as int == j);
            }
            assert forall|j: int|
                #[trigger] id_set(raw_ids).contains(j) implies id_set(dep_src_ids@).contains(
                j,
            ) by {
                lemma_id_set_contains_here(dep_src_ids@, j);
                lemma_id_set_contains_here(raw_ids, j);
                let m = choose|m: int|
                    0 <= m < raw_ids.len() && (#[trigger] raw_ids[m]).id as int == j;
                let x = raw_ids[m];
                assert(raw_ids.contains(x));
                assert(dep_src_ids@.to_set().contains(x));
                assert(dep_src_ids@.contains(x));
                let mm = choose|mm: int| 0 <= mm < dep_src_ids@.len() && dep_src_ids@[mm] == x;
                assert(dep_src_ids@[mm].id as int == j);
            }
        }
        assert forall|m: int|
            0 <= m < dep_src_ids@.len() implies ((#[trigger] dep_src_ids@[m]).id as int) < n by {
            let x = dep_src_ids@[m];
            assert(dep_src_ids@.contains(x));
            assert(raw_ids.to_set().contains(x));
            assert(raw_ids.contains(x));
            let mm = choose|mm: int| 0 <= mm < raw_ids.len() && raw_ids[mm] == x;
            assert(raw_ids[mm].id < n);
        }
    }
    Ok(dep_src_ids)
}

/// Whether the given id stands among the roots.
fn is_root_of(roots: &Vec<SourceId>, id: SourceId) -> (r: bool)
    ensures
        r == id_set(roots@).contains(id.id as int),
{
    let mut ri: usize = 0;
    while ri < roots.len()
        invariant
            ri <= roots@.len(),
            forall|m: int| 0 <= m < ri ==> (#[trigger] roots@[m]).id != id.id,
        decreases roots@.len() - ri,
    {
        if roots[ri].id == id.id {
            proof {
                lemma_id_set_contains_here(roots@, id.id as int);
                assert(roots@[ri as int].id == id.id);
            }
            return true;
        }
        ri = ri + 1;
    }
    proof {
        lemma_id_set_contains_here(roots@, id.id as int);
        if id_set(roots@).contains(id.id as int) {
            let m = choose|m: int| 0 <= m < roots@.len() && (#[trigger] roots@[m]).id as int == id.id as int;
        }
    }
    false
}

/// After one node's source and edges are stored, the slot and content
/// characterizations extend from the first `k` nodes to the first `k + 1`.
proof fn lemma_store_node_step(
    pre: DepTree,
    post: DepTree,
    nodes_view: Seq<JsonValue>,
    acc: Seq<(Seq<char>, Seq<char>, Seq<char>, Seq<char>)>,
    k: int,
    sid: int,
    deps: Seq<SourceId>,
    n: int,
)
    requires
        0 <= k < nodes_view.len(),
        n == acc.len(),
        pre.spec_len() == n,
        post.spec_len() == n,
        sid == spec_node_slot(nodes_view[k], acc),
        0 <= sid < n,
        pre.spec_source(sid) is None,
        post.spec_source(sid) is Some,
        forall|i: int|
            0 <= i < n && i != sid ==> #[trigger] post.spec_source(i) == pre.spec_source(i),
        post.spec_deps(sid) == deps,
        forall|i: int| 0 <= i < n && i != sid ==> #[trigger] post.spec_deps(i) == pre.spec_deps(i),
        crate::types::strictly_increasing_ids(deps),
        id_set(deps) == node_dep_set(nodes_view[k], acc),
        forall|i: int|
            0 <= i < n ==> ((#[trigger] pre.spec_source(i)) is Some <==> (exists|kk: int|
                0 <= kk < k && spec_node_slot(#[trigger] nodes_view[kk], acc) == i)),
        forall|kk: int|
            0 <= kk < k && spec_node_slot(#[trigger] nodes_view[kk], acc) >= 0 ==> ({
                let s2 = spec_node_slot(nodes_view[kk], acc);
                &&& crate::types::strictly_increasing_ids(pre.spec_deps(s2))
                &&& id_set(pre.spec_deps(s2)) == node_dep_set(nodes_view[kk], acc)
            }),
    ensures
        forall|i: int|
            0 <= i < n ==> ((#[trigger] post.spec_source(i)) is Some <==> (exists|kk: int|
                0 <= kk < k + 1 && spec_node_slot(#[trigger] nodes_view[kk], acc) == i)),
        forall|kk: int|
            0 <= kk < k + 1 && spec_node_slot(#[trigger] nodes_view[kk], acc) >= 0 ==> ({
                let s2 = spec_node_slot(nodes_view[kk], acc);
                &&& crate::types::strictly_increasing_ids(post.spec_deps(s2))
                &&& id_set(post.spec_deps(s2)) == node_dep_set(nodes_view[kk], acc)
            }),
{
    assert forall|i: int|
        0 <= i < n implies ((#[trigger] post.spec_source(i)) is Some <==> (exists|kk: int|
            0 <= kk < k + 1 && spec_node_slot(#[trigger] nodes_view[kk], acc) == i)) by {
        if post.spec_source(i) is Some {
            if i == sid {
                assert(spec_node_slot(nodes_view[k], acc) == i);
            } else {
                let kk = choose|kk: int|
                    0 <= kk < k && spec_node_slot(#[trigger] nodes_view[kk], acc) == i;
                assert(0 <= kk < k + 1 && spec_node_slot(nodes_view[kk], acc) == i);
            }
        }
        if exists|kk: int| 0 <= kk < k + 1 && spec_node_slot(#[trigger] nodes_view[kk], acc) == i {
            let kk = choose|kk: int|
                0 <= kk < k + 1 && spec_node_slot(#[trigger] nodes_view[kk], acc) == i;
            if kk < k {
                assert(pre.spec_source(i) is Some);
            } else {
                assert(i == sid);
            }
        }
    }
    assert forall|kk: int|
        0 <= kk < k + 1 && spec_node_slot(#[trigger] nodes_view[kk], acc) >= 0 implies ({
        let s2 = spec_node_slot(nodes_view[kk], acc);
        &&& crate::types::strictly_increasing_ids(post.spec_deps(s2))
        &&& id_set(post.spec_deps(s2)) == node_dep_set(nodes_view[kk], acc)
    }) by {
        if kk < k {
            let s2 = spec_node_slot(nodes_view[kk], acc);
            lemma_accepted_index(acc, nodes_view[kk].spec_get("id"@)->Some_0->Str_0@);
            assert(0 <= s2 < n);
            assert(s2 != sid);
            assert(post.spec_deps(s2) == pre.spec_deps(s2));
        }
    }
}

/// Builds the graph: the workspace members become the roots; each resolve
/// node stores its source and its dependency edges. A node or a dependency
/// naming a skipped package is passed over; a repeated node is malformed.
#[verifier::rlimit(100)]
fn build_dep_tree(
    metadata: &JsonValue,
    packages: &Vec<(String, Package)>,
    config: &Config,
    cache_dir: &str,
    fs: &FsView,
    tree: &mut DepTree,
) -> (r: RtResult<()>)
    requires
        old(tree).wf(),
        old(tree).spec_roots().len() == 0,
        forall|i: int|
            0 <= i < old(tree).spec_len() ==> old(tree).spec_source(i) is None && old(tree).spec_deps(i).len() == 0,
        ({
            let pk = metadata.spec_get("packages"@);
            &&& pk is Some
            &&& pk->Some_0 is Array
            &&& ({
                let acc = spec_accepted(pk->Some_0->Array_0@, fs.file_set(), fs.dir_set());
                &&& old(tree).spec_len() == acc.len()
                &&& packages@.len() == acc.len()
                &&& forall|m: int|
                    0 <= m < packages@.len() ==> ({
                        let e = #[trigger] packages@[m];
                        &&& e.0@ == acc[m].0
                        &&& e.1.name@ == acc[m].1
                        &&& e.1.version@ == acc[m].2
                        &&& e.1.source_path@ == acc[m].3
                        &&& e.1.source_id.id == m
                    })
            })
        }),
    ensures
        final(tree).wf(),
        final(tree).spec_len() == old(tree).spec_len(),
        r is Err ==> r->Err_0 is BadMetadata,
        ({
            let acc = spec_accepted(
                metadata.spec_get("packages"@)->Some_0->Array_0@,
                fs.file_set(),
                fs.dir_set(),
            );
            let members = metadata.spec_get("workspace_members"@)->Some_0->Array_0@;
            let nodes = metadata.spec_get("resolve"@)->Some_0.spec_get("nodes"@)->Some_0->Array_0@;
            &&& (r is Ok <==> spec_build_ok(*metadata, acc, config.omit_deps))
            &&& (r is Ok ==> roots_match_members(*final(tree), members, acc))
            &&& (r is Ok ==> tree_matches_accepted(*final(tree), acc))
            &&& (r is Ok && config.omit_deps ==> slots_match_roots(*final(tree)))
            &&& (r is Ok && !config.omit_deps ==> slots_match_nodes(*final(tree), nodes, acc)
                && deps_match_nodes(*final(tree), nodes, acc))
        }),
{
    let ghost n = old(tree).spec_len();
    let ghost acc = spec_accepted(
        metadata.spec_get("packages"@)->Some_0->Array_0@,
        fs.file_set(),
        fs.dir_set(),
    );
    let members = match as_array_from_value("workspace_members", metadata) {
        Ok(v) => v,
        Err(e) => {
            return Err(e);
        },
    };
    let ghost members_view = members@;
    let mut root_ids: Vec<SourceId> = Vec::new();
    let mut k: usize = 0;
    while k < members.len()
        invariant
            k <= members@.len(),
            members@ == members_view,
            metadata.spec_get("workspace_members"@) is Some,
            metadata.spec_get("workspace_members"@)->Some_0 is Array,
            metadata.spec_get("workspace_members"@)->Some_0->Array_0@ == members_view,
            metadata.spec_get("packages"@) is Some,
            metadata.spec_get("packages"@)->Some_0 is Array,
            acc == spec_accepted(
                metadata.spec_get("packages"@)->Some_0->Array_0@,
                fs.file_set(),
                fs.dir_set(),
            ),
            tree.wf(),
            tree.spec_len() == n,
            n == old(tree).spec_len(),
            n == acc.len(),
            tree.spec_roots().len() == 0,
            packages@.len() == acc.len(),
            forall|m: int|
                0 <= m < packages@.len() ==> ({
                    let e = #[trigger] packages@[m];
                    &&& e.0@ == acc[m].0
                    &&& e.1.name@ == acc[m].1
                    &&& e.1.version@ == acc[m].2
                    &&& e.1.source_path@ == acc[m].3
                    &&& e.1.source_id.id == m
                }),
            forall|i: int|
                0 <= i < n ==> (tree.spec_source(i) is None ==> tree.spec_deps(i).len() == 0),
            root_ids@.len() == k,
            forall|j: int|
                0 <= j < k ==> ((#[trigger] members_view[j]) is Str && accepted_index(
                    acc,
                    members_view[j]->Str_0@,
                ) >= 0),
            forall|j: int|
                0 <= j < k ==> ((#[trigger] root_ids@[j]).id as int == accepted_index(
                    acc,
                    members_view[j]->Str_0@,
                ) && (root_ids@[j]).id < n),
            config.omit_deps ==> (forall|j1: int, j2: int|
                0 <= j1 < j2 < k ==> (#[trigger] root_ids@[j1]).id != (
                #[trigger] root_ids@[j2]).id),
            config.omit_deps ==> (forall|i: int|
                0 <= i < n ==> ((#[trigger] tree.spec_source(i)) is Some <==> (exists|j: int|
                    0 <= j < k && (#[trigger] root_ids@[j]).id as int == i))),
            !config.omit_deps ==> (forall|i: int|
                0 <= i < n ==> (#[trigger] tree.spec_source(i)) is None),
            forall|i: int|
                0 <= i < n ==> ((#[trigger] tree.spec_source(i)) matches Some(src) ==> (src.name@
                    == acc[i].1 && src.version@ == acc[i].2 && src.dir@ == acc[i].3
                    && src.is_root)),
        decreases members@.len() - k,
    {
        let member = &members[k];
        proof {
            assert(*member == members_view[k as int]);
        }
        let member_id = match member.as_str() {
            Some(s) => s,
            None => {
                return Err(
                    RtErr::BadMetadata {
                        key: "workspace_members".to_owned(),
                        context: "not a string".to_owned(),
                    },
                );
            },
        };
        let pkg = match assoc_get(packages, member_id) {
            Some(p) => p,
            None => {
                proof {
                    crate::json::lemma_key_index(packages@, member_id@);
                    lemma_index_agree(packages@, acc, member_id@);
                    assert(accepted_index(acc, members_view[k as int]->Str_0@) == -1);
                }
                return Err(
                    RtErr::BadMetadata {
                        key: "workspace_members".to_owned(),
                        context: member_id.to_owned(),
                    },
                );
            },
        };
        proof {
            crate::json::lemma_key_index(packages@, member_id@);
            lemma_index_agree(packages@, acc, member_id@);
            let idx = crate::json::key_index(packages@, member_id@);
            assert(packages@[idx].1 == *pkg);
            assert((pkg.source_id.id as int) == accepted_index(acc, member_id@));
            assert((pkg.source_id.id as int) < n);
        }
        let ghost rids_before = root_ids@;
        root_ids.push(pkg.source_id);
        if config.omit_deps {
            let already_set = match tree.source(pkg.source_id) {
                Some(_) => true,
                None => false,
            };
            if already_set {
                proof {
                    let i = pkg.source_id.id as int;
                    let j = choose|j: int|
                        0 <= j < k && (#[trigger] rids_before[j]).id as int == i;
                    assert(accepted_index(acc, members_view[j]->Str_0@) == accepted_index(
                        acc,
                        members_view[k as int]->Str_0@,
                    ));
                    assert(!spec_build_ok(*metadata, acc, config.omit_deps));
                }
                return Err(
                    RtErr::BadMetadata {
                        key: "workspace_members".to_owned(),
                        context: "repeated member".to_owned(),
                    },
                );
            }
            let sv = SourceVersion::new(pkg.name.clone(), pkg.version.clone());
            let src = Source::new(
                pkg.source_id,
                &sv,
                pkg.source_path.as_str(),
                true,
                &config.tags_spec,
                cache_dir,
                fs,
            );
            tree.set_source(src, Vec::new());
            proof {
                assert forall|i: int|
                    0 <= i < n implies ((#[trigger] tree.spec_source(i)) is Some <==> (exists|
                    j: int,
                |
                    0 <= j < k + 1 && (#[trigger] root_ids@[j]).id as int == i)) by {
                    if tree.spec_source(i) is Some {
                        if i == pkg.source_id.id as int {
                            assert(root_ids@[k as int].id as int == i);
                        } else {
                            let j = choose|j: int|
                                0 <= j < k && (#[trigger] rids_before[j]).id as int == i;
                            assert(root_ids@[j] == rids_before[j]);
                            assert(0 <= j < k + 1 && root_ids@[j].id as int == i);
                        }
                    }
                    if exists|j: int| 0 <= j < k + 1 && (#[trigger] root_ids@[j]).id as int == i {
                        let j = choose|j: int|
                            0 <= j < k + 1 && (#[trigger] root_ids@[j]).id as int == i;
                    }
                }
            }
        }
        k = k + 1;
    }
    proof {
        assert(spec_members_ok(members_view, acc));
    }
    let ghost roots_view = root_ids@;
    tree.set_roots(root_ids);
    if config.omit_deps {
        proof {
            assert(spec_build_ok(*metadata, acc, config.omit_deps)) by {
                assert forall|j1: int, j2: int|
                    0 <= j1 < j2 < members_view.len() implies accepted_index(
                    acc,
                    (#[trigger] members_view[j1])->Str_0@,
                ) != accepted_index(acc, (#[trigger] members_view[j2])->Str_0@) by {
                    assert(roots_view[j1].id != roots_view[j2].id);
                }
            }
            assert forall|i: int|
                0 <= i < n implies ((#[trigger] tree.spec_source(i)) is Some <==> id_set(
                tree.spec_roots(),
            ).contains(i)) by {
                crate::dep_tree::lemma_id_set_contains(roots_view, i);
            }
            assert forall|i: int|
                0 <= i < n implies ((#[trigger] tree.spec_source(i)) matches Some(src) ==> (
                src.name@ == acc[i].1 && src.version@ == acc[i].2 && src.dir@ == acc[i].3
                    && src.is_root == id_set(tree.spec_roots()).contains(i))) by {
                crate::dep_tree::lemma_id_set_contains(roots_view, i);
            }
        }
        return Ok(());
    }
    let resolve = match metadata.get("resolve") {
        Some(v) => v,
        None => {
            return Err(
                RtErr::BadMetadata {
                    key: "resolve".to_owned(),
                    context: "missing entry".to_owned(),
                },
            );
        },
    };
    let nodes = match as_array_from_value("nodes", resolve) {
        Ok(v) => v,
        Err(e) => {
            return Err(e);
        },
    };
    let ghost nodes_view = nodes@;
    let mut k: usize = 0;
    while k < nodes.len()
        invariant
            k <= nodes@.len(),
            nodes@ == nodes_view,
            !config.omit_deps,
            metadata.spec_get("workspace_members"@) is Some,
            metadata.spec_get("workspace_members"@)->Some_0 is Array,
            metadata.spec_get("workspace_members"@)->Some_0->Array_0@ == members_view,
            metadata.spec_get("packages"@) is Some,
            metadata.spec_get("packages"@)->Some_0 is Array,
            acc == spec_accepted(
                metadata.spec_get("packages"@)->Some_0->Array_0@,
                fs.file_set(),
                fs.dir_set(),
            ),
            metadata.spec_get("resolve"@) is Some,
            metadata.spec_get("resolve"@)->Some_0.spec_get("nodes"@) is Some,
            metadata.spec_get("resolve"@)->Some_0.spec_get("nodes"@)->Some_0 is Array,
            metadata.spec_get("resolve"@)->Some_0.spec_get("nodes"@)->Some_0->Array_0@
                == nodes_view,
            spec_members_ok(members_view, acc),
            tree.wf(),
            tree.spec_len() == n,
            n == old(tree).spec_len(),
            n == acc.len(),
            tree.spec_roots() == roots_view,
            roots_view.len() == members_view.len(),
            forall|j: int|
                0 <= j < roots_view.len() ==> ((#[trigger] roots_view[j]).id as int
                    == accepted_index(acc, members_view[j]->Str_0@) && (roots_view[j]).id < n),
            packages@.len() == acc.len(),
            forall|m: int|
                0 <= m < packages@.len() ==> ({
                    let e = #[trigger] packages@[m];
                    &&& e.0@ == acc[m].0
                    &&& e.1.name@ == acc[m].1
                    &&& e.1.version@ == acc[m].2
                    &&& e.1.source_path@ == acc[m].3
                    &&& e.1.source_id.id == m
                }),
            forall|i: int|
                0 <= i < n ==> (tree.spec_source(i) is None ==> tree.spec_deps(i).len() == 0),
            forall|kk: int| 0 <= kk < k ==> spec_node_ok(#[trigger] nodes_view[kk], acc),
            forall|k1: int, k2: int|
                0 <= k1 < k2 < k && spec_node_slot(#[trigger] nodes_view[k1], acc) >= 0
                    && spec_node_slot(#[trigger] nodes_view[k2], acc) >= 0 ==> spec_node_slot(
                    nodes_view[k1],
                    acc,
                ) != spec_node_slot(nodes_view[k2], acc),
            forall|i: int|
                0 <= i < n ==> ((#[trigger] tree.spec_source(i)) is Some <==> (exists|kk: int|
                    0 <= kk < k && spec_node_slot(#[trigger] nodes_view[kk], acc) == i)),
            forall|kk: int|
                0 <= kk < k && spec_node_slot(#[trigger] nodes_view[kk], acc) >= 0 ==> ({
                    let sid = spec_node_slot(nodes_view[kk], acc);
                    &&& crate::types::strictly_increasing_ids(tree.spec_deps(sid))
                    &&& id_set(tree.spec_deps(sid)) == node_dep_set(nodes_view[kk], acc)
                }),
            forall|i: int|
                0 <= i < n ==> ((#[trigger] tree.spec_source(i)) matches Some(src) ==> (src.name@
                    == acc[i].1 && src.version@ == acc[i].2 && src.dir@ == acc[i].3 && src.is_root
                    == id_set(roots_view).contains(i))),
        decreases nodes@.len() - k,
    {
        let node = &nodes[k];
        proof {
            assert(*node == nodes_view[k as int]);
        }
        let node_id = match as_str_from_value("id", node) {
            Ok(v) => v,
            Err(e) => {
                proof {
                    assert(!spec_node_ok(nodes_view[k as int], acc));
                }
                return Err(e);
            },
        };
        let pkg = match assoc_get(packages, node_id) {
            Some(p) => p,
            None => {
                proof {
                    crate::json::lemma_key_index(packages@, node_id@);
                    lemma_index_agree(packages@, acc, node_id@);
                    assert(spec_node_slot(nodes_view[k as int], acc) == -1);
                    assert forall|i: int|
                        0 <= i < n implies ((#[trigger] tree.spec_source(i)) is Some <==> (exists|
                        kk: int,
                    |
                        0 <= kk < k + 1 && spec_node_slot(#[trigger] nodes_view[kk], acc)
                            == i)) by {
                        if tree.spec_source(i) is Some {
                            let kk = choose|kk: int|
                                0 <= kk < k && spec_node_slot(#[trigger] nodes_view[kk], acc)
                                    == i;
                            assert(0 <= kk < k + 1 && spec_node_slot(nodes_view[kk], acc) == i);
                        }
                        if exists|kk: int|
                            0 <= kk < k + 1 && spec_node_slot(#[trigger] nodes_view[kk], acc)
                                == i {
                            let kk = choose|kk: int|
                                0 <= kk < k + 1 && spec_node_slot(#[trigger] nodes_view[kk], acc)
                                    == i;
                            assert(kk < k);
                        }
                    }
                }
                k = k + 1;
                continue ;
            },
        };
        proof {
            crate::json::lemma_key_index(packages@, node_id@);
            lemma_index_agree(packages@, acc, node_id@);
            let idx = crate::json::key_index(packages@, node_id@);
            assert(packages@[idx].1 == *pkg);
            assert((pkg.source_id.id as int) == spec_node_slot(nodes_view[k as int], acc));
            assert((pkg.source_id.id as int) < n);
        }
        let ghost sid = pkg.source_id.id as int;
        let dep_src_ids = match resolve_node_deps(node, packages, Ghost(acc)) {
            Ok(v) => v,
            Err(e) => {
                proof {
                    assert(!spec_node_ok(nodes_view[k as int], acc));
                    assert(!spec_nodes_ok(nodes_view, acc));
                    assert(!spec_build_ok(*metadata, acc, config.omit_deps));
                }
                return Err(e);
            },
        };
        let roots = tree.roots();
        let is_root = is_root_of(&roots, pkg.source_id);
        let already_set = match tree.source(pkg.source_id) {
            Some(_) => true,
            None => false,
        };
        if already_set {
            proof {
                let kk = choose|kk: int|
                    0 <= kk < k && spec_node_slot(#[trigger] nodes_view[kk], acc) == sid;
                assert(!spec_build_ok(*metadata, acc, config.omit_deps));
            }
            return Err(
                RtErr::BadMetadata {
                    key: "id".to_owned(),
                    context: "repeated resolve node".to_owned(),
                },
            );
        }
        let sv = SourceVersion::new(pkg.name.clone(), pkg.version.clone());
        let src = Source::new(
            pkg.source_id,
            &sv,
            pkg.source_path.as_str(),
            is_root,
            &config.tags_spec,
            cache_dir,
            fs,
        );
        let ghost pre = *tree;
        tree.set_source(src, dep_src_ids);
        k = k + 1;
        proof {
            assert(spec_node_ok(nodes_view[k as int - 1], acc));
            lemma_store_node_step(
                pre,
                *tree,
                nodes_view,
                acc,
                k as int - 1,
                sid,
                tree.spec_deps(sid),
                n,
            );
        }
    }
    proof {
        assert(spec_build_ok(*metadata, acc, config.omit_deps));
    }
    Ok(())
}

/// First-match index lookups over the accepted list and a source-id list
/// agree with set membership.
proof fn lemma_id_set_contains_here(v: Seq<SourceId>, i: int)
    ensures
        id_set(v).contains(i) <==> exists|k: int| 0 <= k < v.len() && (#[trigger] v[k]).id == i,
{
    crate::dep_tree::lemma_id_set_contains(v, i);
}

/// Builds the dependency graph of the whole workspace from its metadata,
/// then assigns scheduling depths. Succeeds exactly when the metadata has
/// the required shape over the given filesystem view; the resulting graph
/// then holds exactly the accepted packages the resolve nodes store, with
/// the workspace members as its roots.
#[verifier::rlimit(80)]
pub fn dependency_tree(config: &Config, metadata: &JsonValue, fs: &FsView, cache_dir: &str) -> (r:
    RtResult<DepTree>)
    ensures
        r matches Ok(t) ==> t.wf() && t.depths_settled(),
        r is Err ==> r->Err_0 is BadMetadata,
        ({
            let pk = metadata.spec_get("packages"@);
            let shape_ok = pk matches Some(a) && a is Array && (forall|m: int|
                0 <= m < a->Array_0@.len() ==> spec_package_ok(
                    #[trigger] a->Array_0@[m],
                    fs.file_set(),
                    fs.dir_set(),
                ));
            let acc = spec_accepted(pk->Some_0->Array_0@, fs.file_set(), fs.dir_set());
            let members = metadata.spec_get("workspace_members"@)->Some_0->Array_0@;
            let nodes = metadata.spec_get("resolve"@)->Some_0.spec_get("nodes"@)->Some_0->Array_0@;
            &&& (r is Ok <==> (shape_ok && spec_build_ok(*metadata, acc, config.omit_deps)))
            &&& (r matches Ok(t) ==> t.spec_len() == acc.len())
            &&& (r matches Ok(t) ==> roots_match_members(t, members, acc))
            &&& (r matches Ok(t) ==> tree_matches_accepted(t, acc))
            &&& (r matches Ok(t) ==> (config.omit_deps ==> slots_match_roots(t)))
            &&& (r matches Ok(t) ==> (!config.omit_deps ==> slots_match_nodes(t, nodes, acc)
                && deps_match_nodes(t, nodes, acc)))
        }),
{
    let mut tree = DepTree::new();
    let packages = match collect_packages(metadata, &mut tree, fs) {
        Ok(m) => m,
        Err(e) => {
            return Err(e);
        },
    };
    match build_dep_tree(metadata, &packages, config, cache_dir, fs, &mut tree) {
        Ok(()) => {},
        Err(e) => {
            return Err(e);
        },
    }
    let ghost built = tree;
    tree.compute_depths();
    proof {
        assert forall|i: int|
            0 <= i < tree.spec_len() implies #[trigger] tree.spec_source(i) == built.spec_source(
            i,
        ) by {}
        assert forall|i: int|
            0 <= i < tree.spec_len() implies #[trigger] tree.spec_deps(i) == built.spec_deps(
            i,
        ) by {}
        let acc = spec_accepted(
            metadata.spec_get("packages"@)->Some_0->Array_0@,
            fs.file_set(),
            fs.dir_set(),
        );
        let members = metadata.spec_get("workspace_members"@)->Some_0->Array_0@;
        let nodes = metadata.spec_get("resolve"@)->Some_0.spec_get("nodes"@)->Some_0->Array_0@;
        assert(tree.spec_roots() == built.spec_roots());
        assert(roots_match_members(tree, members, acc)) by {
            assert forall|j: int|
                0 <= j < members.len() implies (#[trigger] tree.spec_roots()[j]).id as int
                == accepted_index(acc, members[j]->Str_0@) by {
                assert(tree.spec_roots()[j] == built.spec_roots()[j]);
            }
        }
        assert(tree_matches_accepted(tree, acc)) by {
            assert forall|i: int|
                0 <= i < tree.spec_len() implies ((#[trigger] tree.spec_source(i)) matches Some(
                src,
            ) ==> (src.name@ == acc[i].1 && src.version@ == acc[i].2 && src.dir@ == acc[i].3
                && src.is_root == id_set(tree.spec_roots()).contains(i))) by {
                assert(tree.spec_source(i) == built.spec_source(i));
            }
        }
        if config.omit_deps {
            assert(slots_match_roots(tree)) by {
                assert forall|i: int|
                    0 <= i < tree.spec_len() implies ((#[trigger] tree.spec_source(i)) is Some
                    <==> id_set(tree.spec_roots()).contains(i)) by {
                    assert(tree.spec_source(i) == built.spec_source(i));
                }
            }
        } else {
            assert(slots_match_nodes(tree, nodes, acc)) by {
                assert forall|i: int|
                    0 <= i < tree.spec_len() implies ((#[trigger] tree.spec_source(i)) is Some
                    <==> exists|kk: int|
                        0 <= kk < nodes.len() && spec_node_slot(#[trigger] nodes[kk], acc)
                            == i) by {
                    assert(tree.spec_source(i) == built.spec_source(i));
                }
            }
            assert(deps_match_nodes(tree, nodes, acc)) by {
                assert forall|kk: int|
                    0 <= kk < nodes.len() && spec_node_slot(#[trigger] nodes[kk], acc)
                        >= 0 implies ({
                    let sid = spec_node_slot(nodes[kk], acc);
                    &&& crate::types::strictly_increasing_ids(tree.spec_deps(sid))
                    &&& id_set(tree.spec_deps(sid)) == node_dep_set(nodes[kk], acc)
                }) by {
                    let sid = spec_node_slot(nodes[kk], acc);
                    lemma_accepted_index(acc, nodes[kk].spec_get("id"@)->Some_0->Str_0@);
                    assert(tree.spec_deps(sid) == built.spec_deps(sid));
                }
            }
        }
    }
    Ok(tree)
}

} // verus!
