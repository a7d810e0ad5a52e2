use rusty_tags::config::Config;
use rusty_tags::dependencies::dependency_tree;
use rusty_tags::fs_view::FsView;
use rusty_tags::json::JsonValue;
use rusty_tags::plan::plan_rebuild;
use rusty_tags::scheduler::{update_source_tags, DepTagInput};
use rusty_tags::types::{source_hash, TagsExe, TagsKind, TagsSpec};

const H1: &str = "!_TAG_FILE_FORMAT\t2\t/extended format; --format=1 will not append ;\" to lines/";
const H2: &str = "!_TAG_FILE_SORTED\t1\t/0=unsorted, 1=sorted, 2=foldcase/";

fn jstr(s: &str) -> JsonValue {
    JsonValue::Str(s.to_string())
}

fn jarr(v: Vec<JsonValue>) -> JsonValue {
    JsonValue::Array(v)
}

fn jobj(entries: Vec<(&str, JsonValue)>) -> JsonValue {
    JsonValue::Object(entries.into_iter().map(|(k, v)| (k.to_string(), v)).collect())
}

fn package(id: &str, name: &str, version: &str, ws: &str) -> JsonValue {
    jobj(vec![
        ("id", jstr(id)),
        ("name", jstr(name)),
        ("version", jstr(version)),
        ("manifest_path", jstr(&format!("{}/Cargo.toml", ws))),
        (
            "targets",
            jarr(vec![jobj(vec![
                ("kind", jarr(vec![jstr("lib")])),
                ("src_path", jstr(&format!("{}/src/lib.rs", ws))),
            ])]),
        ),
    ])
}

fn node(id: &str, deps: Vec<&str>) -> JsonValue {
    jobj(vec![
        ("id", jstr(id)),
        ("dependencies", jarr(deps.into_iter().map(jstr).collect())),
    ])
}

fn metadata(packages: Vec<JsonValue>, members: Vec<&str>, nodes: Vec<JsonValue>) -> JsonValue {
    jobj(vec![
        ("packages", jarr(packages)),
        ("workspace_members", jarr(members.into_iter().map(jstr).collect())),
        ("resolve", jobj(vec![("nodes", jarr(nodes))])),
    ])
}

fn vi_config() -> Config {
    Config {
        tags_spec: TagsSpec::new(
            TagsKind::Vi,
            TagsExe::UniversalCtags(String::from("ctags")),
            String::from("rusty-tags.vi"),
            String::from("rusty-tags.emacs"),
            String::new(),
        )
        .unwrap(),
        start_dir: String::from("/ws"),
        output_dir_std: None,
        omit_deps: false,
        force_recreate: false,
        verbose: false,
        quiet: true,
        num_threads: 1,
    }
}

fn workspace_fs(dirs: &[&str]) -> FsView {
    let mut fs = FsView::new();
    for d in dirs {
        fs.add_dir(format!("{}/src", d));
        fs.add_dir(d.to_string());
        fs.add_file(format!("{}/src/lib.rs", d));
        fs.add_file(format!("{}/Cargo.toml", d));
    }
    fs
}

/// One crate, no dependencies: the planner selects it, its project file
/// lands beside the manifest, its cache entry is named by the directory
/// digest, and both outputs carry the tool's tags with the two headers.
#[test]
fn single_crate_workspace() {
    let id = "foo 0.1.0 (path+file:///ws)";
    let meta = metadata(
        vec![package(id, "foo", "0.1.0", "/ws")],
        vec![id],
        vec![node(id, vec![])],
    );
    let fs = workspace_fs(&["/ws"]);
    let config = vi_config();
    let tree = dependency_tree(&config, &meta, &fs, "/cache").unwrap();
    let planned = plan_rebuild(&tree, false, &fs);
    assert_eq!(planned.len(), 1);
    let src = tree.source(planned[0]).unwrap();
    assert_eq!(src.name, "foo");
    assert_eq!(src.tags_file, "/ws/rusty-tags.vi");
    let h = source_hash("/ws/src");
    assert_eq!(src.cached_tags_file, format!("/cache/foo-{}.vi", h));
    assert!(src.is_root);

    let raw = format!("{}\n{}\nfoo_fn\t/ws/src/lib.rs\t/^fn foo_fn$/\n", H1, H2);
    let (cache_out, project_out) =
        update_source_tags(&config.tags_spec, &raw, None, &vec![], &src.cached_tags_file, &src.tags_file);
    assert_eq!(cache_out, raw);
    assert_eq!(project_out, raw);
    assert!(cache_out.lines().next().unwrap().starts_with("!_TAG_FILE_FORMAT"));
}

/// Two crates, the root depending on the other: the root's project file
/// holds the union of its own tags and the dependency's cached tags; the
/// dependency's cache entry holds only its own tags.
#[test]
fn root_and_one_dependency() {
    let ida = "a 0.1.0 (path+file:///wsa)";
    let idb = "b 0.2.0 (path+file:///wsb)";
    let meta = metadata(
        vec![package(ida, "a", "0.1.0", "/wsa"), package(idb, "b", "0.2.0", "/wsb")],
        vec![ida],
        vec![node(ida, vec![idb]), node(idb, vec![])],
    );
    let fs = workspace_fs(&["/wsa", "/wsb"]);
    let config = vi_config();
    let tree = dependency_tree(&config, &meta, &fs, "/cache").unwrap();
    let planned = plan_rebuild(&tree, false, &fs);
    assert_eq!(planned.len(), 2);
    // deepest first: b before a
    let first = tree.source(planned[0]).unwrap().clone();
    let second = tree.source(planned[1]).unwrap().clone();
    assert_eq!(first.name, "b");
    assert_eq!(second.name, "a");

    let raw_b = format!("{}\n{}\nbee\t/wsb/src/lib.rs\t/^fn bee$/\n", H1, H2);
    let (b_cache, _b_proj) =
        update_source_tags(&config.tags_spec, &raw_b, None, &vec![], &first.cached_tags_file, &first.tags_file);
    assert_eq!(b_cache, raw_b);

    let raw_a = format!("{}\n{}\naye\t/wsa/src/lib.rs\t/^fn aye$/\n", H1, H2);
    let deps = vec![DepTagInput {
        name: String::from("b"),
        cached_tags_file: first.cached_tags_file.clone(),
        contents: Some(b_cache.clone()),
    }];
    let (a_cache, a_proj) =
        update_source_tags(&config.tags_spec, &raw_a, None, &deps, &second.cached_tags_file, &second.tags_file);
    // nothing re-exported: the cache holds only a's tags
    assert_eq!(a_cache, raw_a);
    let expected = format!(
        "{}\n{}\naye\t/wsa/src/lib.rs\t/^fn aye$/\nbee\t/wsb/src/lib.rs\t/^fn bee$/\n",
        H1, H2
    );
    assert_eq!(a_proj, expected);
}

/// A re-export: the declaring line plus a public use pull the dependency's
/// tags into the cached file as well.
#[test]
fn reexport_pulls_dependency_into_cache() {
    let config = vi_config();
    let raw_a = format!("{}\n{}\naye\tl\t/^fn aye$/\n", H1, H2);
    let b_cache = format!("{}\n{}\nbee\tl\t/^fn bee$/\n", H1, H2);
    let lib_rs = format!("{}{} crate b;\npub use b::Thing;\n", "ext", "ern");
    let deps = vec![DepTagInput {
        name: String::from("b"),
        cached_tags_file: String::from("/cache/b-1.vi"),
        contents: Some(b_cache),
    }];
    let (a_cache, a_proj) = update_source_tags(
        &config.tags_spec,
        &raw_a,
        Some(&lib_rs),
        &deps,
        "/cache/a-1.vi",
        "/wsa/rusty-tags.vi",
    );
    let expected = format!("{}\n{}\naye\tl\t/^fn aye$/\nbee\tl\t/^fn bee$/\n", H1, H2);
    assert_eq!(a_cache, expected);
    assert_eq!(a_proj, expected);
}

/// A missing dependency tag file (a cycle, or a skipped lock-holder) is
/// tolerated: the dependency is left out, the rest merges.
#[test]
fn missing_dependency_file_is_skipped() {
    let config = vi_config();
    let raw = format!("{}\n{}\naye\tl\t/^fn aye$/\n", H1, H2);
    let deps = vec![DepTagInput {
        name: String::from("gone"),
        cached_tags_file: String::from("/cache/gone-1.vi"),
        contents: None,
    }];
    let (cache_out, proj_out) =
        update_source_tags(&config.tags_spec, &raw, None, &deps, "/cache/a-1.vi", "/w/rusty-tags.vi");
    assert_eq!(cache_out, raw);
    assert_eq!(proj_out, raw);
}

/// A cycle in the metadata: the graph builds, the planner terminates, both
/// sources are selected.
#[test]
fn cyclic_metadata_builds_and_plans() {
    let ida = "a 0.1.0 (path+file:///wsa)";
    let idb = "b 0.2.0 (path+file:///wsb)";
    let meta = metadata(
        vec![package(ida, "a", "0.1.0", "/wsa"), package(idb, "b", "0.2.0", "/wsb")],
        vec![ida],
        vec![node(ida, vec![idb]), node(idb, vec![ida])],
    );
    let fs = workspace_fs(&["/wsa", "/wsb"]);
    let config = vi_config();
    let tree = dependency_tree(&config, &meta, &fs, "/cache").unwrap();
    let planned = plan_rebuild(&tree, false, &fs);
    assert_eq!(planned.len(), 2);
}

/// Every produced vi file passes the format validation: the two headers
/// first, the body sorted without adjacent duplicates.
#[test]
fn merged_output_passes_format_validation() {
    let config = vi_config();
    let raw = format!("{}\n{}\nzed\tl\t/z/\nabc\tl\t/a/\nabc\tl\t/a/\n", H1, H2);
    let dep = format!("{}\n{}\nmid\tl\t/m/\n", H1, H2);
    let deps = vec![DepTagInput {
        name: String::from("d"),
        cached_tags_file: String::from("/cache/d-1.vi"),
        contents: Some(dep),
    }];
    let (cache_out, proj_out) =
        update_source_tags(&config.tags_spec, &raw, None, &deps, "/cache/a-1.vi", "/w/rusty-tags.vi");
    assert_eq!(cache_out, raw);
    let mut lines = proj_out.lines();
    assert_eq!(lines.next().unwrap(), H1);
    assert_eq!(lines.next().unwrap(), H2);
    let body: Vec<&str> = lines.collect();
    assert_eq!(body, vec!["abc\tl\t/a/", "mid\tl\t/m/", "zed\tl\t/z/"]);
    for w in body.windows(2) {
        assert!(w[0] < w[1]);
    }
}

/// A package whose only target kind is unacceptable is skipped silently,
/// and a dependent naming it still resolves.
#[test]
fn unacceptable_target_is_skipped() {
    let ida = "a 0.1.0 (path+file:///wsa)";
    let idb = "weird 0.2.0 (path+file:///wsb)";
    let weird = jobj(vec![
        ("id", jstr(idb)),
        ("name", jstr("weird")),
        ("version", jstr("0.2.0")),
        ("manifest_path", jstr("/wsb/Cargo.toml")),
        (
            "targets",
            jarr(vec![jobj(vec![
                ("kind", jarr(vec![jstr("example")])),
                ("src_path", jstr("/wsb/src/lib.rs")),
            ])]),
        ),
    ]);
    let meta = metadata(
        vec![package(ida, "a", "0.1.0", "/wsa"), weird],
        vec![ida],
        vec![node(ida, vec![idb]), node(idb, vec![])],
    );
    let fs = workspace_fs(&["/wsa", "/wsb"]);
    let config = vi_config();
    let tree = dependency_tree(&config, &meta, &fs, "/cache").unwrap();
    let planned = plan_rebuild(&tree, false, &fs);
    assert_eq!(planned.len(), 1);
    assert_eq!(tree.source(planned[0]).unwrap().name, "a");
}

/// Malformed metadata is fatal with a metadata error.
#[test]
fn missing_packages_entry_is_fatal() {
    let meta = jobj(vec![("workspace_members", jarr(vec![]))]);
    let fs = FsView::new();
    let config = vi_config();
    match dependency_tree(&config, &meta, &fs, "/cache") {
        Err(e) => assert!(e.message().starts_with("bad metadata")),
        Ok(_) => panic!("expected a metadata failure"),
    }
}

/// The emacs pipeline: both outputs start with the crate's own bytes and
/// append one reference line per usable dependency file, the cache only
/// for re-exported ones.
#[test]
fn emacs_pipeline_appends_references() {
    let spec = TagsSpec::new(
        TagsKind::Emacs,
        TagsExe::UniversalCtags(String::from("ctags")),
        String::from("rusty-tags.vi"),
        String::from("rusty-tags.emacs"),
        String::new(),
    )
    .unwrap();
    let raw = "\u{c}\nlib.rs,42\n";
    let lib_rs = format!("{}{} crate b;\npub use b::Thing;\n", "ext", "ern");
    let deps = vec![
        DepTagInput {
            name: String::from("b"),
            cached_tags_file: String::from("/cache/b-1.emacs"),
            contents: Some(String::from("ignored for emacs")),
        },
        DepTagInput {
            name: String::from("c"),
            cached_tags_file: String::from("/cache/c-2.emacs"),
            contents: Some(String::from("ignored for emacs")),
        },
    ];
    let (cache_out, proj_out) = update_source_tags(
        &spec,
        raw,
        Some(&lib_rs),
        &deps,
        "/cache/a-1.emacs",
        "/wsa/rusty-tags.emacs",
    );
    let mark = format!("{}{}", ",inc", "lude");
    assert_eq!(cache_out, format!("{}/cache/b-1.emacs{}\n", raw, mark));
    assert_eq!(
        proj_out,
        format!("{r}/cache/b-1.emacs{m}\n/cache/c-2.emacs{m}\n", r = raw, m = mark)
    );
}

/// Merging twice over unchanged inputs reproduces the same bytes.
#[test]
fn second_merge_is_byte_identical() {
    let config = vi_config();
    let raw = format!("{}\n{}\nzed\tl\t/z/\n", H1, H2);
    let deps = vec![DepTagInput {
        name: String::from("d"),
        cached_tags_file: String::from("/cache/d-1.vi"),
        contents: Some(format!("{}\n{}\nabc\tl\t/a/\n", H1, H2)),
    }];
    let first = update_source_tags(&config.tags_spec, &raw, None, &deps, "/c/a.vi", "/w/t.vi");
    let second = update_source_tags(&config.tags_spec, &raw, None, &deps, "/c/a.vi", "/w/t.vi");
    assert_eq!(first.0, second.0);
    assert_eq!(first.1, second.1);
}

/// Omitting dependencies stores only the workspace members, as roots with
/// no edges; the resolve nodes are not consulted.
#[test]
fn omit_deps_stores_only_members() {
    let ida = "a 0.1.0 (path+file:///wsa)";
    let idb = "b 0.2.0 (path+file:///wsb)";
    let meta = metadata(
        vec![package(ida, "a", "0.1.0", "/wsa"), package(idb, "b", "0.2.0", "/wsb")],
        vec![ida],
        vec![node(ida, vec![idb]), node(idb, vec![])],
    );
    let fs = workspace_fs(&["/wsa", "/wsb"]);
    let mut config = vi_config();
    config.omit_deps = true;
    let tree = dependency_tree(&config, &meta, &fs, "/cache").unwrap();
    let planned = plan_rebuild(&tree, false, &fs);
    assert_eq!(planned.len(), 1);
    let src = tree.source(planned[0]).unwrap();
    assert_eq!(src.name, "a");
    assert!(src.is_root);
    assert!(tree.dependencies(src).is_empty());
}
