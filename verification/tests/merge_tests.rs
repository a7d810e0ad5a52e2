use rusty_tags::tags::{
    create_tags_command, find_reexported_crates, merge_emacs_contents, merge_vi_contents,
    tool_outcome,
};
use rusty_tags::types::{TagsExe, TagsKind, TagsSpec};

fn spec_vi() -> TagsSpec {
    TagsSpec::new(
        TagsKind::Vi,
        TagsExe::UniversalCtags(String::from("ctags")),
        String::from("rusty-tags.vi"),
        String::from("rusty-tags.emacs"),
        String::new(),
    )
    .unwrap()
}

const H1: &str = "!_TAG_FILE_FORMAT\t2\t/extended format; --format=1 will not append ;\" to lines/";
const H2: &str = "!_TAG_FILE_SORTED\t1\t/0=unsorted, 1=sorted, 2=foldcase/";

#[test]
fn vi_merge_sorts_and_drops_duplicates() {
    let lib = format!("{}\nzeta\tf\t/a/\nalpha\tf\t/b/\n", H1);
    let dep = format!("{}\nalpha\tf\t/b/\nmid\tg\t/c/\n", H1);
    let merged = merge_vi_contents(&lib, &vec![dep]);
    let expected = format!(
        "{}\n{}\nalpha\tf\t/b/\nmid\tg\t/c/\nzeta\tf\t/a/\n",
        H1, H2
    );
    assert_eq!(merged, expected);
    // sorted, no adjacent duplicates
    let body: Vec<&str> = merged.lines().filter(|l| !l.starts_with('!')).collect();
    for w in body.windows(2) {
        assert!(w[0] < w[1]);
    }
}

#[test]
fn vi_merge_with_no_dependencies_is_a_bitwise_copy() {
    let lib = format!("{}\nalready\tsorted\t/x/\n", H1);
    let merged = merge_vi_contents(&lib, &vec![]);
    assert_eq!(merged, lib);
}

#[test]
fn vi_merge_output_is_never_empty() {
    let merged = merge_vi_contents("", &vec![String::new()]);
    assert_eq!(merged, format!("{}\n{}\n", H1, H2));
}

#[test]
fn emacs_merge_appends_one_reference_per_dependency() {
    let lib = "lib tag bytes\n";
    let refs = vec![String::from("/cache/a-1.emacs"), String::from("/cache/b-2.emacs")];
    let merged = merge_emacs_contents(lib, &refs, "/proj/rusty-tags.emacs");
    let mark = format!("{}{}", ",inc", "lude");
    let expected = format!(
        "lib tag bytes\n/cache/a-1.emacs{m}\n/cache/b-2.emacs{m}\n",
        m = mark
    );
    assert_eq!(merged, expected);
}

#[test]
fn emacs_merge_never_references_the_destination() {
    let lib = "x\n";
    let own = String::from("/cache/self-9.emacs");
    let refs = vec![own.clone(), String::from("/cache/dep-1.emacs")];
    let merged = merge_emacs_contents(lib, &refs, &own);
    let mark = format!("{}{}", ",inc", "lude");
    assert_eq!(merged, format!("x\n/cache/dep-1.emacs{}\n", mark));
    assert!(!merged.contains(&format!("{}{}", own, mark)));
}

#[test]
fn reexport_scan_finds_declared_and_reused_crates() {
    let decl = format!("{}{} crate b;", "ext", "ern");
    let lib_rs = format!("{}\npub use b::Thing;\nmod x;\n", decl);
    let found = find_reexported_crates(Some(&lib_rs));
    assert_eq!(found, vec![String::from("b")]);
}

#[test]
fn reexport_scan_splits_on_any_whitespace() {
    let decl = format!("{}{}\tcrate  b ;;", "ext", "ern");
    let lib_rs = format!("{}\npub\tuse  b::Thing;\n", decl);
    let found = find_reexported_crates(Some(&lib_rs));
    assert_eq!(found, vec![String::from("b")]);
}

#[test]
fn reexport_scan_respects_renames_and_quotes() {
    let decl = format!("{}{} crate \"raw-name\" as alias;", "ext", "ern");
    let lib_rs = format!("{}\npub use alias::Thing;\n", decl);
    let found = find_reexported_crates(Some(&lib_rs));
    assert_eq!(found, vec![String::from("raw-name")]);
}

#[test]
fn reexport_scan_without_use_or_file_is_empty() {
    let decl = format!("{}{} crate b;", "ext", "ern");
    assert!(find_reexported_crates(Some(&decl)).is_empty());
    assert!(find_reexported_crates(Some("pub use b::Thing;\n")).is_empty());
    assert!(find_reexported_crates(None).is_empty());
}

#[test]
fn tool_outcome_classifies_failures() {
    assert!(tool_outcome(true, "", "").is_ok());
    match tool_outcome(false, "boom", "noise") {
        Err(e) => assert_eq!(e.message(), "tag tool failed: boom"),
        Ok(_) => panic!("expected a failure"),
    }
    match tool_outcome(false, "", "only stdout") {
        Err(e) => assert_eq!(e.message(), "tag tool failed: only stdout"),
        Ok(_) => panic!("expected a failure"),
    }
    match tool_outcome(false, "", "") {
        Err(e) => assert_eq!(
            e.message(),
            "tag tool failed: ctags execution failed without any stderr or stdout output"
        ),
        Ok(_) => panic!("expected a failure"),
    }
}

#[test]
fn command_line_holds_output_and_directories() {
    let spec = spec_vi();
    let argv = create_tags_command(&spec, &vec![String::from("/src/a")], "/tmp/out.vi");
    assert_eq!(
        argv,
        vec![
            String::from("ctags"),
            String::from("--recurse"),
            String::from("--languages=Rust"),
            String::from("-o"),
            String::from("/tmp/out.vi"),
            String::from("/src/a"),
        ]
    );
}

#[test]
fn emacs_command_gets_the_e_flag() {
    let spec = TagsSpec::new(
        TagsKind::Emacs,
        TagsExe::UniversalCtags(String::from("ctags")),
        String::from("rusty-tags.vi"),
        String::from("rusty-tags.emacs"),
        String::from("--exclude=target"),
    )
    .unwrap();
    let argv = spec.ctags_command();
    assert_eq!(
        argv,
        vec![
            String::from("ctags"),
            String::from("-e"),
            String::from("--recurse"),
            String::from("--exclude=target"),
            String::from("--languages=Rust"),
        ]
    );
}

#[test]
fn exuberant_command_defines_the_language() {
    let spec = TagsSpec::new(
        TagsKind::Vi,
        TagsExe::ExuberantCtags(String::from("exctags")),
        String::from("rusty-tags.vi"),
        String::from("rusty-tags.emacs"),
        String::new(),
    )
    .unwrap();
    let argv = spec.ctags_command();
    assert_eq!(argv[0], "exctags");
    assert_eq!(argv[1], "--recurse");
    assert_eq!(argv[2], "--languages=Rust");
    assert_eq!(argv[3], "--langdef=Rust");
    assert_eq!(argv[4], "--langmap=Rust:.rs");
    assert_eq!(argv.len(), 13);
}
