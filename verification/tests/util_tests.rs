use rusty_tags::config::{detect_exe_kind, effective_num_threads, effective_verbose, resolve_tag_names};
use rusty_tags::fs_view::{find_dir_upwards_containing, FsView};
use rusty_tags::paths::{path_join, path_parent, rusty_tags_cache_dir, rusty_tags_dir, rusty_tags_locks_dir};
use rusty_tags::rt_result::RtErr;
use rusty_tags::strutil::{fnv1a_of_str, lines_of, sort_dedup_lines, split_on_char, str_contains, str_lt, u64_to_dec};
use rusty_tags::types::{source_hash, Source, SourceId, SourceVersion, TagsExe, TagsKind, TagsSpec};

#[test]
fn split_and_lines_behave_like_std() {
    let parts = split_on_char("a b  c", ' ');
    assert_eq!(parts, vec!["a", "b", "", "c"]);
    assert_eq!(split_on_char("", ' '), vec![""]);
    assert_eq!(lines_of("a\nb\n"), vec!["a", "b"]);
    assert_eq!(lines_of("a\r\nb"), vec!["a", "b"]);
    assert_eq!(lines_of(""), Vec::<String>::new());
    assert_eq!(lines_of("\n"), vec![""]);
}

#[test]
fn ordering_and_search() {
    assert!(str_lt("abc", "abd"));
    assert!(str_lt("ab", "abc"));
    assert!(!str_lt("abc", "abc"));
    assert!(str_contains("Universal Ctags 5.9", "Universal Ctags"));
    assert!(!str_contains("Exuberant Ctags", "Universal Ctags"));
}

#[test]
fn sorting_dedups_everywhere_not_only_adjacent() {
    let input = vec![
        String::from("b"),
        String::from("a"),
        String::from("b"),
        String::from("c"),
        String::from("a"),
    ];
    let sorted = sort_dedup_lines(&input);
    assert_eq!(sorted, vec!["a", "b", "c"]);
}

#[test]
fn decimal_rendering_is_exact() {
    assert_eq!(u64_to_dec(0), "0");
    assert_eq!(u64_to_dec(7), "7");
    assert_eq!(u64_to_dec(1234567890), "1234567890");
    assert_eq!(u64_to_dec(u64::MAX), "18446744073709551615");
}

#[test]
fn digest_is_stable_and_input_sensitive() {
    // the 64-bit FNV-1a test vectors
    assert_eq!(fnv1a_of_str(""), 0xcbf29ce484222325);
    assert_eq!(fnv1a_of_str("a"), 0xaf63dc4c8601ec8c);
    assert_eq!(fnv1a_of_str("foobar"), 0x85944171f73967e8);
    assert_eq!(source_hash("/x"), source_hash("/x"));
    assert_ne!(source_hash("/x"), source_hash("/y"));
}

#[test]
fn paths_and_fixed_directories() {
    assert_eq!(path_join("/home/u", ".rusty-tags"), "/home/u/.rusty-tags");
    assert_eq!(path_parent("/a/b"), Some(String::from("/a")));
    assert_eq!(path_parent("/a"), Some(String::from("/")));
    assert_eq!(path_parent("/"), None);
    assert_eq!(path_parent("name"), None);
    assert_eq!(rusty_tags_dir("/home/u"), "/home/u/.rusty-tags");
    assert_eq!(rusty_tags_cache_dir("/home/u"), "/home/u/.rusty-tags/cache");
    assert_eq!(rusty_tags_locks_dir("/home/u"), "/home/u/.rusty-tags/locks");
}

#[test]
fn manifest_is_found_by_walking_upward() {
    let mut fs = FsView::new();
    fs.add_file(String::from("/ws/Cargo.toml"));
    assert_eq!(
        find_dir_upwards_containing("Cargo.toml", "/ws/member/src", &fs),
        Some(String::from("/ws"))
    );
    assert_eq!(find_dir_upwards_containing("Cargo.toml", "/elsewhere", &fs), None);
}

#[test]
fn id_parsing_accepts_real_versions_only() {
    let sv = SourceVersion::parse_from_id("dtoa 0.4.2 (registry+https://github.com/rust-lang/crates.io-index)").unwrap();
    assert_eq!(sv.name, "dtoa");
    assert_eq!(sv.version, "0.4.2");
    match SourceVersion::parse_from_id("loner") {
        Err(RtErr::BadMetadata { .. }) => {}
        _ => panic!("a single token has no version"),
    }
    match SourceVersion::parse_from_id("pkg notaversion (src)") {
        Err(RtErr::BadMetadata { .. }) => {}
        _ => panic!("the version must satisfy the semver grammar"),
    }
    assert_eq!(sv.display(), "(dtoa, 0.4.2)");
}

#[test]
fn tags_spec_rejects_equal_file_names() {
    match TagsSpec::new(
        TagsKind::Vi,
        TagsExe::UniversalCtags(String::from("ctags")),
        String::from("same"),
        String::from("same"),
        String::new(),
    ) {
        Err(RtErr::ConfigInvalid { .. }) => {}
        _ => panic!("equal names must be rejected"),
    }
    let spec = TagsSpec::new(
        TagsKind::Emacs,
        TagsExe::UniversalCtags(String::from("ctags")),
        String::from("v"),
        String::from("e"),
        String::new(),
    )
    .unwrap();
    assert_eq!(spec.file_extension(), "emacs");
    assert_eq!(spec.file_name(), "e");
}

#[test]
fn configuration_overrides_in_order() {
    let (vi, emacs) = resolve_tag_names(None, None, None, TagsKind::Vi);
    assert_eq!(vi, "rusty-tags.vi");
    assert_eq!(emacs, "rusty-tags.emacs");
    let (vi, emacs) = resolve_tag_names(
        Some(String::from("file.vi")),
        Some(String::from("file.emacs")),
        Some(String::from("cli.out")),
        TagsKind::Vi,
    );
    assert_eq!(vi, "cli.out");
    assert_eq!(emacs, "file.emacs");
    let (vi, emacs) = resolve_tag_names(None, None, Some(String::from("cli.out")), TagsKind::Emacs);
    assert_eq!(vi, "rusty-tags.vi");
    assert_eq!(emacs, "cli.out");

    assert!(!effective_verbose(true, true));
    assert!(effective_verbose(false, true));
    assert_eq!(effective_num_threads(true, Some(8), 4), 1);
    assert_eq!(effective_num_threads(false, Some(0), 4), 1);
    assert_eq!(effective_num_threads(false, Some(8), 4), 8);
    assert_eq!(effective_num_threads(false, None, 4), 4);

    match detect_exe_kind(String::from("ctags"), "Universal Ctags 5.9, derived") {
        TagsExe::UniversalCtags(e) => assert_eq!(e, "ctags"),
        _ => panic!("a universal banner selects the universal variant"),
    }
    match detect_exe_kind(String::from("ctags"), "Exuberant Ctags 5.8") {
        TagsExe::ExuberantCtags(e) => assert_eq!(e, "ctags"),
        _ => panic!("anything else selects the exuberant variant"),
    }
}

#[test]
fn error_messages_name_their_kind() {
    let e = RtErr::LockObserved { context: String::from("foo") };
    assert!(!e.is_fatal());
    assert_eq!(e.message(), "already being updated: foo");
    let e = RtErr::MissingSource { context: String::from("dep") };
    assert!(!e.is_fatal());
    let e = RtErr::CycleDetected { context: String::from("a") };
    assert!(!e.is_fatal());
    let e = RtErr::IoFailed { context: String::from("rename") };
    assert!(e.is_fatal());
    assert_eq!(e.message(), "filesystem operation failed: rename");
    let e = RtErr::ToolSpawn { context: String::from("no ctags") };
    assert!(e.is_fatal());
    assert_eq!(e.message(), "tag tool could not be spawned: no ctags");
}

#[test]
fn recreate_status_names_the_reason() {
    let fs = FsView::new();
    let spec = TagsSpec::new(
        TagsKind::Vi,
        TagsExe::UniversalCtags(String::from("ctags")),
        String::from("rusty-tags.vi"),
        String::from("rusty-tags.emacs"),
        String::new(),
    )
    .unwrap();
    let sv = SourceVersion::new(String::from("foo"), String::from("1.0.0"));
    let src = Source::new(SourceId { id: 0 }, &sv, "/w/foo", false, &spec, "/cache", &fs);
    let msg = src.recreate_status(true, &fs);
    assert_eq!(msg, "Forced recreating of tags for (foo, 1.0.0)");
    let msg = src.recreate_status(false, &fs);
    assert!(msg.contains("missing cache file"));
}
