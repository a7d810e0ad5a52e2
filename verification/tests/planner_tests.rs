use rusty_tags::dep_tree::DepTree;
use rusty_tags::scheduler::{
    holds_lock, next_state, std_lib_tags_plan, BuildEvent, BuildState, SkipReason, StdLibPlan,
};
use rusty_tags::fs_view::FsView;
use rusty_tags::plan::{depth_bands, plan_rebuild};
use rusty_tags::types::{Source, SourceId, SourceVersion, TagsExe, TagsKind, TagsSpec};

fn vi_spec() -> TagsSpec {
    TagsSpec::new(
        TagsKind::Vi,
        TagsExe::UniversalCtags(String::from("ctags")),
        String::from("rusty-tags.vi"),
        String::from("rusty-tags.emacs"),
        String::new(),
    )
    .unwrap()
}

fn mk_source(id: SourceId, name: &str, dir: &str, is_root: bool, fs: &FsView) -> Source {
    let sv = SourceVersion::new(name.to_string(), String::from("1.0.0"));
    Source::new(id, &sv, dir, is_root, &vi_spec(), "/cache", fs)
}

/// A chain root -> mid -> leaf; a missing cache file of the leaf pulls in
/// every ancestor, deepest first.
#[test]
fn missing_leaf_rebuilds_all_ancestors() {
    let fs = FsView::new();
    let mut tree = DepTree::new();
    let a = tree.new_source();
    let b = tree.new_source();
    let c = tree.new_source();
    let fsv = FsView::new();
    tree.set_source(mk_source(c, "c", "/w/c", false, &fsv), Vec::new());
    tree.set_source(mk_source(b, "b", "/w/b", false, &fsv), vec![c]);
    tree.set_source(mk_source(a, "a", "/w/a", true, &fsv), vec![b]);
    tree.set_roots(vec![a]);
    tree.compute_depths();
    let planned = plan_rebuild(&tree, false, &fs);
    let ids: Vec<usize> = planned.iter().map(|s| s.id).collect();
    // all three are dirty (no files on disk); deepest first
    assert_eq!(ids, vec![c.id, b.id, a.id]);
}

/// With every tag file present and nothing forced, only the workspace
/// member is selected: nothing else is written on a second run.
#[test]
fn second_run_selects_only_the_root() {
    let mut fs = FsView::new();
    let mut tree = DepTree::new();
    let a = tree.new_source();
    let b = tree.new_source();
    let fsv = FsView::new();
    let src_b = mk_source(b, "b", "/w/b", false, &fsv);
    let src_a = mk_source(a, "a", "/w/a", true, &fsv);
    fs.add_file(src_b.cached_tags_file.clone());
    fs.add_file(src_b.tags_file.clone());
    fs.add_file(src_a.cached_tags_file.clone());
    fs.add_file(src_a.tags_file.clone());
    tree.set_source(src_b, Vec::new());
    tree.set_source(src_a, vec![b]);
    tree.set_roots(vec![a]);
    tree.compute_depths();
    let planned = plan_rebuild(&tree, false, &fs);
    let ids: Vec<usize> = planned.iter().map(|s| s.id).collect();
    assert_eq!(ids, vec![a.id]);
}

/// Forcing recreation selects everything.
#[test]
fn force_recreate_selects_everything() {
    let mut fs = FsView::new();
    let mut tree = DepTree::new();
    let a = tree.new_source();
    let b = tree.new_source();
    let fsv = FsView::new();
    let src_b = mk_source(b, "b", "/w/b", false, &fsv);
    let src_a = mk_source(a, "a", "/w/a", true, &fsv);
    fs.add_file(src_b.cached_tags_file.clone());
    fs.add_file(src_b.tags_file.clone());
    fs.add_file(src_a.cached_tags_file.clone());
    fs.add_file(src_a.tags_file.clone());
    tree.set_source(src_b, Vec::new());
    tree.set_source(src_a, vec![b]);
    tree.set_roots(vec![a]);
    tree.compute_depths();
    let planned = plan_rebuild(&tree, true, &fs);
    assert_eq!(planned.len(), 2);
}

/// A cycle between two sources: the ancestor walk terminates and selects
/// both, each exactly once.
#[test]
fn cycle_is_selected_once_each() {
    let fs = FsView::new();
    let mut tree = DepTree::new();
    let a = tree.new_source();
    let b = tree.new_source();
    let fsv = FsView::new();
    tree.set_source(mk_source(a, "a", "/w/a", true, &fsv), vec![b]);
    tree.set_source(mk_source(b, "b", "/w/b", false, &fsv), vec![a]);
    tree.set_roots(vec![a]);
    tree.compute_depths();
    let planned = plan_rebuild(&tree, false, &fs);
    let mut ids: Vec<usize> = planned.iter().map(|s| s.id).collect();
    ids.sort();
    assert_eq!(ids, vec![a.id, b.id]);
}

/// The advisory lock decision: an existing lock file means the source is
/// observed as already locked; otherwise this run takes the lock.
#[test]
fn lock_contention_is_observed() {
    let fsv = FsView::new();
    let mut tree = DepTree::new();
    let a = tree.new_source();
    let src = mk_source(a, "foo", "/w/foo", true, &fsv);
    let spec = vi_spec();
    let mut fs = FsView::new();
    match src.lock(&spec, "/locks", &fs) {
        rusty_tags::types::SourceLock::Locked { path } => {
            assert_eq!(path, format!("/locks/foo-{}.vi", src.hash));
            fs.add_file(path);
        }
        rusty_tags::types::SourceLock::AlreadyLocked { .. } => panic!("no lock file yet"),
    }
    match src.lock(&spec, "/locks", &fs) {
        rusty_tags::types::SourceLock::AlreadyLocked { path } => {
            assert_eq!(path, format!("/locks/foo-{}.vi", src.hash));
        }
        rusty_tags::types::SourceLock::Locked { .. } => panic!("lock file is present"),
    }
}

/// The per-source state machine walks Pending to Done and refuses
/// transitions the scheduler must never take.
#[test]
fn state_machine_walks_to_done() {
    let s0 = BuildState::Pending;
    assert!(!holds_lock(s0));
    let s1 = next_state(s0, BuildEvent::LockAcquired).unwrap();
    assert_eq!(s1, BuildState::Locked);
    assert!(holds_lock(s1));
    let s2 = next_state(s1, BuildEvent::ToolFinished).unwrap();
    let s3 = next_state(s2, BuildEvent::CacheWritten).unwrap();
    let s4 = next_state(s3, BuildEvent::ProjectWritten).unwrap();
    assert!(holds_lock(s4));
    let s5 = next_state(s4, BuildEvent::Released).unwrap();
    assert_eq!(s5, BuildState::Done);
    assert!(!holds_lock(s5));
    assert_eq!(
        next_state(BuildState::Pending, BuildEvent::LockBusy).unwrap(),
        BuildState::Skipped(SkipReason::AlreadyLocked)
    );
    assert!(next_state(BuildState::Done, BuildEvent::ToolFinished).is_none());
    assert!(next_state(BuildState::Locked, BuildEvent::CacheWritten).is_none());
}

/// The standard-library side job: kept when the tag file already exists,
/// built from the candidate directories that exist, refused when none do.
#[test]
fn std_lib_plan_decisions() {
    let mut fs = FsView::new();
    fs.add_dir(String::from("/rust/core"));
    fs.add_dir(String::from("/rust/std"));
    match std_lib_tags_plan("/rust", &None, "rusty-tags.vi", false, &fs) {
        StdLibPlan::Build { src_dirs, tags_file } => {
            assert_eq!(src_dirs, vec![String::from("/rust/core"), String::from("/rust/std")]);
            assert_eq!(tags_file, "/rust/rusty-tags.vi");
        }
        _ => panic!("two candidates exist, so the tags are built"),
    }
    let mut fs2 = FsView::new();
    fs2.add_dir(String::from("/rust/core"));
    fs2.add_file(String::from("/out/rusty-tags.vi"));
    match std_lib_tags_plan("/rust", &Some(String::from("/out")), "rusty-tags.vi", false, &fs2) {
        StdLibPlan::UpToDate => {}
        _ => panic!("the tag file exists and nothing is forced"),
    }
    match std_lib_tags_plan("/rust", &Some(String::from("/out")), "rusty-tags.vi", true, &fs2) {
        StdLibPlan::Build { .. } => {}
        _ => panic!("forcing rebuilds the existing file"),
    }
    match std_lib_tags_plan("/empty", &None, "rusty-tags.vi", false, &FsView::new()) {
        StdLibPlan::NoSources => {}
        _ => panic!("no candidate directories exist"),
    }
}

/// Bands group the ordered plan by equal depth, deepest first.
#[test]
fn bands_group_equal_depths() {
    let fs = FsView::new();
    let mut tree = DepTree::new();
    let a = tree.new_source();
    let b = tree.new_source();
    let c = tree.new_source();
    let fsv = FsView::new();
    tree.set_source(mk_source(c, "c", "/w/c", false, &fsv), Vec::new());
    tree.set_source(mk_source(b, "b", "/w/b", false, &fsv), vec![c]);
    tree.set_source(mk_source(a, "a", "/w/a", true, &fsv), vec![b, c]);
    tree.set_roots(vec![a]);
    tree.compute_depths();
    let planned = plan_rebuild(&tree, false, &fs);
    let bands = depth_bands(&tree, &planned);
    let shape: Vec<Vec<usize>> =
        bands.iter().map(|band| band.iter().map(|s| s.id).collect()).collect();
    // c sits below b (depth 2), b below a (depth 1), a is the root (depth 0)
    assert_eq!(shape, vec![vec![c.id], vec![b.id], vec![a.id]]);
}

/// Proper ancestors: the sources reachable by one or more dependent
/// edges, ascending by id; an input appears only when it sits on a cycle.
#[test]
fn ancestors_exclude_the_inputs_unless_cyclic() {
    let fsv = FsView::new();
    let mut tree = DepTree::new();
    let a = tree.new_source();
    let b = tree.new_source();
    let c = tree.new_source();
    tree.set_source(mk_source(c, "c", "/w/c", false, &fsv), Vec::new());
    tree.set_source(mk_source(b, "b", "/w/b", false, &fsv), vec![c]);
    tree.set_source(mk_source(a, "a", "/w/a", true, &fsv), vec![b]);
    tree.set_roots(vec![a]);
    tree.compute_depths();
    // ancestors of the leaf: the chain above it, not the leaf itself
    let up: Vec<usize> = tree.ancestors(&vec![c]).iter().map(|s| s.id).collect();
    assert_eq!(up, vec![a.id, b.id]);
    // a source with no dependents has no ancestors
    let none: Vec<usize> = tree.ancestors(&vec![a]).iter().map(|s| s.id).collect();
    assert_eq!(none, Vec::<usize>::new());

    // on a cycle, a source is its own ancestor
    let mut cyc = DepTree::new();
    let x = cyc.new_source();
    let y = cyc.new_source();
    cyc.set_source(mk_source(x, "x", "/w/x", true, &fsv), vec![y]);
    cyc.set_source(mk_source(y, "y", "/w/y", false, &fsv), vec![x]);
    cyc.set_roots(vec![x]);
    cyc.compute_depths();
    let both: Vec<usize> = cyc.ancestors(&vec![x]).iter().map(|s| s.id).collect();
    assert_eq!(both, vec![x.id, y.id]);
}
