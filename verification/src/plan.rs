//! The invalidation planner: which sources are rebuilt, and in what order.
//! The selected set is exactly the ancestor-closure of the dirty set; the
//! order is by scheduling depth, deepest first.

use vstd::prelude::*;
use crate::dep_tree::{depth_step, id_set, lemma_id_set_contains, no_dup_ids, DepTree};
use crate::fs_view::FsView;
use crate::types::SourceId;

verus! {

/// The slots whose stored source is dirty: recreation forced, a workspace
/// member, or one of its tag files missing.
pub open spec fn spec_dirty_set(tree: &DepTree, force: bool, files: Set<Seq<char>>) -> Set<int> {
    Set::new(
        |i: int|
            0 <= i < tree.spec_len() && (tree.spec_source(i) matches Some(src)
                && src.spec_needs_tags_update(force, files)),
    )
}

/// Deepest first: scheduling depths never increase along the list.
pub open spec fn depth_sorted_desc(tree: &DepTree, ids: Seq<SourceId>) -> bool {
    forall|a: int, b: int|
        0 <= a < b < ids.len() ==> tree.spec_depth((#[trigger] ids[a]).id as int)
            >= tree.spec_depth((#[trigger] ids[b]).id as int)
}

/// Selects the sources to rebuild: exactly the ancestor-closure (under the
/// dependents relation) of the dirty set, each source once, ordered deepest
/// first so that dependencies are rebuilt before their dependents.
pub fn plan_rebuild(tree: &DepTree, force_recreate: bool, fs: &FsView) -> (r: Vec<SourceId>)
    requires
        tree.wf(),
    ensures
        tree.ancestor_closed(
            spec_dirty_set(tree, force_recreate, fs.file_set()),
            id_set(r@),
        ),
        forall|t: Set<int>|
            tree.ancestor_closed(spec_dirty_set(tree, force_recreate, fs.file_set()), t)
                ==> id_set(r@) <= t,
        no_dup_ids(r@),
        forall|k: int| 0 <= k < r@.len() ==> (#[trigger] r@[k]).id < tree.spec_len(),
        depth_sorted_desc(tree, r@),
{
    let all = tree.all_sources();
    let ghost all_view = all@;
    let mut dirty: Vec<SourceId> = Vec::new();
    let mut k: usize = 0;
    while k < all.len()
        invariant
            tree.wf(),
            k <= all@.len(),
            all@ == all_view,
            forall|m: int|
                0 <= m < all_view.len() ==> (#[trigger] all_view[m]).id < tree.spec_len()
                    && tree.spec_source(all_view[m].id as int) is Some,
            forall|i: int|
                0 <= i < tree.spec_len() && tree.spec_source(i) is Some ==> id_set(
                    all_view,
                ).contains(i),
            forall|j: int|
                #[trigger] id_set(dirty@).contains(j) <==> ((exists|m: int|
                    0 <= m < k && (#[trigger] all_view[m]).id == j) && spec_dirty_set(
                    tree,
                    force_recreate,
                    fs.file_set(),
                ).contains(j)),
            forall|m: int| 0 <= m < dirty@.len() ==> (#[trigger] dirty@[m]).id < tree.spec_len(),
        decreases all@.len() - k,
    {
        let id = all[k];
        let is_dirty = match tree.source(id) {
            Some(src) => src.needs_tags_update(force_recreate, fs),
            None => false,
        };
        let ghost before = dirty@;
        if is_dirty {
            dirty.push(id);
        }
        k = k + 1;
        proof {
            assert forall|j: int|
                #[trigger] id_set(dirty@).contains(j) <==> ((exists|m: int|
                    0 <= m < k && (#[trigger] all_view[m]).id == j) && spec_dirty_set(
                    tree,
                    force_recreate,
                    fs.file_set(),
                ).contains(j)) by {
                lemma_id_set_contains(dirty@, j);
                lemma_id_set_contains(before, j);
                if id_set(dirty@).contains(j) {
                    let m = choose|m: int| 0 <= m < dirty@.len() && (#[trigger] dirty@[m]).id == j;
                    if m < before.len() {
                        assert(before[m].id == j);
                        assert(id_set(before).contains(j));
                    } else {
                        assert(dirty@[m] == id);
                        assert(all_view[k as int - 1].id == j);
                    }
                }
                if (exists|m: int| 0 <= m < k && (#[trigger] all_view[m]).id == j) && spec_dirty_set(
                    tree,
                    force_recreate,
                    fs.file_set(),
                ).contains(j) {
                    let m = choose|m: int| 0 <= m < k && (#[trigger] all_view[m]).id == j;
                    if m < k - 1 {
                        assert(id_set(before).contains(j));
                        let mm = choose|mm: int|
                            0 <= mm < before.len() && (#[trigger] before[mm]).id == j;
                        assert(dirty@[mm].id == j);
                    } else {
                        assert(id.id == j);
                        if is_dirty {
                            assert(dirty@[dirty@.len() - 1].id == j);
                        } else {
                            assert(!spec_dirty_set(
                                tree,
                                force_recreate,
                                fs.file_set(),
                            ).contains(j));
                        }
                    }
                }
            }
        }
    }
    proof {
        assert(id_set(dirty@) =~= spec_dirty_set(tree, force_recreate, fs.file_set())) by {
            assert forall|j: int|
                spec_dirty_set(tree, force_recreate, fs.file_set()).contains(j) implies id_set(
                dirty@,
            ).contains(j) by {
                assert(id_set(all_view).contains(j));
                lemma_id_set_contains(all_view, j);
            }
        }
    }
    let closed = tree.ancestor_closure(&dirty);
    let ordered = sort_by_depth_desc(tree, closed);
    proof {
        assert(id_set(ordered@) =~= id_set(closed@)) by {
            assert forall|j: int|
                #[trigger] id_set(ordered@).contains(j) implies id_set(closed@).contains(j) by {
                lemma_id_set_contains(ordered@, j);
                lemma_id_set_contains(closed@, j);
                let m = choose|m: int|
                    0 <= m < ordered@.len() && (#[trigger] ordered@[m]).id == j;
                assert(closed@.to_multiset().count(ordered@[m]) == ordered@.to_multiset().count(
                    ordered@[m],
                ));
                broadcast use vstd::seq_lib::group_to_multiset_ensures;

                assert(ordered@.to_multiset().count(ordered@[m]) > 0) by {
                    assert(ordered@.contains(ordered@[m]));
                }
                assert(closed@.contains(ordered@[m]));
                let mm = choose|mm: int| 0 <= mm < closed@.len() && closed@[mm] == ordered@[m];
                assert(closed@[mm].id == j);
            }
            assert forall|j: int|
                #[trigger] id_set(closed@).contains(j) implies id_set(ordered@).contains(j) by {
                lemma_id_set_contains(ordered@, j);
                lemma_id_set_contains(closed@, j);
                let m = choose|m: int| 0 <= m < closed@.len() && (#[trigger] closed@[m]).id == j;
                broadcast use vstd::seq_lib::group_to_multiset_ensures;

                assert(closed@.to_multiset().count(closed@[m]) > 0) by {
                    assert(closed@.contains(closed@[m]));
                }
                assert(ordered@.contains(closed@[m]));
                let mm = choose|mm: int| 0 <= mm < ordered@.len() && ordered@[mm] == closed@[m];
                assert(ordered@[mm].id == j);
            }
        }
        // distinct ids carry over: equal ids mean equal handles, and a
        // repeated handle would appear twice in the multiset
        assert(no_dup_ids(ordered@)) by {
            broadcast use vstd::seq_lib::group_to_multiset_ensures;

            assert forall|a: int, b: int|
                0 <= a < b < ordered@.len() implies (#[trigger] ordered@[a]).id != (
            #[trigger] ordered@[b]).id by {
                if ordered@[a].id == ordered@[b].id {
                    assert(ordered@[a] == ordered@[b]);
                    let x = ordered@[a];
                    assert(ordered@.remove(b).to_multiset() =~= ordered@.to_multiset().remove(x));
                    assert(ordered@.remove(b)[a] == x);
                    assert(ordered@.remove(b).contains(x));
                    assert(ordered@.remove(b).to_multiset().count(x) > 0);
                    assert(ordered@.to_multiset().count(x) >= 2);
                    assert(closed@.to_multiset().count(x) >= 2);
                    lemma_count_le_one(closed@, x);
                }
            }
        }
        assert forall|k: int|
            0 <= k < ordered@.len() implies (#[trigger] ordered@[k]).id < tree.spec_len() by {
            lemma_id_set_contains(closed@, ordered@[k].id as int);
            assert(id_set(ordered@).contains(ordered@[k].id as int)) by {
                lemma_id_set_contains(ordered@, ordered@[k].id as int);
            }
            let m = choose|m: int|
                0 <= m < closed@.len() && (#[trigger] closed@[m]).id == ordered@[k].id as int;
        }
    }
    ordered
}

/// In a list with pairwise distinct ids, every handle appears at most once.
proof fn lemma_count_le_one(s: Seq<SourceId>, x: SourceId)
    requires
        no_dup_ids(s),
    ensures
        s.to_multiset().count(x) <= 1,
{
    broadcast use vstd::seq_lib::group_to_multiset_ensures;

    if s.to_multiset().count(x) >= 2 {
        let i = choose|i: int| 0 <= i < s.len() && s[i] == x;
        assert(s.contains(x)) by {
            if s.to_multiset().count(x) > 0 {
            }
        }
        let s2 = s.remove(i);
        assert(s2.to_multiset() =~= s.to_multiset().remove(x));
        assert(s2.to_multiset().count(x) > 0);
        assert(s2.contains(x));
        let j = choose|j: int| 0 <= j < s2.len() && s2[j] == x;
        if j < i {
            assert(s[j] == x);
            assert(s[j].id == s[i].id);
        } else {
            assert(s[j + 1] == x);
            assert(s[i].id == s[j + 1].id);
        }
    }
}

/// Sorts the handles by their scheduling depth, deepest first, keeping the
/// multiset of handles.
fn sort_by_depth_desc(tree: &DepTree, input: Vec<SourceId>) -> (r: Vec<SourceId>)
    requires
        tree.wf(),
        forall|k: int| 0 <= k < input@.len() ==> (#[trigger] input@[k]).id < tree.spec_len(),
    ensures
        r@.to_multiset() == input@.to_multiset(),
        depth_sorted_desc(tree, r@),
        forall|k: int| 0 <= k < r@.len() ==> (#[trigger] r@[k]).id < tree.spec_len(),
{
    broadcast use vstd::seq_lib::group_to_multiset_ensures;

    let ghost inp = input@;
    let mut r: Vec<SourceId> = Vec::new();
    let mut k: usize = 0;
    proof {
        assert(r@.to_multiset() =~= inp.take(0).to_multiset());
    }
    while k < input.len()
        invariant
            tree.wf(),
            input@ == inp,
            k <= inp.len(),
            forall|m: int| 0 <= m < inp.len() ==> (#[trigger] inp[m]).id < tree.spec_len(),
            forall|m: int| 0 <= m < r@.len() ==> (#[trigger] r@[m]).id < tree.spec_len(),
            r@.to_multiset() == inp.take(k as int).to_multiset(),
            depth_sorted_desc(tree, r@),
        decreases inp.len() - k,
    {
        let x = input[k];
        let xd = tree.depth_of(x);
        let ghost before = r@;
        let mut j: usize = 0;
        while j < r.len() && tree.depth_of(r[j]) >= xd
            invariant
                tree.wf(),
                r@ == before,
                x.id < tree.spec_len(),
                xd as int == tree.spec_depth(x.id as int),
                forall|m: int| 0 <= m < r@.len() ==> (#[trigger] r@[m]).id < tree.spec_len(),
                j <= r@.len(),
                forall|m: int|
                    0 <= m < j ==> tree.spec_depth((#[trigger] before[m]).id as int) >= xd as int,
            decreases r@.len() - j,
        {
            j = j + 1;
        }
        r.insert(j, x);
        k = k + 1;
        proof {
            assert(r@ =~= before.insert(j as int, x));
            crate::vi_tag::lemma_insert_to_multiset(before, j as int, x);
            assert(inp.take(k as int).drop_last() =~= inp.take(k as int - 1));
            assert(inp.take(k as int).last() == inp[k as int - 1]);
            assert(inp.take(k as int).to_multiset() =~= inp.take(
                k as int - 1,
            ).to_multiset().insert(x)) by {
                assert(inp.take(k as int) =~= inp.take(k as int - 1).push(x));
                assert(inp.take(k as int - 1).push(x).to_multiset() =~= inp.take(
                    k as int - 1,
                ).to_multiset().insert(x)) by {
                    broadcast use vstd::seq_lib::group_to_multiset_ensures;

                }
            }
            assert(r@.to_multiset() =~= inp.take(k as int).to_multiset());
            let t = before.insert(j as int, x);
            before.insert_ensures(j as int, x);
            assert forall|a: int, b: int|
                0 <= a < b < t.len() implies tree.spec_depth((#[trigger] t[a]).id as int)
                >= tree.spec_depth((#[trigger] t[b]).id as int) by {
                if b < j {
                } else if b == j {
                    assert(t[a] == before[a]);
                    assert(tree.spec_depth(before[a].id as int) >= xd as int);
                } else if a < j {
                    assert(t[b] == before[b - 1]);
                    if a < j && b - 1 >= j {
                        if b - 1 == j as int {
                            assert(t[b] == before[j as int]);
                        }
                    }
                    assert(tree.spec_depth(t[a].id as int) >= tree.spec_depth(t[b].id as int));
                } else if a == j {
                    assert(t[a] == x);
                    assert(t[b] == before[b - 1]);
                    assert(b - 1 >= j);
                    assert(!(tree.spec_depth(before[j as int].id as int) >= xd as int));
                    assert(tree.spec_depth(before[j as int].id as int) <= xd as int);
                    assert(tree.spec_depth(before[b - 1].id as int) <= tree.spec_depth(
                        before[j as int].id as int,
                    ));
                } else {
                    assert(t[a] == before[a - 1]);
                    assert(t[b] == before[b - 1]);
                }
            }
        }
    }
    proof {
        assert(inp.take(inp.len() as int) =~= inp);
    }
    r
}

/// Law: with nothing forced and every tag file present on disk, the dirty
/// set is exactly the workspace members; a second run over unchanged
/// sources therefore selects only members and their dependents. (A member
/// itself is always rebuilt: the planner has no line-level view of edits.)
pub proof fn lemma_second_run_dirty(tree: &DepTree, files: Set<Seq<char>>)
    requires
        tree.wf(),
        forall|i: int|
            0 <= i < tree.spec_len() ==> ((#[trigger] tree.spec_source(i)) matches Some(src)
                ==> files.contains(src.cached_tags_file@) && files.contains(src.tags_file@)),
    ensures
        spec_dirty_set(tree, false, files) == Set::new(
            |i: int|
                0 <= i < tree.spec_len() && (tree.spec_source(i) matches Some(src)
                    && src.is_root),
        ),
{
    let lhs = spec_dirty_set(tree, false, files);
    let rhs = Set::new(
        |i: int|
            0 <= i < tree.spec_len() && (tree.spec_source(i) matches Some(src) && src.is_root),
    );
    assert forall|i: int| #[trigger] lhs.contains(i) implies rhs.contains(i) by {
        assert(tree.spec_source(i) is Some);
    }
    assert forall|i: int| #[trigger] rhs.contains(i) implies lhs.contains(i) by {}
    assert(lhs =~= rhs);
}

/// The concatenation of the bands, in order.
pub open spec fn flatten_bands(bs: Seq<Vec<SourceId>>) -> Seq<SourceId>
    decreases bs.len(),
{
    if bs.len() == 0 {
        Seq::empty()
    } else {
        flatten_bands(bs.drop_last()) + bs.last()@
    }
}

/// Groups the depth-ordered list into bands of equal scheduling depth:
/// concatenated they give the list back, every band is non-empty and holds
/// sources of one depth, and adjacent bands differ in depth. Bands are
/// processed in order; sources within one band share no dependency edge
/// obligations and may run concurrently.
pub fn depth_bands(tree: &DepTree, ordered: &Vec<SourceId>) -> (r: Vec<Vec<SourceId>>)
    requires
        tree.wf(),
        forall|k: int| 0 <= k < ordered@.len() ==> (#[trigger] ordered@[k]).id < tree.spec_len(),
    ensures
        flatten_bands(r@) == ordered@,
        forall|b: int| 0 <= b < r@.len() ==> (#[trigger] r@[b])@.len() > 0,
        forall|b: int, p: int, q: int|
            0 <= b < r@.len() && 0 <= p < (#[trigger] r@[b])@.len() && 0 <= q < r@[b]@.len()
                ==> tree.spec_depth((#[trigger] r@[b]@[p]).id as int) == tree.spec_depth(
                (#[trigger] r@[b]@[q]).id as int),
        forall|b: int|
            0 <= b < r@.len() - 1 ==> tree.spec_depth((#[trigger] r@[b])@.last().id as int)
                != tree.spec_depth(r@[b + 1]@.first().id as int),
{
    let mut bands: Vec<Vec<SourceId>> = Vec::new();
    let ghost inp = ordered@;
    let mut k: usize = 0;
    proof {
        assert(flatten_bands(bands@) =~= inp.take(0));
    }
    while k < ordered.len()
        invariant
            tree.wf(),
            ordered@ == inp,
            k <= inp.len(),
            forall|m: int| 0 <= m < inp.len() ==> (#[trigger] inp[m]).id < tree.spec_len(),
            flatten_bands(bands@) == inp.take(k as int),
            forall|b: int| 0 <= b < bands@.len() ==> (#[trigger] bands@[b])@.len() > 0,
            forall|b: int, p: int, q: int|
                0 <= b < bands@.len() && 0 <= p < (#[trigger] bands@[b])@.len() && 0 <= q
                    < bands@[b]@.len() ==> tree.spec_depth((#[trigger] bands@[b]@[p]).id as int)
                    == tree.spec_depth((#[trigger] bands@[b]@[q]).id as int),
            forall|b: int|
                0 <= b < bands@.len() - 1 ==> tree.spec_depth(
                    (#[trigger] bands@[b])@.last().id as int,
                ) != tree.spec_depth(bands@[b + 1]@.first().id as int),
            k > 0 && bands@.len() > 0 ==> bands@.last()@.last() == inp[k as int - 1],
            k > 0 ==> bands@.len() > 0,
            forall|b: int|
                0 <= b < bands@.len() ==> (#[trigger] bands@[b])@.last().id < tree.spec_len()
                    && bands@[b]@.first().id < tree.spec_len(),
        decreases inp.len() - k,
    {
        let id = ordered[k];
        let d = tree.depth_of(id);
        let start_new = if bands.len() == 0 {
            true
        } else {
            let last_band = &bands[bands.len() - 1];
            let tail = last_band[last_band.len() - 1];
            tree.depth_of(tail) != d
        };
        let ghost before = bands@;
        if start_new {
            let mut fresh: Vec<SourceId> = Vec::new();
            fresh.push(id);
            bands.push(fresh);
            proof {
                assert(bands@.drop_last() =~= before);
                assert(bands@.last()@ =~= seq![id]);
                assert(flatten_bands(bands@) =~= inp.take(k as int).push(id));
                assert(inp.take(k as int).push(id) =~= inp.take(k as int + 1));
            }
        } else {
            let mut last = match bands.pop() {
                Some(v) => v,
                None => Vec::new(),
            };
            let ghost last_view = last@;
            last.push(id);
            bands.push(last);
            proof {
                assert(before.len() > 0);
                assert(bands@.drop_last() =~= before.drop_last());
                assert(bands@.last()@ =~= last_view.push(id));
                assert(flatten_bands(before) == flatten_bands(before.drop_last()) + last_view);
                assert(flatten_bands(bands@) =~= flatten_bands(before.drop_last()) + last_view.push(
                    id,
                ));
                assert(flatten_bands(bands@) =~= inp.take(k as int).push(id));
                assert(inp.take(k as int).push(id) =~= inp.take(k as int + 1));
                assert forall|b: int, p: int, q: int|
                    0 <= b < bands@.len() && 0 <= p < (#[trigger] bands@[b])@.len() && 0 <= q
                        < bands@[b]@.len() implies tree.spec_depth(
                    (#[trigger] bands@[b]@[p]).id as int,
                ) == tree.spec_depth((#[trigger] bands@[b]@[q]).id as int) by {
                    if b < bands@.len() - 1 {
                        assert(bands@[b] == before[b]);
                    } else {
                        assert(bands@[b]@ == last_view.push(id));
                        assert(before[b]@ == last_view);
                        assert forall|pp: int|
                            0 <= pp < bands@[b]@.len() implies tree.spec_depth(
                            (#[trigger] bands@[b]@[pp]).id as int,
                        ) == d as int by {
                            if pp < last_view.len() {
                                assert(bands@[b]@[pp] == before[b]@[pp]);
                                assert(tree.spec_depth(before[b]@[pp].id as int)
                                    == tree.spec_depth(before[b]@.last().id as int));
                            }
                        }
                    }
                }
            }
        }
        k = k + 1;
    }
    proof {
        assert(inp.take(inp.len() as int) =~= inp);
    }
    bands
}

/// Law: in a deepest-first order over settled depths, a dependency stands
/// strictly before its dependent, so it is finished first. The one
/// exception is a dependent already at the cycle cap: the members of a
/// cycle share the cap and so share a band.
pub proof fn lemma_dependency_before_dependent(
    tree: &DepTree,
    ids: Seq<SourceId>,
    a: int,
    b: int,
)
    requires
        tree.wf(),
        tree.depths_settled(),
        depth_sorted_desc(tree, ids),
        0 <= a < ids.len(),
        0 <= b < ids.len(),
        tree.dep_edge(ids[a].id as int, ids[b].id as int),
        tree.spec_depth(ids[a].id as int) < tree.spec_len(),
    ensures
        b < a,
{
    let s = ids[a].id as int;
    let d = ids[b].id as int;
    let k = choose|k: int|
        0 <= k < tree.spec_deps(s).len() && (#[trigger] tree.spec_deps(s)[k]).id == d;
    assert(tree.spec_depth(d) >= depth_step(tree.spec_depth(s), tree.spec_len()));
    assert(tree.spec_depth(d) >= tree.spec_depth(s) + 1);
    if a < b {
        assert(tree.spec_depth(ids[a].id as int) >= tree.spec_depth(ids[b].id as int));
        assert(false);
    }
    if a == b {
        assert(false);
    }
}

} // verus!
