//! The dependency graph of the project: indexed source storage, child and
//! parent adjacency (each the transpose of the other), scheduling depths,
//! and the cycle-safe ancestor closure.

use vstd::prelude::*;
use crate::types::{Source, SourceId};

verus! {

use vstd::pervasive::VecAdditionalExecFns;

/// The number of `true` entries of a boolean sequence.
pub open spec fn count_true(s: Seq<bool>) -> int
    decreases s.len(),
{
    if s.len() == 0 {
        0
    } else {
        count_true(s.drop_last()) + if s.last() {
            1int
        } else {
            0int
        }
    }
}

pub proof fn lemma_count_true_bound(s: Seq<bool>)
    ensures
        0 <= count_true(s) <= s.len(),
    decreases s.len(),
{
    if s.len() > 0 {
        lemma_count_true_bound(s.drop_last());
    }
}

pub proof fn lemma_count_true_update(s: Seq<bool>, i: int)
    requires
        0 <= i < s.len(),
        !s[i],
    ensures
        count_true(s.update(i, true)) == count_true(s) + 1,
    decreases s.len(),
{
    let t = s.update(i, true);
    if i == s.len() - 1 {
        assert(t.drop_last() =~= s.drop_last());
    } else {
        assert(t.drop_last() =~= s.drop_last().update(i, true));
        lemma_count_true_update(s.drop_last(), i);
    }
}

/// The sum of a sequence of depth values.
pub open spec fn spec_sum(s: Seq<u64>) -> int
    decreases s.len(),
{
    if s.len() == 0 {
        0
    } else {
        spec_sum(s.drop_last()) + s.last()
    }
}

pub proof fn lemma_sum_bound(s: Seq<u64>, cap: u64)
    requires
        forall|m: int| 0 <= m < s.len() ==> s[m] <= cap,
    ensures
        0 <= spec_sum(s) <= s.len() * cap,
    decreases s.len(),
{
    if s.len() > 0 {
        lemma_sum_bound(s.drop_last(), cap);
        assert((s.len() - 1) * cap + cap == s.len() * cap) by (nonlinear_arith);
    }
}

pub proof fn lemma_sum_update(s: Seq<u64>, i: int, v: u64)
    requires
        0 <= i < s.len(),
    ensures
        spec_sum(s.update(i, v)) == spec_sum(s) + v - s[i],
    decreases s.len(),
{
    let t = s.update(i, v);
    if i == s.len() - 1 {
        assert(t.drop_last() =~= s.drop_last());
    } else {
        assert(t.drop_last() =~= s.drop_last().update(i, v));
        lemma_sum_update(s.drop_last(), i, v);
    }
}

/// `d` pushed one step deeper, capped so that cycles cannot run away.
pub open spec fn depth_step(d: int, cap: int) -> int {
    if d >= cap {
        cap
    } else {
        d + 1
    }
}

/// The set of ids of a list of source handles.
pub open spec fn id_set(v: Seq<SourceId>) -> Set<int> {
    v.map_values(|s: SourceId| s.id as int).to_set()
}

pub proof fn lemma_id_set_contains(v: Seq<SourceId>, i: int)
    ensures
        id_set(v).contains(i) <==> exists|k: int| 0 <= k < v.len() && (#[trigger] v[k]).id == i,
{
    let mapped = v.map_values(|s: SourceId| s.id as int);
    if id_set(v).contains(i) {
        let k = choose|k: int| 0 <= k < mapped.len() && mapped[k] == i;
        assert(v[k].id == i);
    }
    if exists|k: int| 0 <= k < v.len() && (#[trigger] v[k]).id == i {
        let k = choose|k: int| 0 <= k < v.len() && (#[trigger] v[k]).id == i;
        assert(mapped[k] == i);
        assert(mapped.contains(i));
    }
}

/// No id appears twice.
pub open spec fn no_dup_ids(v: Seq<SourceId>) -> bool {
    forall|i: int, j: int| 0 <= i < j < v.len() ==> v[i].id != v[j].id
}

/// The dependency graph of the whole project. Despite the legacy name it is
/// a graph: it may contain cycles, which every traversal tolerates.
pub struct DepTree {
    /// The workspace members, as indices into `sources`.
    roots: Vec<SourceId>,
    /// All sources; a slot stays `None` for a package without an acceptable
    /// target.
    sources: Vec<Option<Source>>,
    /// The dependencies of each source.
    dependencies: Vec<Option<Vec<SourceId>>>,
    /// The dependents of each source; the transpose of `dependencies`.
    parents: Vec<Option<Vec<SourceId>>>,
    /// The scheduling depth of each source; deeper sources build first.
    max_depths: Vec<u64>,
}

impl DepTree {
    /// The number of reserved source slots.
    pub closed spec fn spec_len(&self) -> int {
        self.sources@.len() as int
    }

    /// The source stored in a slot.
    pub closed spec fn spec_source(&self, i: int) -> Option<Source> {
        self.sources@[i]
    }

    /// The workspace members.
    pub closed spec fn spec_roots(&self) -> Seq<SourceId> {
        self.roots@
    }

    /// The recorded dependencies of a slot.
    pub closed spec fn spec_deps(&self, i: int) -> Seq<SourceId> {
        match self.dependencies@[i] {
            Some(v) => v@,
            None => Seq::empty(),
        }
    }

    /// The recorded dependents of a slot.
    pub closed spec fn spec_parents(&self, i: int) -> Seq<SourceId> {
        match self.parents@[i] {
            Some(v) => v@,
            None => Seq::empty(),
        }
    }

    /// The scheduling depth of a slot.
    pub closed spec fn spec_depth(&self, i: int) -> int {
        self.max_depths@[i] as int
    }

    /// Every recorded dependency sits at least one step (up to the cap)
    /// deeper than its dependent, in the given depth table.
    pub open spec fn depths_settled_on(&self, depths: Seq<u64>, cap: int) -> bool {
        forall|i: int, k: int|
            0 <= i < self.spec_len() && 0 <= k < self.spec_deps(i).len() ==> depths[(
            #[trigger] self.spec_deps(i)[k]).id as int] as int >= depth_step(
                depths[i] as int,
                cap,
            )
    }

    /// Every recorded dependency sits at least one step deeper than its
    /// dependent, up to the cycle cap (the number of sources): deepest-first
    /// scheduling therefore finishes a dependency before its dependent,
    /// except inside a cycle, where all members sit at the cap.
    pub open spec fn depths_settled(&self) -> bool {
        forall|i: int, k: int|
            0 <= i < self.spec_len() && 0 <= k < self.spec_deps(i).len() ==> self.spec_depth(
                (#[trigger] self.spec_deps(i)[k]).id as int,
            ) >= depth_step(self.spec_depth(i), self.spec_len())
    }

    /// `p` is recorded as a dependent of `c`.
    pub open spec fn parent_edge(&self, c: int, p: int) -> bool {
        &&& 0 <= c < self.spec_len()
        &&& exists|k: int|
            0 <= k < self.spec_parents(c).len() && (#[trigger] self.spec_parents(c)[k]).id == p
    }

    /// `d` is recorded as a dependency of `s`.
    pub open spec fn dep_edge(&self, s: int, d: int) -> bool {
        &&& 0 <= s < self.spec_len()
        &&& exists|k: int|
            0 <= k < self.spec_deps(s).len() && (#[trigger] self.spec_deps(s)[k]).id == d
    }

    /// Well-formedness: the four tables have one row per source, every id
    /// is a valid index, a stored source knows its own id, adjacency lists
    /// mention a source at most once, and `parents` is the transpose of
    /// `dependencies`.
    pub closed spec fn wf(&self) -> bool {
        let n = self.spec_len();
        &&& self.dependencies@.len() == n
        &&& self.parents@.len() == n
        &&& self.max_depths@.len() == n
        &&& forall|k: int| 0 <= k < self.roots@.len() ==> (#[trigger] self.roots@[k]).id < n
        &&& forall|i: int|
            0 <= i < n ==> ((#[trigger] self.spec_source(i)) matches Some(src) ==> src.id.id == i)
        &&& forall|i: int, k: int|
            0 <= i < n && 0 <= k < self.spec_deps(i).len() ==> (#[trigger] self.spec_deps(i)[k]).id
                < n
        &&& forall|i: int, k: int|
            0 <= i < n && 0 <= k < self.spec_parents(i).len() ==> (#[trigger] self.spec_parents(
                i,
            )[k]).id < n
        &&& forall|i: int| 0 <= i < n ==> no_dup_ids(#[trigger] self.spec_deps(i))
        &&& forall|i: int| 0 <= i < n ==> no_dup_ids(#[trigger] self.spec_parents(i))
        &&& forall|i: int, j: int|
            0 <= i < n && 0 <= j < n ==> (#[trigger] self.dep_edge(i, j) <==> #[trigger] self.parent_edge(
                j,
                i,
            ))
    }

    /// An empty graph.
    pub fn new() -> (r: DepTree)
        ensures
            r.wf(),
            r.spec_len() == 0,
            r.spec_roots().len() == 0,
    {
        DepTree {
            roots: Vec::new(),
            sources: Vec::new(),
            dependencies: Vec::new(),
            parents: Vec::new(),
            max_depths: Vec::new(),
        }
    }

    /// Same sources, roots, edges and depths.
    pub open spec fn same_tree(&self, other: &DepTree) -> bool {
        &&& self.spec_len() == other.spec_len()
        &&& self.spec_roots() == other.spec_roots()
        &&& forall|i: int|
            0 <= i < self.spec_len() ==> #[trigger] self.spec_source(i) == other.spec_source(i)
        &&& forall|i: int|
            0 <= i < self.spec_len() ==> #[trigger] self.spec_deps(i) == other.spec_deps(i)
        &&& forall|i: int|
            0 <= i < self.spec_len() ==> #[trigger] self.spec_parents(i) == other.spec_parents(i)
        &&& forall|i: int|
            0 <= i < self.spec_len() ==> #[trigger] self.spec_depth(i) == other.spec_depth(i)
    }

    /// Grows the tables' capacity; the graph itself does not change.
    pub fn reserve_num_sources(&mut self, num: usize)
        requires
            old(self).wf(),
        ensures
            final(self).wf(),
            final(self).same_tree(old(self)),
    {
        self.sources.reserve(num);
        self.dependencies.reserve(num);
        self.parents.reserve(num);
        self.max_depths.reserve(num);
        proof {
            lemma_wf_transfer(*self, *old(self));
            assert forall|i: int|
                0 <= i < self.spec_len() implies #[trigger] self.spec_depth(i) == old(self).spec_depth(i) by {}
        }
    }

    /// Reserves a slot for a new source and hands out its id.
    pub fn new_source(&mut self) -> (r: SourceId)
        requires
            old(self).wf(),
            old(self).spec_len() < usize::MAX,
        ensures
            final(self).wf(),
            r.id == old(self).spec_len(),
            final(self).spec_len() == old(self).spec_len() + 1,
            final(self).spec_roots() == old(self).spec_roots(),
            final(self).spec_source(r.id as int) is None,
            forall|i: int|
                0 <= i < old(self).spec_len() ==> #[trigger] final(self).spec_source(i) == old(self).spec_source(i),
            forall|i: int|
                0 <= i < old(self).spec_len() ==> #[trigger] final(self).spec_deps(i) == old(self).spec_deps(i),
            forall|i: int|
                0 <= i < old(self).spec_len() ==> #[trigger] final(self).spec_parents(i) == old(self).spec_parents(i),
            final(self).spec_deps(r.id as int).len() == 0,
            final(self).spec_parents(r.id as int).len() == 0,
    {
        let id = self.sources.len();
        self.sources.push(None);
        self.dependencies.push(None);
        self.parents.push(None);
        self.max_depths.push(0);
        proof {
            let n = self.spec_len();
            assert(self.spec_deps(n - 1) =~= Seq::<SourceId>::empty());
            assert(self.spec_parents(n - 1) =~= Seq::<SourceId>::empty());
            assert forall|i: int|
                0 <= i < n - 1 implies #[trigger] self.spec_deps(i) == old(self).spec_deps(i) by {}
            assert forall|i: int|
                0 <= i < n - 1 implies #[trigger] self.spec_parents(i) == old(self).spec_parents(
                i,
            ) by {}
            assert forall|i: int|
                0 <= i < n - 1 implies #[trigger] self.spec_source(i) == old(self).spec_source(
                i,
            ) by {}
            assert forall|i: int, j: int|
                0 <= i < n && 0 <= j < n implies (#[trigger] self.dep_edge(i, j)
                <==> #[trigger] self.parent_edge(j, i)) by {
                if i < n - 1 && j < n - 1 {
                    assert(self.dep_edge(i, j) <==> old(self).dep_edge(i, j));
                    assert(self.parent_edge(j, i) <==> old(self).parent_edge(j, i));
                    assert(old(self).dep_edge(i, j) <==> old(self).parent_edge(j, i));
                } else if i == n - 1 {
                    assert(self.spec_deps(i).len() == 0);
                    if self.parent_edge(j, i) {
                        if j < n - 1 {
                            assert(self.spec_parents(j) == old(self).spec_parents(j));
                            let k = choose|k: int|
                                0 <= k < old(self).spec_parents(j).len() && (
                                #[trigger] old(self).spec_parents(j)[k]).id == i;
                            assert(old(self).spec_parents(j)[k].id < n - 1);
                        } else {
                            assert(self.spec_parents(j).len() == 0);
                        }
                    }
                } else {
                    assert(self.spec_parents(j).len() == 0);
                    if self.dep_edge(i, j) {
                        assert(self.spec_deps(i) == old(self).spec_deps(i));
                        let k = choose|k: int|
                            0 <= k < old(self).spec_deps(i).len() && (#[trigger] old(self).spec_deps(i)[k]).id == j;
                        assert(old(self).spec_deps(i)[k].id < n - 1);
                    }
                }
            }
        }
        SourceId { id }
    }

    /// Replaces the root list.
    pub fn set_roots(&mut self, ids: Vec<SourceId>)
        requires
            old(self).wf(),
            forall|k: int| 0 <= k < ids@.len() ==> (#[trigger] ids@[k]).id < old(self).spec_len(),
        ensures
            final(self).wf(),
            final(self).spec_roots() == ids@,
            final(self).spec_len() == old(self).spec_len(),
            forall|i: int|
                0 <= i < old(self).spec_len() ==> #[trigger] final(self).spec_source(i) == old(self).spec_source(i),
            forall|i: int|
                0 <= i < old(self).spec_len() ==> #[trigger] final(self).spec_deps(i) == old(self).spec_deps(i),
            forall|i: int|
                0 <= i < old(self).spec_len() ==> #[trigger] final(self).spec_parents(i) == old(self).spec_parents(i),
            forall|i: int|
                0 <= i < old(self).spec_len() ==> #[trigger] final(self).spec_depth(i) == old(self).spec_depth(i),
    {
        self.roots = ids;
        proof {
            lemma_wf_transfer(*self, *old(self));
        }
    }

    /// Stores a source and its dependency list, recording the reverse edge
    /// with each dependency.
    pub fn set_source(&mut self, src: Source, dependencies: Vec<SourceId>)
        requires
            old(self).wf(),
            src.id.id < old(self).spec_len(),
            old(self).spec_source(src.id.id as int) is None,
            old(self).spec_deps(src.id.id as int).len() == 0,
            forall|k: int|
                0 <= k < dependencies@.len() ==> (#[trigger] dependencies@[k]).id < old(self).spec_len(),
            no_dup_ids(dependencies@),
        ensures
            final(self).wf(),
            final(self).spec_len() == old(self).spec_len(),
            final(self).spec_roots() == old(self).spec_roots(),
            final(self).spec_source(src.id.id as int) == Some(src),
            forall|i: int|
                0 <= i < old(self).spec_len() && i != src.id.id ==> #[trigger] final(self).spec_source(i) == old(self).spec_source(i),
            final(self).spec_deps(src.id.id as int) == dependencies@,
            forall|i: int|
                0 <= i < old(self).spec_len() && i != src.id.id ==> #[trigger] final(self).spec_deps(i) == old(self).spec_deps(i),
            forall|j: int|
                0 <= j < old(self).spec_len() ==> #[trigger] final(self).spec_parents(j) == (if
                id_set(dependencies@).contains(j) {
                    old(self).spec_parents(j).push(src.id)
                } else {
                    old(self).spec_parents(j)
                }),
    {
        let ghost orig = *old(self);
        let ghost n = old(self).spec_len();
        let ghost deps_view = dependencies@;
        let src_id = src.id;
        self.sources.set(src_id.id, Some(src));
        proof {
            assert forall|j: int|
                0 <= j < n implies #[trigger] self.spec_parents(j) == orig.spec_parents(j) by {}
            assert forall|i: int|
                0 <= i < n implies #[trigger] self.spec_deps(i) == orig.spec_deps(i) by {}
            assert forall|i: int|
                0 <= i < n && i != src_id.id implies #[trigger] self.spec_source(i)
                == orig.spec_source(i) by {}
        }
        let mut k: usize = 0;
        while k < dependencies.len()
            invariant
                dependencies@ == deps_view,
                k <= deps_view.len(),
                self.spec_len() == n,
                self.parents@.len() == n,
                forall|m: int|
                    0 <= m < deps_view.len() ==> (#[trigger] deps_view[m]).id < n,
                no_dup_ids(deps_view),
                self.sources@ == orig.sources@.update(src_id.id as int, Some(src)),
                self.dependencies@ == orig.dependencies@,
                self.max_depths@ == orig.max_depths@,
                self.roots@ == orig.roots@,
                forall|j: int|
                    0 <= j < n ==> #[trigger] self.spec_parents(j) == (if id_set(
                        deps_view.take(k as int),
                    ).contains(j) {
                        orig.spec_parents(j).push(src_id)
                    } else {
                        orig.spec_parents(j)
                    }),
                orig.wf(),
                src_id.id < n,
                src.id == src_id,
                orig.spec_source(src_id.id as int) is None,
                orig.spec_deps(src_id.id as int).len() == 0,
            decreases deps_view.len() - k,
        {
            let ghost entry = *self;
            let dep = dependencies[k];
            let dep_id = dep.id;
            let ghost before_push = self.spec_parents(dep_id as int);
            let mut plist = match &self.parents[dep_id] {
                Some(v) => copy_ids(v),
                None => Vec::new(),
            };
            proof {
                assert(plist@ =~= before_push);
            }
            plist.push(src_id);
            self.parents.set(dep_id, Some(plist));
            k = k + 1;
            proof {
                assert forall|j: int|
                    0 <= j < n && j != dep_id as int implies #[trigger] self.spec_parents(j)
                    == entry.spec_parents(j) by {}
                assert(self.spec_parents(dep_id as int) =~= before_push.push(src_id));
                assert forall|j: int|
                    0 <= j < n implies #[trigger] self.spec_parents(j) == (if id_set(
                    deps_view.take(k as int),
                ).contains(j) {
                    orig.spec_parents(j).push(src_id)
                } else {
                    orig.spec_parents(j)
                }) by {
                    lemma_id_set_contains(deps_view.take(k as int), j);
                    lemma_id_set_contains(deps_view.take(k as int - 1), j);
                    if j == dep_id as int {
                        assert(deps_view.take(k as int)[k - 1].id == j);
                        assert(id_set(deps_view.take(k as int)).contains(j));
                        assert(!id_set(deps_view.take(k as int - 1)).contains(j)) by {
                            lemma_id_set_contains(deps_view.take(k as int - 1), j);
                            if id_set(deps_view.take(k as int - 1)).contains(j) {
                                let m = choose|m: int|
                                    0 <= m < k - 1 && (#[trigger] deps_view.take(
                                        k as int - 1,
                                    )[m]).id == j;
                                assert(deps_view[m].id == deps_view[k as int - 1].id);
                            }
                        }
                        assert(entry.spec_parents(j) == orig.spec_parents(j));
                        assert(before_push == orig.spec_parents(j));
                    } else {
                        assert(self.spec_parents(j) == entry.spec_parents(j));
                        if id_set(deps_view.take(k as int)).contains(j) {
                            let m = choose|m: int|
                                0 <= m < k && (#[trigger] deps_view.take(k as int)[m]).id == j;
                            assert(m < k - 1);
                            assert(deps_view.take(k as int - 1)[m].id == j);
                            assert(id_set(deps_view.take(k as int - 1)).contains(j)) by {
                                lemma_id_set_contains(deps_view.take(k as int - 1), j);
                            }
                        } else {
                            if id_set(deps_view.take(k as int - 1)).contains(j) {
                                let m = choose|m: int|
                                    0 <= m < k - 1 && (#[trigger] deps_view.take(
                                        k as int - 1,
                                    )[m]).id == j;
                                assert(deps_view.take(k as int)[m].id == j);
                                assert(id_set(deps_view.take(k as int)).contains(j));
                            }
                        }
                    }
                }
            }
        }
        let ghost entry2 = *self;
        let deps_opt = Some(dependencies);
        self.dependencies.set(src_id.id, deps_opt);
        proof {
            assert(deps_view.take(deps_view.len() as int) =~= deps_view);
            assert forall|j: int|
                0 <= j < n implies #[trigger] self.spec_parents(j) == entry2.spec_parents(j) by {}
            assert forall|i: int|
                0 <= i < n && i != src_id.id implies #[trigger] self.spec_deps(i)
                == entry2.spec_deps(i) by {}
            assert forall|i: int|
                0 <= i < n implies #[trigger] self.spec_source(i) == entry2.spec_source(i) by {}
            assert forall|i: int|
                0 <= i < n && i != src_id.id implies #[trigger] self.spec_source(i)
                == orig.spec_source(i) by {}
            assert(self.spec_source(src_id.id as int) == Some(src));
            assert(self.spec_deps(src_id.id as int) == deps_view);
            let t = *self;
            // transpose is restored
            assert forall|i: int, j: int|
                0 <= i < n && 0 <= j < n implies (#[trigger] t.dep_edge(i, j)
                <==> #[trigger] t.parent_edge(j, i)) by {
                lemma_id_set_contains(deps_view, j);
                if i == src_id.id as int {
                    if t.dep_edge(i, j) {
                        assert(id_set(deps_view).contains(j));
                        assert(t.spec_parents(j) == orig.spec_parents(j).push(src_id));
                        let plen = t.spec_parents(j).len();
                        assert(t.spec_parents(j)[plen - 1].id == i);
                        assert(t.parent_edge(j, i));
                    }
                    if t.parent_edge(j, i) {
                        let m = choose|m: int|
                            0 <= m < t.spec_parents(j).len() && (#[trigger] t.spec_parents(
                                j,
                            )[m]).id == i;
                        if id_set(deps_view).contains(j) {
                            if m < t.spec_parents(j).len() - 1 {
                                assert(orig.spec_parents(j)[m].id == i);
                                assert(orig.parent_edge(j, i));
                                assert(orig.dep_edge(i, j));
                                assert(orig.spec_deps(i).len() == 0);
                            }
                            let kk = choose|kk: int|
                                0 <= kk < deps_view.len() && (#[trigger] deps_view[kk]).id == j;
                            assert(t.spec_deps(i)[kk].id == j);
                            assert(t.dep_edge(i, j));
                        } else {
                            assert(t.spec_parents(j) == orig.spec_parents(j));
                            assert(orig.parent_edge(j, i));
                            assert(orig.dep_edge(i, j));
                            assert(orig.spec_deps(i).len() == 0);
                            assert(false);
                        }
                    }
                } else {
                    assert(t.spec_deps(i) == orig.spec_deps(i));
                    assert(orig.dep_edge(i, j) <==> orig.parent_edge(j, i));
                    assert(t.dep_edge(i, j) <==> orig.dep_edge(i, j));
                    if id_set(deps_view).contains(j) {
                        assert(t.spec_parents(j) == orig.spec_parents(j).push(src_id));
                        if t.parent_edge(j, i) {
                            let m = choose|m: int|
                                0 <= m < t.spec_parents(j).len() && (#[trigger] t.spec_parents(
                                    j,
                                )[m]).id == i;
                            assert(m < t.spec_parents(j).len() - 1);
                            assert(orig.spec_parents(j)[m].id == i);
                            assert(orig.parent_edge(j, i));
                        }
                        if orig.parent_edge(j, i) {
                            let m = choose|m: int|
                                0 <= m < orig.spec_parents(j).len() && (#[trigger] orig.spec_parents(
                                    j,
                                )[m]).id == i;
                            assert(t.spec_parents(j)[m].id == i);
                            assert(t.parent_edge(j, i));
                        }
                    } else {
                        assert(t.spec_parents(j) == orig.spec_parents(j));
                    }
                }
            }
            // adjacency lists stay duplicate-free
            assert forall|i: int| 0 <= i < n implies no_dup_ids(#[trigger] t.spec_parents(i)) by {
                lemma_id_set_contains(deps_view, i);
                if id_set(deps_view).contains(i) {
                    assert(t.spec_parents(i) == orig.spec_parents(i).push(src_id));
                    let p = t.spec_parents(i);
                    assert(no_dup_ids(orig.spec_parents(i)));
                    assert forall|a: int, b: int| 0 <= a < b < p.len() implies p[a].id != p[b].id
                    by {
                        if b == p.len() - 1 {
                            assert(p[a] == orig.spec_parents(i)[a]);
                            if p[a].id == src_id.id {
                                assert(orig.parent_edge(i, src_id.id as int));
                                assert(orig.dep_edge(src_id.id as int, i));
                                assert(orig.spec_deps(src_id.id as int).len() == 0);
                            }
                        } else {
                            assert(orig.spec_parents(i)[a].id != orig.spec_parents(i)[b].id);
                        }
                    }
                } else {
                    assert(t.spec_parents(i) == orig.spec_parents(i));
                    assert(no_dup_ids(orig.spec_parents(i)));
                }
            }
            assert forall|i: int| 0 <= i < n implies no_dup_ids(#[trigger] t.spec_deps(i)) by {
                if i != src_id.id {
                    assert(t.spec_deps(i) == orig.spec_deps(i));
                    assert(no_dup_ids(orig.spec_deps(i)));
                }
            }
            assert forall|i: int, kk: int|
                0 <= i < n && 0 <= kk < t.spec_deps(i).len() implies (#[trigger] t.spec_deps(
                i,
            )[kk]).id < n by {
                if i != src_id.id {
                    assert(t.spec_deps(i) == orig.spec_deps(i));
                    assert(orig.spec_deps(i)[kk].id < n);
                }
            }
            assert forall|i: int, kk: int|
                0 <= i < n && 0 <= kk < t.spec_parents(i).len() implies (#[trigger] t.spec_parents(
                i,
            )[kk]).id < n by {
                lemma_id_set_contains(deps_view, i);
                if id_set(deps_view).contains(i) {
                    assert(t.spec_parents(i) == orig.spec_parents(i).push(src_id));
                    if kk < t.spec_parents(i).len() - 1 {
                        assert(orig.spec_parents(i)[kk].id < n);
                    }
                } else {
                    assert(t.spec_parents(i) == orig.spec_parents(i));
                    assert(orig.spec_parents(i)[kk].id < n);
                }
            }
        }
    }

    /// A copy of the root list.
    pub fn roots(&self) -> (r: Vec<SourceId>)
        ensures
            r@ == self.spec_roots(),
    {
        copy_ids(&self.roots)
    }

    /// The source stored in a slot, if any.
    pub fn source(&self, id: SourceId) -> (r: Option<&Source>)
        requires
            (id.id as int) < self.spec_len(),
        ensures
            match r {
                Some(src) => self.spec_source(id.id as int) == Some(*src),
                None => self.spec_source(id.id as int) is None,
            },
    {
        match &self.sources[id.id] {
            Some(src) => Some(src),
            None => None,
        }
    }

    /// A copy of the dependency list of a source.
    pub fn dependencies(&self, source: &Source) -> (r: Vec<SourceId>)
        requires
            (source.id.id as int) < self.spec_len(),
            self.wf(),
        ensures
            r@ == self.spec_deps(source.id.id as int),
    {
        match &self.dependencies[source.id.id] {
            Some(v) => copy_ids(v),
            None => {
                let r: Vec<SourceId> = Vec::new();
                proof {
                    assert(r@ =~= self.spec_deps(source.id.id as int));
                }
                r
            },
        }
    }

    /// The ids of all stored sources, ascending.
    pub fn all_sources(&self) -> (r: Vec<SourceId>)
        ensures
            forall|k: int|
                0 <= k < r@.len() ==> (#[trigger] r@[k]).id < self.spec_len() && self.spec_source(
                    r@[k].id as int,
                ) is Some,
            forall|i: int|
                0 <= i < self.spec_len() && self.spec_source(i) is Some ==> id_set(r@).contains(i),
            no_dup_ids(r@),
    {
        let mut r: Vec<SourceId> = Vec::new();
        let n = self.sources.len();
        let mut i: usize = 0;
        while i < n
            invariant
                n == self.spec_len(),
                i <= n,
                forall|k: int|
                    0 <= k < r@.len() ==> (#[trigger] r@[k]).id < i && self.spec_source(
                        r@[k].id as int,
                    ) is Some,
                forall|j: int|
                    0 <= j < i && self.spec_source(j) is Some ==> id_set(r@).contains(j),
                no_dup_ids(r@),
            decreases n - i,
        {
            let ghost prev = r@;
            if self.sources[i].is_some() {
                r.push(SourceId { id: i });
                proof {
                    assert forall|j: int|
                        0 <= j < i + 1 && self.spec_source(j) is Some implies id_set(
                        r@,
                    ).contains(j) by {
                        lemma_id_set_contains(r@, j);
                        lemma_id_set_contains(prev, j);
                        if j < i {
                            let m = choose|m: int|
                                0 <= m < prev.len() && (#[trigger] prev[m]).id == j;
                            assert(r@[m].id == j);
                        } else {
                            assert(r@[r@.len() - 1].id == j);
                        }
                    }
                }
            } else {
                proof {
                    assert forall|j: int|
                        0 <= j < i + 1 && self.spec_source(j) is Some implies id_set(
                        r@,
                    ).contains(j) by {}
                }
            }
            i = i + 1;
        }
        r
    }

    /// Ancestor-closure of the seed set under `parents`: the least set that
    /// holds the seeds and, with every member, its dependents. Cycles are
    /// harmless: every source enters the result at most once.
    pub fn ancestor_closure(&self, seeds: &Vec<SourceId>) -> (r: Vec<SourceId>)
        requires
            self.wf(),
            forall|k: int| 0 <= k < seeds@.len() ==> (#[trigger] seeds@[k]).id < self.spec_len(),
        ensures
            self.ancestor_closed(id_set(seeds@), id_set(r@)),
            forall|t: Set<int>| self.ancestor_closed(id_set(seeds@), t) ==> id_set(r@) <= t,
            forall|k: int| 0 <= k < r@.len() ==> (#[trigger] r@[k]).id < self.spec_len(),
            no_dup_ids(r@),
    {
        let n = self.sources.len();
        let mut visited: Vec<bool> = Vec::new();
        let mut i: usize = 0;
        while i < n
            invariant
                i <= n,
                visited@.len() == i,
                forall|m: int| 0 <= m < i ==> !visited@[m],
            decreases n - i,
        {
            visited.push(false);
            i = i + 1;
        }
        proof {
            lemma_count_true_zero(visited@);
        }
        let mut out: Vec<SourceId> = Vec::new();
        let mut k: usize = 0;
        while k < seeds.len()
            invariant
                self.wf(),
                n == self.spec_len(),
                forall|m: int| 0 <= m < seeds@.len() ==> (#[trigger] seeds@[m]).id < n,
                k <= seeds@.len(),
                visited@.len() == n,
                out@.len() == count_true(visited@),
                forall|m: int|
                    0 <= m < out@.len() ==> (#[trigger] out@[m]).id < n && visited@[out@[m].id as int],
                forall|j: int| 0 <= j < n && visited@[j] ==> id_set(out@).contains(j),
                no_dup_ids(out@),
                forall|j: int| 0 <= j < n && #[trigger] visited@[j] ==> id_set(
                    seeds@.take(k as int),
                ).contains(j),
                forall|m: int| 0 <= m < k ==> visited@[(#[trigger] seeds@[m]).id as int],
            decreases seeds@.len() - k,
        {
            let s = seeds[k];
            if !visited[s.id] {
                proof {
                    lemma_count_true_update(visited@, s.id as int);
                }
                visited.set(s.id, true);
                let ghost prev = out@;
                out.push(s);
                proof {
                    lemma_mark_push(prev, out@, visited@, s);
                    assert forall|j: int|
                        0 <= j < n && #[trigger] visited@[j] implies id_set(
                        seeds@.take(k as int + 1),
                    ).contains(j) by {
                        if j != s.id as int {
                            lemma_id_set_contains(seeds@.take(k as int), j);
                            let m = choose|m: int|
                                0 <= m < k && (#[trigger] seeds@.take(k as int)[m]).id == j;
                            assert(seeds@.take(k as int + 1)[m].id == j);
                            lemma_id_set_contains(seeds@.take(k as int + 1), j);
                        } else {
                            assert(seeds@.take(k as int + 1)[k as int].id == j);
                            lemma_id_set_contains(seeds@.take(k as int + 1), j);
                        }
                    }
                }
            } else {
                proof {
                    assert forall|j: int|
                        0 <= j < n && #[trigger] visited@[j] implies id_set(
                        seeds@.take(k as int + 1),
                    ).contains(j) by {
                        lemma_id_set_contains(seeds@.take(k as int), j);
                        let m = choose|m: int|
                            0 <= m < k && (#[trigger] seeds@.take(k as int)[m]).id == j;
                        assert(seeds@.take(k as int + 1)[m].id == j);
                        lemma_id_set_contains(seeds@.take(k as int + 1), j);
                    }
                }
            }
            k = k + 1;
        }
        proof {
            assert(seeds@.take(seeds@.len() as int) =~= seeds@);
        }
        // breadth-first saturation: out doubles as the worklist
        let mut cursor: usize = 0;
        while cursor < out.len()
            invariant
                self.wf(),
                n == self.spec_len(),
                visited@.len() == n,
                cursor <= out@.len(),
                forall|m: int| 0 <= m < seeds@.len() ==> (#[trigger] seeds@[m]).id < n,
                out@.len() == count_true(visited@),
                forall|m: int|
                    0 <= m < out@.len() ==> (#[trigger] out@[m]).id < n && visited@[out@[m].id as int],
                forall|j: int| 0 <= j < n && visited@[j] ==> id_set(out@).contains(j),
                no_dup_ids(out@),
                // seeds are in
                forall|m: int| 0 <= m < seeds@.len() ==> visited@[(#[trigger] seeds@[m]).id as int],
                // everything marked is forced into any closed superset
                forall|j: int|
                    0 <= j < n && #[trigger] visited@[j] ==> (forall|t: Set<int>|
                        self.ancestor_closed(id_set(seeds@), t) ==> t.contains(j)),
                // processed prefix: parents already marked
                forall|m: int, p: int|
                    0 <= m < cursor && #[trigger] self.parent_edge(out@[m].id as int, p)
                        ==> visited@[p],
        decreases n - cursor,
        {
            let cur = out[cursor];
            proof {
                lemma_count_true_bound(visited@);
            }
            let plist_len = match &self.parents[cur.id] {
                Some(v) => v.len(),
                None => 0,
            };
            let mut pk: usize = 0;
            while pk < plist_len
                invariant
                    self.wf(),
                    n == self.spec_len(),
                    visited@.len() == n,
                    cursor < out@.len(),
                    out@[cursor as int] == cur,
                    cur.id < n,
                    plist_len == self.spec_parents(cur.id as int).len(),
                    pk <= plist_len,
                    forall|m: int| 0 <= m < seeds@.len() ==> (#[trigger] seeds@[m]).id < n,
                    out@.len() == count_true(visited@),
                    forall|m: int|
                        0 <= m < out@.len() ==> (#[trigger] out@[m]).id < n
                            && visited@[out@[m].id as int],
                    forall|j: int| 0 <= j < n && visited@[j] ==> id_set(out@).contains(j),
                    no_dup_ids(out@),
                    forall|m: int|
                        0 <= m < seeds@.len() ==> visited@[(#[trigger] seeds@[m]).id as int],
                    forall|j: int|
                        0 <= j < n && #[trigger] visited@[j] ==> (forall|t: Set<int>|
                            self.ancestor_closed(id_set(seeds@), t) ==> t.contains(j)),
                    forall|m: int, p: int|
                        0 <= m < cursor && #[trigger] self.parent_edge(out@[m].id as int, p)
                            ==> visited@[p],
                    forall|m: int|
                        0 <= m < pk ==> visited@[(#[trigger] self.spec_parents(cur.id as int)[m]).id as int],
                decreases plist_len - pk,
            {
                let p = match &self.parents[cur.id] {
                    Some(v) => v[pk],
                    None => SourceId { id: 0 },
                };
                proof {
                    assert(p == self.spec_parents(cur.id as int)[pk as int]);
                    assert(p.id < n);
                }
                if !visited[p.id] {
                    proof {
                        lemma_count_true_update(visited@, p.id as int);
                    }
                    visited.set(p.id, true);
                    let ghost prev = out@;
                    out.push(p);
                    proof {
                        lemma_mark_push(prev, out@, visited@, p);
                        assert forall|t: Set<int>|
                            self.ancestor_closed(id_set(seeds@), t) implies t.contains(
                            p.id as int,
                        ) by {
                            assert(t.contains(cur.id as int));
                            assert(self.parent_edge(cur.id as int, p.id as int));
                        }
                    }
                }
                pk = pk + 1;
            }
            cursor = cursor + 1;
            proof {
                assert forall|m: int, p: int|
                    0 <= m < cursor && #[trigger] self.parent_edge(out@[m].id as int, p) implies visited@[p] by {
                    if m == cursor - 1 {
                        let c = out@[m].id as int;
                        assert(c == cur.id as int);
                        let kk = choose|kk: int|
                            0 <= kk < self.spec_parents(c).len() && (#[trigger] self.spec_parents(
                                c,
                            )[kk]).id == p;
                        assert(visited@[self.spec_parents(c)[kk].id as int]);
                    }
                }
                lemma_count_true_bound(visited@);
            }
        }
        proof {
            let res = id_set(out@);
            let seedset = id_set(seeds@);
            assert forall|c: int| seedset.contains(c) implies res.contains(c) by {
                lemma_id_set_contains(seeds@, c);
                let m = choose|m: int| 0 <= m < seeds@.len() && (#[trigger] seeds@[m]).id == c;
                assert(visited@[seeds@[m].id as int]);
            }
            assert forall|c: int, p: int|
                res.contains(c) && #[trigger] self.parent_edge(c, p) implies res.contains(p) by {
                lemma_id_set_contains(out@, c);
                let m = choose|m: int| 0 <= m < out@.len() && (#[trigger] out@[m]).id == c;
                assert(visited@[p]);
            }
            assert(self.ancestor_closed(seedset, res));
            assert forall|t: Set<int>| self.ancestor_closed(seedset, t) implies res <= t by {
                assert forall|c: int| res.contains(c) implies t.contains(c) by {
                    lemma_id_set_contains(out@, c);
                    let m = choose|m: int| 0 <= m < out@.len() && (#[trigger] out@[m]).id == c;
                    assert(visited@[c]);
                }
            }
        }
        out
    }

    /// `seeds` lies in `s`, and `s` is closed under taking dependents.
    pub open spec fn ancestor_closed(&self, seeds: Set<int>, s: Set<int>) -> bool {
        &&& seeds <= s
        &&& forall|c: int, p: int| s.contains(c) && #[trigger] self.parent_edge(c, p) ==> s.contains(p)
    }

    /// The dependents one edge away from any of the given sources.
    pub open spec fn direct_parent_set(&self, seeds: Seq<SourceId>) -> Set<int> {
        Set::new(
            |p: int|
                exists|k: int|
                    0 <= k < seeds.len() && self.parent_edge((#[trigger] seeds[k]).id as int, p),
        )
    }

    /// The proper ancestors of the given sources: exactly the sources
    /// reachable from one of them by one or more `parents` edges (the least
    /// dependent-closed superset of their one-step dependents), each once,
    /// ascending by id. An input appears only when it is an ancestor of an
    /// input, as on a cycle.
    pub fn ancestors(&self, seeds: &Vec<SourceId>) -> (r: Vec<SourceId>)
        requires
            self.wf(),
            forall|k: int| 0 <= k < seeds@.len() ==> (#[trigger] seeds@[k]).id < self.spec_len(),
        ensures
            self.ancestor_closed(self.direct_parent_set(seeds@), id_set(r@)),
            forall|t: Set<int>|
                self.ancestor_closed(self.direct_parent_set(seeds@), t) ==> id_set(r@) <= t,
            forall|k: int| 0 <= k < r@.len() ==> (#[trigger] r@[k]).id < self.spec_len(),
            crate::types::strictly_increasing_ids(r@),
    {
        let ghost n = self.spec_len();
        let mut dp: Vec<SourceId> = Vec::new();
        let mut k: usize = 0;
        while k < seeds.len()
            invariant
                self.wf(),
                n == self.spec_len(),
                k <= seeds@.len(),
                forall|m: int|
                    0 <= m < seeds@.len() ==> (#[trigger] seeds@[m]).id < self.spec_len(),
                forall|m: int| 0 <= m < dp@.len() ==> (#[trigger] dp@[m]).id < n,
                forall|j: int|
                    #[trigger] id_set(dp@).contains(j) <==> (exists|m: int|
                        0 <= m < k && self.parent_edge((#[trigger] seeds@[m]).id as int, j)),
            decreases seeds@.len() - k,
        {
            let cur = seeds[k];
            let plist_len = match &self.parents[cur.id] {
                Some(v) => v.len(),
                None => 0,
            };
            let ghost before_k = dp@;
            let mut m: usize = 0;
            while m < plist_len
                invariant
                    self.wf(),
                    n == self.spec_len(),
                    k < seeds@.len(),
                    cur == seeds@[k as int],
                    cur.id < n,
                    plist_len == self.spec_parents(cur.id as int).len(),
                    m <= plist_len,
                    forall|mm: int| 0 <= mm < dp@.len() ==> (#[trigger] dp@[mm]).id < n,
                    forall|j: int|
                        #[trigger] id_set(dp@).contains(j) <==> (id_set(before_k).contains(j)
                            || (exists|mm: int|
                            0 <= mm < m && (#[trigger] self.spec_parents(cur.id as int)[mm]).id
                                == j)),
                decreases plist_len - m,
            {
                let p = match &self.parents[cur.id] {
                    Some(v) => v[m],
                    None => SourceId { id: 0 },
                };
                proof {
                    assert(p == self.spec_parents(cur.id as int)[m as int]);
                    assert(p.id < n);
                }
                let ghost before = dp@;
                dp.push(p);
                m = m + 1;
                proof {
                    assert forall|j: int|
                        #[trigger] id_set(dp@).contains(j) <==> (id_set(before_k).contains(j) || (
                        exists|mm: int|
                            0 <= mm < m && (#[trigger] self.spec_parents(cur.id as int)[mm]).id
                                == j)) by {
                        lemma_id_set_contains(dp@, j);
                        lemma_id_set_contains(before, j);
                        if id_set(dp@).contains(j) {
                            let mm = choose|mm: int|
                                0 <= mm < dp@.len() && (#[trigger] dp@[mm]).id == j;
                            if mm < before.len() {
                                assert(before[mm].id == j);
                                assert(id_set(before).contains(j));
                            } else {
                                assert(dp@[mm] == p);
                                assert(self.spec_parents(cur.id as int)[m - 1].id == j);
                            }
                        }
                        if id_set(before_k).contains(j) || (exists|mm: int|
                            0 <= mm < m && (#[trigger] self.spec_parents(cur.id as int)[mm]).id
                                == j) {
                            if id_set(before_k).contains(j) {
                                assert(id_set(before).contains(j));
                                let mm = choose|mm: int|
                                    0 <= mm < before.len() && (#[trigger] before[mm]).id == j;
                                assert(dp@[mm].id == j);
                            } else {
                                let mm = choose|mm: int|
                                    0 <= mm < m && (#[trigger] self.spec_parents(
                                        cur.id as int,
                                    )[mm]).id == j;
                                if mm < m - 1 {
                                    assert(id_set(before).contains(j));
                                    let mm2 = choose|mm2: int|
                                        0 <= mm2 < before.len() && (#[trigger] before[mm2]).id
                                            == j;
                                    assert(dp@[mm2].id == j);
                                } else {
                                    assert(dp@[dp@.len() - 1].id == j);
                                }
                            }
                        }
                    }
                }
            }
            k = k + 1;
            proof {
                assert forall|j: int|
                    #[trigger] id_set(dp@).contains(j) <==> (exists|m: int|
                        0 <= m < k && self.parent_edge(
                            (#[trigger] seeds@[m]).id as int,
                            j,
                        )) by {
                    if id_set(dp@).contains(j) {
                        if id_set(before_k).contains(j) {
                            let m = choose|m: int|
                                0 <= m < k - 1 && self.parent_edge(
                                    (#[trigger] seeds@[m]).id as int,
                                    j,
                                );
                            assert(self.parent_edge(seeds@[m].id as int, j));
                        } else {
                            let mm = choose|mm: int|
                                0 <= mm < self.spec_parents(cur.id as int).len() && (
                                #[trigger] self.spec_parents(cur.id as int)[mm]).id == j;
                            assert(self.parent_edge(seeds@[k as int - 1].id as int, j));
                        }
                    }
                    if exists|m: int|
                        0 <= m < k && self.parent_edge((#[trigger] seeds@[m]).id as int, j) {
                        let m = choose|m: int|
                            0 <= m < k && self.parent_edge((#[trigger] seeds@[m]).id as int, j);
                        if m < k - 1 {
                            assert(id_set(before_k).contains(j));
                        } else {
                            let mm = choose|mm: int|
                                0 <= mm < self.spec_parents(cur.id as int).len() && (
                                #[trigger] self.spec_parents(cur.id as int)[mm]).id == j;
                        }
                    }
                }
            }
        }
        proof {
            assert(id_set(dp@) =~= self.direct_parent_set(seeds@));
        }
        let mut out = self.ancestor_closure(&dp);
        let ghost closure_view = out@;
        crate::types::unique_sources(&mut out);
        proof {
            assert(id_set(out@) =~= id_set(closure_view)) by {
                assert forall|j: int|
                    #[trigger] id_set(out@).contains(j) implies id_set(closure_view).contains(
                    j,
                ) by {
                    lemma_id_set_contains(out@, j);
                    lemma_id_set_contains(closure_view, j);
                    let m = choose|m: int| 0 <= m < out@.len() && (#[trigger] out@[m]).id == j;
                    let x = out@[m];
                    assert(out@.contains(x));
                    assert(out@.to_set().contains(x));
                    assert(closure_view.to_set().contains(x));
                    assert(closure_view.contains(x));
                    let mm = choose|mm: int| 0 <= mm < closure_view.len() && closure_view[mm] == x;
                    assert(closure_view[mm].id == j);
                }
                assert forall|j: int|
                    #[trigger] id_set(closure_view).contains(j) implies id_set(out@).contains(
                    j,
                ) by {
                    lemma_id_set_contains(out@, j);
                    lemma_id_set_contains(closure_view, j);
                    let m = choose|m: int|
                        0 <= m < closure_view.len() && (#[trigger] closure_view[m]).id == j;
                    let x = closure_view[m];
                    assert(closure_view.contains(x));
                    assert(closure_view.to_set().contains(x));
                    assert(out@.to_set().contains(x));
                    assert(out@.contains(x));
                    let mm = choose|mm: int| 0 <= mm < out@.len() && out@[mm] == x;
                    assert(out@[mm].id == j);
                }
            }
            assert forall|kk: int|
                0 <= kk < out@.len() implies (#[trigger] out@[kk]).id < self.spec_len() by {
                lemma_id_set_contains(out@, out@[kk].id as int);
                assert(id_set(out@).contains(out@[kk].id as int));
                lemma_id_set_contains(closure_view, out@[kk].id as int);
                let m = choose|m: int|
                    0 <= m < closure_view.len() && (#[trigger] closure_view[m]).id == out@[kk].id;
            }
        }
        out
    }

    /// Assigns scheduling depths: starting from zero everywhere, every
    /// dependency is repeatedly pushed one step deeper than its dependent
    /// until nothing moves, with the number of sources as a cap so that
    /// cycles cannot run away. At the fixpoint every dependency sits at
    /// least one step (up to the cap) below its dependent, which is what
    /// deepest-first scheduling rests on.
    pub fn compute_depths(&mut self)
        requires
            old(self).wf(),
        ensures
            final(self).wf(),
            final(self).same_tree_except_depths(old(self)),
            final(self).depths_settled(),
            forall|i: int|
                0 <= i < final(self).spec_len() ==> final(self).spec_depth(i) <= final(self).spec_len(),
    {
        let n = self.sources.len();
        let cap: u64 = n as u64;
        let mut depths: Vec<u64> = Vec::new();
        let mut i: usize = 0;
        while i < n
            invariant
                i <= n,
                depths@.len() == i,
                forall|m: int| 0 <= m < i ==> depths@[m] <= cap,
            decreases n - i,
        {
            depths.push(0);
            i = i + 1;
        }
        loop
            invariant_except_break
                self.wf(),
                *self == *old(self),
                n == self.spec_len(),
                cap as int == n as int,
                depths@.len() == n,
                forall|m: int| 0 <= m < n ==> depths@[m] <= cap,
            ensures
                self.wf(),
                *self == *old(self),
                n == self.spec_len(),
                cap as int == n as int,
                depths@.len() == n,
                forall|m: int| 0 <= m < n ==> depths@[m] <= cap,
                self.depths_settled_on(depths@, cap as int),
            decreases (n as int) * (cap as int) + 1 - spec_sum(depths@),
        {
            proof {
                lemma_sum_bound(depths@, cap);
            }
            let changed = self.relax_sweep(&mut depths, cap);
            if !changed {
                break ;
            }
            proof {
                lemma_sum_bound(depths@, cap);
            }
        }
        let ghost entry = *self;
        let ghost settled_view = depths@;
        self.max_depths = depths;
        proof {
            lemma_wf_transfer(*self, entry);
            assert forall|i: int|
                0 <= i < self.spec_len() implies #[trigger] self.spec_source(i) == old(self).spec_source(i) by {}
            assert forall|i: int|
                0 <= i < self.spec_len() implies #[trigger] self.spec_deps(i) == old(self).spec_deps(i) by {}
            assert forall|i: int|
                0 <= i < self.spec_len() implies #[trigger] self.spec_parents(i) == old(self).spec_parents(i) by {}
            assert forall|i: int, k: int|
                0 <= i < self.spec_len() && 0 <= k < self.spec_deps(i).len() implies self.spec_depth(
                (#[trigger] self.spec_deps(i)[k]).id as int,
            ) >= depth_step(self.spec_depth(i), self.spec_len()) by {
                assert(self.spec_deps(i) == entry.spec_deps(i));
                assert(settled_view[(entry.spec_deps(i)[k]).id as int] as int >= depth_step(
                    settled_view[i] as int,
                    cap as int,
                ));
            }
        }
    }

    /// One relaxation sweep: pushes every dependency to at least one step
    /// (capped) below its dependent, as the dependents stand right now.
    /// When nothing moves, the depths are settled.
    fn relax_sweep(&self, depths: &mut Vec<u64>, cap: u64) -> (changed: bool)
        requires
            self.wf(),
            old(depths)@.len() == self.spec_len(),
            cap as int == self.spec_len(),
            forall|m: int| 0 <= m < old(depths)@.len() ==> old(depths)@[m] <= cap,
        ensures
            final(depths)@.len() == old(depths)@.len(),
            forall|m: int| 0 <= m < final(depths)@.len() ==> final(depths)@[m] <= cap,
            !changed ==> final(depths)@ == old(depths)@ && self.depths_settled_on(
                final(depths)@,
                cap as int,
            ),
            changed ==> spec_sum(final(depths)@) > spec_sum(old(depths)@),
    {
        let ghost entry = old(depths)@;
        let ghost n = self.spec_len();
        let count = self.sources.len();
        let mut changed = false;
        let mut i: usize = 0;
        while i < count
            invariant
                self.wf(),
                n == self.spec_len(),
                count == n,
                cap as int == n,
                depths@.len() == n,
                entry.len() == n,
                forall|m: int| 0 <= m < n ==> depths@[m] <= cap,
                forall|m: int| 0 <= m < n ==> entry[m] <= cap,
                i <= count,
                !changed ==> depths@ == entry,
                !changed ==> forall|ii: int, kk: int|
                    0 <= ii < i && 0 <= kk < self.spec_deps(ii).len()
                        ==> depths@[(#[trigger] self.spec_deps(ii)[kk]).id as int] as int
                        >= depth_step(depths@[ii] as int, cap as int),
                changed ==> spec_sum(depths@) > spec_sum(entry),
            decreases count - i,
        {
            let di = depths[i];
            let nd = if di >= cap {
                cap
            } else {
                di + 1
            };
            let deps_len = match &self.dependencies[i] {
                Some(v) => v.len(),
                None => 0,
            };
            proof {
                assert(deps_len == self.spec_deps(i as int).len());
            }
            let mut k: usize = 0;
            while k < deps_len
                invariant
                    self.wf(),
                    n == self.spec_len(),
                    cap as int == n,
                    depths@.len() == n,
                    entry.len() == n,
                    forall|m: int| 0 <= m < n ==> depths@[m] <= cap,
                    forall|m: int| 0 <= m < n ==> entry[m] <= cap,
                    i < n,
                    deps_len == self.spec_deps(i as int).len(),
                    k <= deps_len,
                    nd <= cap,
                    !changed ==> depths@ == entry && di == entry[i as int] && nd as int
                        == depth_step(depths@[i as int] as int, cap as int),
                    !changed ==> forall|ii: int, kk: int|
                        0 <= ii < i && 0 <= kk < self.spec_deps(ii).len()
                            ==> depths@[(#[trigger] self.spec_deps(ii)[kk]).id as int] as int
                            >= depth_step(depths@[ii] as int, cap as int),
                    !changed ==> forall|kk: int|
                        0 <= kk < k ==> depths@[(#[trigger] self.spec_deps(
                            i as int,
                        )[kk]).id as int] >= nd,
                    changed ==> spec_sum(depths@) > spec_sum(entry),
                decreases deps_len - k,
            {
                let d = match &self.dependencies[i] {
                    Some(v) => v[k],
                    None => SourceId { id: 0 },
                };
                proof {
                    assert(d == self.spec_deps(i as int)[k as int]);
                    assert(d.id < n);
                }
                if depths[d.id] < nd {
                    proof {
                        lemma_sum_update(depths@, d.id as int, nd);
                    }
                    let ghost pre = depths@;
                    depths.set(d.id, nd);
                    proof {
                        assert(spec_sum(depths@) > spec_sum(pre));
                        if !changed {
                            assert(pre == entry);
                        }
                    }
                    changed = true;
                }
                k = k + 1;
            }
            i = i + 1;
            proof {
                if !changed {
                    assert forall|ii: int, kk: int|
                        0 <= ii < i && 0 <= kk < self.spec_deps(ii).len() implies depths@[(
                    #[trigger] self.spec_deps(ii)[kk]).id as int] as int >= depth_step(
                        depths@[ii] as int,
                        cap as int,
                    ) by {
                        if ii == i - 1 {
                            assert(depths@[self.spec_deps(ii)[kk].id as int] >= nd);
                        }
                    }
                }
            }
        }
        proof {
            if !changed {
                assert(self.depths_settled_on(depths@, cap as int));
            }
        }
        changed
    }

    /// Same sources, roots and edges; the depths may differ.
    pub open spec fn same_tree_except_depths(&self, other: &DepTree) -> bool {
        &&& self.spec_len() == other.spec_len()
        &&& self.spec_roots() == other.spec_roots()
        &&& forall|i: int|
            0 <= i < self.spec_len() ==> #[trigger] self.spec_source(i) == other.spec_source(i)
        &&& forall|i: int|
            0 <= i < self.spec_len() ==> #[trigger] self.spec_deps(i) == other.spec_deps(i)
        &&& forall|i: int|
            0 <= i < self.spec_len() ==> #[trigger] self.spec_parents(i) == other.spec_parents(i)
    }

    /// The depth of a source, as stored.
    pub fn depth_of(&self, id: SourceId) -> (r: u64)
        requires
            self.wf(),
            (id.id as int) < self.spec_len(),
        ensures
            r as int == self.spec_depth(id.id as int),
    {
        self.max_depths[id.id]
    }
}

/// Well-formedness carries over to a graph with the same tables, whatever
/// its depths, provided the new roots are valid indices.
proof fn lemma_wf_transfer(a: DepTree, b: DepTree)
    requires
        b.wf(),
        a.sources@ == b.sources@,
        a.dependencies@ == b.dependencies@,
        a.parents@ == b.parents@,
        a.max_depths@.len() == b.max_depths@.len(),
        forall|k: int| 0 <= k < a.roots@.len() ==> (#[trigger] a.roots@[k]).id < a.spec_len(),
    ensures
        a.wf(),
        a.spec_len() == b.spec_len(),
        forall|i: int| 0 <= i < a.spec_len() ==> #[trigger] a.spec_source(i) == b.spec_source(i),
        forall|i: int| 0 <= i < a.spec_len() ==> #[trigger] a.spec_deps(i) == b.spec_deps(i),
        forall|i: int| 0 <= i < a.spec_len() ==> #[trigger] a.spec_parents(i) == b.spec_parents(i),
{
    assert forall|i: int|
        0 <= i < a.spec_len() implies #[trigger] a.spec_source(i) == b.spec_source(i) by {}
    assert forall|i: int|
        0 <= i < a.spec_len() implies #[trigger] a.spec_deps(i) == b.spec_deps(i) by {}
    assert forall|i: int|
        0 <= i < a.spec_len() implies #[trigger] a.spec_parents(i) == b.spec_parents(i) by {}
    assert forall|i: int, j: int|
        0 <= i < a.spec_len() && 0 <= j < a.spec_len() implies (#[trigger] a.dep_edge(i, j)
        <==> #[trigger] a.parent_edge(j, i)) by {
        assert(a.dep_edge(i, j) <==> b.dep_edge(i, j)) by {
            if a.dep_edge(i, j) {
                let k = choose|k: int|
                    0 <= k < a.spec_deps(i).len() && (#[trigger] a.spec_deps(i)[k]).id == j;
                assert(b.spec_deps(i)[k].id == j);
            }
            if b.dep_edge(i, j) {
                let k = choose|k: int|
                    0 <= k < b.spec_deps(i).len() && (#[trigger] b.spec_deps(i)[k]).id == j;
                assert(a.spec_deps(i)[k].id == j);
            }
        }
        assert(a.parent_edge(j, i) <==> b.parent_edge(j, i)) by {
            if a.parent_edge(j, i) {
                let k = choose|k: int|
                    0 <= k < a.spec_parents(j).len() && (#[trigger] a.spec_parents(j)[k]).id == i;
                assert(b.spec_parents(j)[k].id == i);
            }
            if b.parent_edge(j, i) {
                let k = choose|k: int|
                    0 <= k < b.spec_parents(j).len() && (#[trigger] b.spec_parents(j)[k]).id == i;
                assert(a.spec_parents(j)[k].id == i);
            }
        }
        assert(b.dep_edge(i, j) <==> b.parent_edge(j, i));
    }
}

proof fn lemma_count_true_zero(s: Seq<bool>)
    requires
        forall|m: int| 0 <= m < s.len() ==> !s[m],
    ensures
        count_true(s) == 0,
    decreases s.len(),
{
    if s.len() > 0 {
        lemma_count_true_zero(s.drop_last());
    }
}

/// After marking `s` and pushing it, the marked set and the output agree
/// again.
proof fn lemma_mark_push(prev: Seq<SourceId>, cur: Seq<SourceId>, visited: Seq<bool>, s: SourceId)
    requires
        cur == prev.push(s),
        (s.id as int) < visited.len(),
        visited[s.id as int],
        forall|j: int|
            0 <= j < visited.len() && j != s.id as int && #[trigger] visited[j] ==> id_set(
                prev,
            ).contains(j),
        forall|m: int| 0 <= m < prev.len() ==> (#[trigger] prev[m]).id != s.id,
        forall|m: int, mm: int| 0 <= m < mm < prev.len() ==> prev[m].id != prev[mm].id,
    ensures
        forall|j: int| 0 <= j < visited.len() && #[trigger] visited[j] ==> id_set(cur).contains(j),
        forall|m: int, mm: int| 0 <= m < mm < cur.len() ==> cur[m].id != cur[mm].id,
{
    assert forall|j: int|
        0 <= j < visited.len() && #[trigger] visited[j] implies id_set(cur).contains(j) by {
        lemma_id_set_contains(cur, j);
        if j == s.id as int {
            assert(cur[cur.len() - 1].id == j);
        } else {
            lemma_id_set_contains(prev, j);
            let m = choose|m: int| 0 <= m < prev.len() && (#[trigger] prev[m]).id == j;
            assert(cur[m].id == j);
        }
    }
}

/// A plain copy of a list of ids.
pub fn copy_ids(v: &Vec<SourceId>) -> (r: Vec<SourceId>)
    ensures
        r@ == v@,
{
    let mut r: Vec<SourceId> = Vec::new();
    let mut k: usize = 0;
    while k < v.len()
        invariant
            k <= v@.len(),
            r@ == v@.take(k as int),
        decreases v@.len() - k,
    {
        r.push(v[k]);
        proof {
            assert(v@.take(k as int).push(v@[k as int]) =~= v@.take(k as int + 1));
        }
        k = k + 1;
    }
    proof {
        assert(v@.take(v@.len() as int) =~= v@);
    }
    r
}

} // verus!
