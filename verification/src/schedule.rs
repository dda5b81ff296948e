//! The build engine's decision core: which node runs next, what commands
//! its recipe plans, whether a step may spawn, and what follows a node's
//! completion. The surrounding binary performs the file stats and the
//! subprocesses and feeds the outcomes back; every scheduling decision is
//! made here. A node is issued at most once, a failed node cancels the
//! build, and nothing may spawn once the cancellation flag is set.

use vstd::prelude::*;
use vstd::string::*;

use crate::graph::{in_seq, useq_iv, Graph};
use crate::parser::{assoc_find, Recipe, RecipeV};
use crate::parser::recipes_view;
use crate::runner::{
    dep_paths, do_replacements, needs_compiling, select_recipe, spec_dep_paths,
    spec_needs_compiling, spec_substitute, recipe_matches, find_bucket,
};
use crate::util::{join_path, spec_join, spec_remove_prefix, remove_prefix};

verus! {

/// Why the runner cannot build a node.
#[derive(Debug, PartialEq, Eq)]
pub enum BuildError {
    /// No recipe bucket fits the target's extension, and there is no
    /// catch-all bucket either.
    NoRecipeBucket(String),
    /// The bucket holds no recipe that any dependency of the target
    /// satisfies.
    NoMatchingRecipe(String),
}

/// The first recipe of a bucket, from `i` on, that some dependency
/// satisfies.
pub open spec fn first_match(
    target: Seq<char>,
    deps: Seq<crate::runner::DepFileV>,
    bucket: Seq<RecipeV>,
    i: int,
) -> Option<int>
    decreases bucket.len() - i,
{
    if i < 0 || i >= bucket.len() {
        None
    } else if recipe_matches(target, deps, bucket[i]) {
        Some(i)
    } else {
        first_match(target, deps, bucket, i + 1)
    }
}

/// A first matching recipe pins `first_match` down.
pub proof fn lemma_first_match_at(
    target: Seq<char>,
    deps: Seq<crate::runner::DepFileV>,
    bucket: Seq<RecipeV>,
    i: int,
)
    requires
        0 <= i < bucket.len(),
        recipe_matches(target, deps, bucket[i]),
        forall|j: int| 0 <= j < i ==> !recipe_matches(target, deps, bucket[j]),
    ensures
        first_match(target, deps, bucket, 0) == Some(i),
    decreases i,
{
    lemma_first_match_from(target, deps, bucket, 0, i);
}

proof fn lemma_first_match_from(
    target: Seq<char>,
    deps: Seq<crate::runner::DepFileV>,
    bucket: Seq<RecipeV>,
    k: int,
    i: int,
)
    requires
        0 <= k <= i < bucket.len(),
        recipe_matches(target, deps, bucket[i]),
        forall|j: int| 0 <= j < i ==> !recipe_matches(target, deps, bucket[j]),
    ensures
        first_match(target, deps, bucket, k) == Some(i),
    decreases i - k,
{
    if k < i {
        lemma_first_match_from(target, deps, bucket, k + 1, i);
    }
}

/// No match anywhere leaves `first_match` empty.
pub proof fn lemma_first_match_none(
    target: Seq<char>,
    deps: Seq<crate::runner::DepFileV>,
    bucket: Seq<RecipeV>,
    k: int,
)
    requires
        forall|j: int| 0 <= j < bucket.len() ==> !recipe_matches(target, deps, bucket[j]),
        k >= 0,
    ensures
        first_match(target, deps, bucket, k) is None,
    decreases bucket.len() - k,
{
    if k < bucket.len() {
        lemma_first_match_none(target, deps, bucket, k + 1);
    }
}

/// The recipe bucket a target uses: its extension's bucket, with the
/// catch-all `%` bucket as fallback.
pub open spec fn spec_bucket(
    rv: Seq<(Seq<char>, Seq<RecipeV>)>,
    name: Seq<char>,
) -> Option<int> {
    if assoc_find(rv, spec_remove_prefix(name)) is Some {
        assoc_find(rv, spec_remove_prefix(name))
    } else {
        assoc_find(rv, "%"@)
    }
}

/// The commands planned for one node: the resolved target path, the
/// dependency paths the chosen recipe consumes, and each step's argv with
/// all sigils substituted.
#[derive(Debug)]
pub struct NodePlan {
    pub target_path: String,
    pub dep_paths: Vec<String>,
    pub steps: Vec<Vec<String>>,
}

/// The whole state the build engine carries between decisions.
pub struct BuildState {
    pub graph: Graph,
    pub recipes: Vec<(String, Vec<Recipe>)>,
    pub builddir: String,
    pub sourcedir: String,
    pub queue: Vec<usize>,
    pub started: Vec<bool>,
    pub node_done: Vec<bool>,
    pub cancelled: bool,
}

/// One issuance step of the engine: `j` had not started, and starting it
/// is the only change to the start set.
pub open spec fn spec_issues(pre: BuildState, post: BuildState, j: int) -> bool {
    &&& 0 <= j < pre.started@.len()
    &&& !pre.started@[j]
    &&& post.started@ == pre.started@.update(j, true)
}

/// A queued node that cannot run yet: it has already started, or one of
/// its dependencies is not done.
pub open spec fn spec_unready(st: BuildState, j: int) -> bool {
    st.started@[j] || (exists|k: int|
        0 <= k < st.graph@[j].dependencies.len() && !st.node_done@[#[trigger] st.graph@[
            j
        ].dependencies[k]])
}

/// Whether a step whose staleness data reads `target_mtime`/`dep_mtimes`
/// may spawn now: never once the build is cancelled, and only when the
/// target is stale.
pub open spec fn spec_should_spawn(
    st: BuildState,
    target_mtime: Option<u64>,
    dep_mtimes: Seq<Option<u64>>,
) -> bool {
    !st.cancelled && spec_needs_compiling(target_mtime, dep_mtimes)
}

/// After the cancellation flag is set, no step may spawn a subprocess.
pub proof fn lemma_fail_fast(st: BuildState, target_mtime: Option<u64>, dep_mtimes: Seq<Option<u64>>)
    requires
        st.cancelled,
    ensures
        !spec_should_spawn(st, target_mtime, dep_mtimes),
{
}

/// At most once: a node is issued only while it is unstarted, and the
/// issuance marks it started. No engine operation ever clears a start
/// mark, so over any run of the build each node's steps are issued at
/// most one time.
pub proof fn lemma_execute_once(pre: BuildState, post: BuildState, j: int)
    requires
        spec_issues(pre, post, j),
    ensures
        !pre.started@[j],
        post.started@[j],
{
}

/// Writes one element of a flag vector.
fn set_flag(v: &mut Vec<bool>, i: usize, b: bool)
    requires
        i < old(v)@.len(),
    ensures
        final(v)@ == old(v)@.update(i as int, b),
{
    let ghost pre = v@;
    let _ = v.remove(i);
    v.insert(i, b);
    proof {
        assert(v@ =~= pre.update(i as int, b));
    }
}

impl BuildState {
    /// The engine's structural invariant.
    pub open spec fn wf(self) -> bool {
        &&& self.graph.wf()
        &&& self.started@.len() == self.graph@.len()
        &&& self.node_done@.len() == self.graph@.len()
        &&& (forall|p: int|
            0 <= p < self.queue@.len() ==> (#[trigger] self.queue@[p] as int) < self.graph@.len())
    }

    /// Starts a build: the initial jobs are exactly the nodes that list
    /// no other node as a dependency, in index order; nothing has started,
    /// nothing is done, and the build is not cancelled.
    pub fn new(graph: Graph, recipes: Vec<(String, Vec<Recipe>)>, builddir: String, sourcedir: String) -> (r: BuildState)
        requires
            graph.wf(),
        ensures
            r.wf(),
            r.graph == graph,
            r.recipes == recipes,
            r.builddir == builddir,
            r.sourcedir == sourcedir,
            !r.cancelled,
            r.started@.len() == graph@.len(),
            r.node_done@.len() == graph@.len(),
            forall|i: int| 0 <= i < graph@.len() ==> !(#[trigger] r.started@[i]),
            forall|i: int| 0 <= i < graph@.len() ==> !(#[trigger] r.node_done@[i]),
            forall|j: int|
                0 <= j < graph@.len() ==> (in_seq(useq_iv(r.queue@), j) <==> (#[trigger] graph@[
                    j
                ]).dependencies.len() == 0),
    {
        let n = graph.nodes.len();
        let queue = crate::graph::get_roots(&graph);
        let mut started: Vec<bool> = Vec::new();
        let mut node_done: Vec<bool> = Vec::new();
        let mut i: usize = 0;
        while i < n
            invariant
                i <= n,
                started@.len() == i,
                node_done@.len() == i,
                forall|q: int| 0 <= q < i ==> !(#[trigger] started@[q]),
                forall|q: int| 0 <= q < i ==> !(#[trigger] node_done@[q]),
            decreases n - i,
        {
            started.push(false);
            node_done.push(false);
            i += 1;
        }
        let r = BuildState {
            graph,
            recipes,
            builddir,
            sourcedir,
            queue,
            started,
            node_done,
            cancelled: false,
        };
        proof {
            assert(r.graph@.len() == r.graph.nodes@.len());
            assert forall|j: int|
                0 <= j < r.graph@.len() implies (in_seq(useq_iv(r.queue@), j) <==> (
            #[trigger] r.graph@[j]).dependencies.len() == 0) by {
                if in_seq(useq_iv(r.queue@), j) {
                    let p = choose|p: int|
                        0 <= p < useq_iv(r.queue@).len() && useq_iv(r.queue@)[p] == j;
                    crate::graph::lemma_useq_iv_index(r.queue@, p);
                    assert(!r.graph@[r.queue@[p] as int].is_branch);
                }
                if !r.graph@[j].is_branch {
                    assert(in_seq(useq_iv(r.queue@), j));
                }
            }
            assert forall|p: int|
                0 <= p < r.queue@.len() implies (#[trigger] r.queue@[p] as int)
                < r.graph@.len() by {}
        }
        r
    }

    /// The next node ready to run, if any: it is taken from the submitted
    /// queue, has not started, and every one of its dependencies is done.
    /// A node whose dependencies are not all done is abandoned silently;
    /// its completing dependency will submit it again. Nothing is issued
    /// once the build is cancelled.
    pub fn next_job(&mut self) -> (r: Option<usize>)
        requires
            old(self).wf(),
        ensures
            final(self).wf(),
            final(self).graph == old(self).graph,
            final(self).recipes == old(self).recipes,
            final(self).builddir == old(self).builddir,
            final(self).sourcedir == old(self).sourcedir,
            final(self).node_done@ == old(self).node_done@,
            final(self).cancelled == old(self).cancelled,
            match r {
                Some(j) => {
                    &&& (j as int) < old(self).graph@.len()
                    &&& !old(self).started@[j as int]
                    &&& !old(self).cancelled
                    &&& spec_issues(*old(self), *final(self), j as int)
                    &&& (forall|k: int|
                        0 <= k < old(self).graph@[j as int].dependencies.len()
                            ==> old(self).node_done@[#[trigger] old(self).graph@[
                            j as int
                        ].dependencies[k]])
                },
                None => final(self).started@ == old(self).started@ && (old(self).cancelled || (
                final(self).queue@.len() == 0 && (forall|p: int|
                    0 <= p < old(self).queue@.len() ==> spec_unready(
                        *old(self),
                        #[trigger] old(self).queue@[p] as int,
                    )))),
            },
    {
        if self.cancelled {
            return None;
        }
        let ghost mut seen: int = 0;
        proof {
            assert(self.queue@ =~= old(self).queue@.skip(0));
        }
        while self.queue.len() > 0
            invariant
                self.wf(),
                self.graph == old(self).graph,
                self.recipes == old(self).recipes,
                self.builddir == old(self).builddir,
                self.sourcedir == old(self).sourcedir,
                self.node_done@ == old(self).node_done@,
                self.cancelled == old(self).cancelled,
                self.started@ == old(self).started@,
                !self.cancelled,
                0 <= seen <= old(self).queue@.len(),
                self.queue@ =~= old(self).queue@.skip(seen),
                forall|p: int|
                    0 <= p < seen ==> spec_unready(*old(self), #[trigger] old(self).queue@[p] as int),
            decreases self.queue@.len(),
        {
            proof {
                assert(old(self).queue@.skip(seen)[0] == old(self).queue@[seen]);
                assert(old(self).queue@.skip(seen).drop_first() =~= old(self).queue@.skip(
                    seen + 1,
                ));
            }
            let j = self.queue.remove(0);
            if !self.started[j] {
                let nd = self.graph.nodes.len();
                proof {
                    assert(self.graph@[j as int] == self.graph.nodes@[j as int]@);
                }
                let deps_n = self.graph.nodes[j].dependencies.len();
                let mut k: usize = 0;
                let mut ready = true;
                while k < deps_n
                    invariant
                        k <= deps_n,
                        self.wf(),
                        (j as int) < self.graph@.len(),
                        self.graph@[j as int] == self.graph.nodes@[j as int]@,
                        deps_n == self.graph.nodes@[j as int].dependencies@.len(),
                        self.graph@[j as int].dependencies.len() == deps_n,
                        ready ==> (forall|q: int|
                            0 <= q < k ==> self.node_done@[#[trigger] self.graph@[
                                j as int
                            ].dependencies[q]]),
                        !ready ==> exists|q: int|
                            0 <= q < deps_n && !self.node_done@[#[trigger] self.graph@[
                                j as int
                            ].dependencies[q]],
                    decreases deps_n - k,
                {
                    proof {
                        assert(self.graph@[j as int].dependencies[k as int]
                            == self.graph.nodes@[j as int].dependencies@[k as int] as int);
                    }
                    let d = self.graph.nodes[j].dependencies[k];
                    proof {
                        assert(0 <= self.graph@[j as int].dependencies[k as int]
                            < self.graph@.len());
                    }
                    if !self.node_done[d] {
                        ready = false;
                    }
                    k += 1;
                }
                if ready {
                    set_flag(&mut self.started, j, true);
                    return Some(j);
                }
                proof {
                    assert(spec_unready(*old(self), j as int));
                    seen = seen + 1;
                }
            } else {
                proof {
                    assert(spec_unready(*old(self), j as int));
                    seen = seen + 1;
                }
            }
        }
        proof {
            assert(old(self).queue@.skip(seen).len() == 0);
            assert(seen == old(self).queue@.len());
        }
        None
    }

    /// Records a node's outcome. Success completes the node and submits
    /// every one of its dependents; failure sets the cancellation flag and
    /// completes nothing.
    pub fn complete_job(&mut self, j: usize, success: bool)
        requires
            old(self).wf(),
            (j as int) < old(self).graph@.len(),
        ensures
            final(self).wf(),
            final(self).graph == old(self).graph,
            final(self).recipes == old(self).recipes,
            final(self).builddir == old(self).builddir,
            final(self).sourcedir == old(self).sourcedir,
            final(self).started@ == old(self).started@,
            success ==> {
                &&& final(self).node_done@ == old(self).node_done@.update(j as int, true)
                &&& final(self).cancelled == old(self).cancelled
                &&& useq_iv(final(self).queue@) == useq_iv(old(self).queue@) + old(
                    self,
                ).graph@[j as int].dependents
            },
            !success ==> {
                &&& final(self).cancelled
                &&& final(self).node_done@ == old(self).node_done@
                &&& final(self).queue@ == old(self).queue@
            },
    {
        if !success {
            self.cancelled = true;
            return;
        }
        set_flag(&mut self.node_done, j, true);
        proof {
            assert(self.graph@[j as int] == self.graph.nodes@[j as int]@);
        }
        let m = self.graph.nodes[j].dependents.len();
        let mut k: usize = 0;
        proof {
            assert(useq_iv(self.queue@) + self.graph@[j as int].dependents.take(0) =~= useq_iv(
                self.queue@,
            ));
        }
        let ghost pre_queue = useq_iv(self.queue@);
        while k < m
            invariant
                k <= m,
                self.wf(),
                (j as int) < self.graph@.len(),
                self.graph == old(self).graph,
                self.recipes == old(self).recipes,
                self.builddir == old(self).builddir,
                self.sourcedir == old(self).sourcedir,
                self.started@ == old(self).started@,
                self.node_done@ == old(self).node_done@.update(j as int, true),
                self.cancelled == old(self).cancelled,
                self.graph@[j as int] == self.graph.nodes@[j as int]@,
                m == self.graph.nodes@[j as int].dependents@.len(),
                self.graph@[j as int].dependents.len() == m,
                pre_queue == useq_iv(old(self).queue@),
                useq_iv(self.queue@) =~= pre_queue + self.graph@[j as int].dependents.take(
                    k as int,
                ),
            decreases m - k,
        {
            proof {
                assert(self.graph@[j as int].dependents[k as int] == self.graph.nodes@[
                    j as int
                ].dependents@[k as int] as int);
                assert(0 <= self.graph@[j as int].dependents[k as int] < self.graph@.len());
            }
            let d = self.graph.nodes[j].dependents[k];
            let ghost pre = useq_iv(self.queue@);
            self.queue.push(d);
            proof {
                assert forall|q: int| 0 <= q < self.queue@.len() implies useq_iv(self.queue@)[q]
                    == pre.push(d as int)[q] by {
                    crate::graph::lemma_useq_iv_index(self.queue@, q);
                    if q < pre.len() {
                        crate::graph::lemma_useq_iv_index(self.queue@.drop_last(), q);
                        assert(self.queue@.drop_last() =~= self.queue@.take(self.queue@.len() - 1));
                    }
                }
                assert(useq_iv(self.queue@) =~= pre.push(d as int));
                assert(pre_queue + self.graph@[j as int].dependents.take(k as int) + seq![
                    self.graph@[j as int].dependents[k as int],
                ] =~= pre_queue + self.graph@[j as int].dependents.take(k + 1));
            }
            k += 1;
        }
        proof {
            assert(self.graph@[j as int].dependents.take(m as int) =~= self.graph@[
                j as int
            ].dependents);
            assert(useq_iv(self.queue@) =~= pre_queue + self.graph@[j as int].dependents);
        }
    }

    /// Whether the build has been cancelled.
    pub fn is_cancelled(&self) -> (r: bool)
        ensures
            r == self.cancelled,
    {
        self.cancelled
    }

    /// Whether a step with this staleness data may spawn its subprocess
    /// now: only on a stale target, and never once the build is cancelled.
    pub fn should_spawn(&self, target_mtime: Option<u64>, dep_mtimes: &Vec<Option<u64>>) -> (r:
        bool)
        ensures
            r == spec_should_spawn(*self, target_mtime, dep_mtimes@),
    {
        if self.cancelled {
            return false;
        }
        needs_compiling(target_mtime, dep_mtimes)
    }

    /// Plans the commands that build node `j`: the recipe bucket for the
    /// target's extension (or the catch-all `%` bucket), the first recipe
    /// of it that some dependency satisfies, and each step with its
    /// sigils substituted. The exact errors name the target.
    pub fn plan_node(&self, j: usize) -> (r: Result<NodePlan, BuildError>)
        requires
            self.wf(),
            (j as int) < self.graph@.len(),
        ensures
            ({
                let rv = recipes_view(self.recipes@);
                let name = self.graph@[j as int].name;
                let deps = self.graph@[j as int].dependency_files;
                match r {
                    Ok(plan) => {
                        &&& spec_bucket(rv, name) is Some
                        &&& {
                            let bucket = rv[spec_bucket(rv, name)->Some_0].1;
                            &&& first_match(name, deps, bucket, 0) is Some
                            &&& {
                                let rec = bucket[first_match(name, deps, bucket, 0)->Some_0];
                                &&& plan.target_path@ == spec_join(self.builddir@, name)
                                &&& plan.dep_paths.deep_view() == spec_dep_paths(
                                    deps,
                                    name,
                                    rec,
                                    self.sourcedir@,
                                    self.builddir@,
                                )
                                &&& plan.steps@.len() == rec.steps.len()
                                &&& (forall|s: int|
                                    0 <= s < rec.steps.len()
                                        ==> (#[trigger] plan.steps@[s]).deep_view()
                                        == spec_substitute(
                                        rec.steps[s],
                                        spec_join(self.builddir@, name),
                                        spec_dep_paths(
                                            deps,
                                            name,
                                            rec,
                                            self.sourcedir@,
                                            self.builddir@,
                                        ),
                                        self.builddir@,
                                        self.sourcedir@,
                                    ))
                            }
                        }
                    },
                    Err(BuildError::NoRecipeBucket(t)) => t@ == name && spec_bucket(rv, name)
                        is None,
                    Err(BuildError::NoMatchingRecipe(t)) => t@ == name && spec_bucket(rv, name)
                        is Some && first_match(
                        name,
                        deps,
                        rv[spec_bucket(rv, name)->Some_0].1,
                        0,
                    ) is None,
                }
            }),
    {
        proof {
            assert(self.graph@[j as int] == self.graph.nodes@[j as int]@);
        }
        let node = &self.graph.nodes[j];
        let ghost rv = recipes_view(self.recipes@);
        let ghost name_v = node.name@;
        let ext = remove_prefix(node.name.as_str());
        let bi_opt = match find_bucket(&self.recipes, ext) {
            Some(bi) => Some(bi),
            None => find_bucket(&self.recipes, "%"),
        };
        let bi = match bi_opt {
            None => {
                return Err(BuildError::NoRecipeBucket(node.name.clone()));
            },
            Some(bi) => bi,
        };
        proof {
            crate::parser::lemma_recipes_view_index(self.recipes@, bi as int);
            assert(spec_bucket(rv, name_v) == Some(bi as int));
        }
        let bucket = &self.recipes[bi].1;
        let ri = match select_recipe(node.name.as_str(), &node.dependency_files, bucket) {
            None => {
                proof {
                    crate::schedule::lemma_first_match_none(
                        name_v,
                        node.dependency_files.deep_view(),
                        bucket.deep_view(),
                        0,
                    );
                }
                return Err(BuildError::NoMatchingRecipe(node.name.clone()));
            },
            Some(ri) => {
                proof {
                    lemma_first_match_at(
                        name_v,
                        node.dependency_files.deep_view(),
                        bucket.deep_view(),
                        ri as int,
                    );
                }
                ri
            },
        };
        proof {
            assert(bucket.deep_view()[ri as int] == bucket@[ri as int]@);
        }
        let rec = &bucket[ri];
        let target_path = join_path(self.builddir.as_str(), node.name.as_str());
        let dps = dep_paths(
            &node.dependency_files,
            node.name.as_str(),
            rec,
            self.sourcedir.as_str(),
            self.builddir.as_str(),
        );
        let ns = rec.steps.len();
        let mut steps: Vec<Vec<String>> = Vec::new();
        let mut s: usize = 0;
        while s < ns
            invariant
                s <= ns,
                ns == rec.steps@.len(),
                rec@.steps.len() == ns,
                rec@ == bucket.deep_view()[ri as int],
                (ri as int) < bucket.deep_view().len(),
                target_path@ == spec_join(self.builddir@, name_v),
                name_v == self.graph@[j as int].name,
                (j as int) < self.graph@.len(),
                self.graph@[j as int] == self.graph.nodes@[j as int]@,
                dps.deep_view() == spec_dep_paths(
                    self.graph@[j as int].dependency_files,
                    name_v,
                    rec@,
                    self.sourcedir@,
                    self.builddir@,
                ),
                steps@.len() == s,
                forall|q: int|
                    0 <= q < s ==> (#[trigger] steps@[q]).deep_view() == spec_substitute(
                        rec@.steps[q],
                        spec_join(self.builddir@, name_v),
                        dps.deep_view(),
                        self.builddir@,
                        self.sourcedir@,
                    ),
            decreases ns - s,
        {
            proof {
                assert(rec@.steps[s as int] == rec.steps@[s as int].deep_view());
            }
            let argv = do_replacements(
                &rec.steps[s],
                target_path.as_str(),
                &dps,
                self.builddir.as_str(),
                self.sourcedir.as_str(),
            );
            steps.push(argv);
            s += 1;
        }
        Ok(NodePlan { target_path, dep_paths: dps, steps })
    }
}

} // verus!
