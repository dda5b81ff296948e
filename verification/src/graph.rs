//! Lowering an evaluated task file into a dependency graph over files:
//! canonicalizing names against the source and build roots, synthesizing
//! implicit intermediate tasks from pattern recipes, linking mutual
//! dependency/dependent edges, and finding the nodes where a build starts.

use vstd::prelude::*;
use vstd::string::*;

use crate::functions::str_eq;
use crate::parser::{assoc_find, lemma_assoc_find, lemma_assoc_find_at, lemma_tasks_view_index};
use crate::parser::{tasks_view, Recipe, RecipeV, Task, TaskFile};
use crate::runner::{DepFileV, DependencyFile};
use crate::util::push_char;
use crate::util::spec_remove_prefix;
use crate::util::spec_remove_suffix;
use crate::util::spec_starts_with;
use crate::util::spec_with_slash;
use crate::util::starts_with_str;
use crate::util::with_slash;
use crate::util::remove_prefix;
use crate::util::remove_suffix;

verus! {

/// A canonical name: what remains after stripping a recognized root prefix.
/// The build root is tried before the source root.
pub open spec fn spec_decanon(s: Seq<char>, sd: Seq<char>, bd: Seq<char>) -> Seq<char> {
    let b = spec_with_slash(bd);
    let sr = spec_with_slash(sd);
    if spec_starts_with(s, b) {
        s.skip(b.len() as int)
    } else if spec_starts_with(s, sr) {
        s.skip(sr.len() as int)
    } else {
        s
    }
}

/// Strips a leading `<build_root>/` or `<source_root>/` from a filename.
pub fn decannonicalize(s: &str, sourcedir: &str, builddir: &str) -> (r: String)
    ensures
        r@ == spec_decanon(s@, sourcedir@, builddir@),
{
    let b = with_slash(builddir);
    let sr = with_slash(sourcedir);
    let n: usize = s.unicode_len();
    if starts_with_str(s, b.as_str()) {
        let m: usize = b.as_str().unicode_len();
        let out = String::from_str(s.substring_char(m, n));
        proof {
            assert(out@ =~= s@.skip(b@.len() as int));
        }
        out
    } else if starts_with_str(s, sr.as_str()) {
        let m: usize = sr.as_str().unicode_len();
        let out = String::from_str(s.substring_char(m, n));
        proof {
            assert(out@ =~= s@.skip(sr@.len() as int));
        }
        out
    } else {
        String::from_str(s)
    }
}

/// Every task name and input with recognized root prefixes stripped.
pub open spec fn spec_fix_paths(
    ts: Seq<(Seq<char>, Seq<Seq<char>>)>,
    sd: Seq<char>,
    bd: Seq<char>,
) -> Seq<(Seq<char>, Seq<Seq<char>>)> {
    ts.map_values(
        |p: (Seq<char>, Seq<Seq<char>>)|
            (spec_decanon(p.0, sd, bd), p.1.map_values(|d: Seq<char>| spec_decanon(d, sd, bd))),
    )
}

/// Rewrites every task target and input to its canonical relative name.
pub fn fix_paths(tf: &mut TaskFile, sourcedir: &str, builddir: &str)
    ensures
        final(tf)@.tasks == spec_fix_paths(old(tf)@.tasks, sourcedir@, builddir@),
        final(tf)@.recipes == old(tf)@.recipes,
{
    let ghost tv = tf@.tasks;
    let mut new_tasks: Vec<(String, Task)> = Vec::new();
    let mut i: usize = 0;
    let n = tf.tasks.len();
    proof {
        assert(tasks_view(new_tasks@) =~= Seq::<(Seq<char>, Seq<Seq<char>>)>::empty());
    }
    while i < n
        invariant
            i <= n,
            n == tf.tasks@.len(),
            tf@.tasks == tv,
            tf.tasks@ == old(tf).tasks@,
            tf.recipes@ == old(tf).recipes@,
            tasks_view(new_tasks@) =~= spec_fix_paths(tv, sourcedir@, builddir@).take(i as int),
        decreases n - i,
    {
        proof {
            lemma_tasks_view_index(tf.tasks@, i as int);
        }
        let name2 = decannonicalize(tf.tasks[i].0.as_str(), sourcedir, builddir);
        let mut inputs2: Vec<String> = Vec::new();
        let m = tf.tasks[i].1.inputs.len();
        let mut k: usize = 0;
        while k < m
            invariant
                k <= m,
                i < n,
                n == tf.tasks@.len(),
                m == tf.tasks@[i as int].1.inputs@.len(),
                tf@.tasks == tv,
                tf.tasks@ == old(tf).tasks@,
                tf.recipes@ == old(tf).recipes@,
                inputs2@.len() == k,
                forall|q: int|
                    0 <= q < k ==> inputs2@[q]@ == spec_decanon(
                        tf.tasks@[i as int].1.inputs@[q]@,
                        sourcedir@,
                        builddir@,
                    ),
            decreases m - k,
        {
            inputs2.push(
                decannonicalize(tf.tasks[i].1.inputs[k].as_str(), sourcedir, builddir),
            );
            k += 1;
        }
        let ghost pre_view = tasks_view(new_tasks@);
        let ghost name2_v = name2@;
        let ghost inputs2_dv = inputs2.deep_view();
        new_tasks.push((name2, Task { inputs: inputs2 }));
        proof {
            lemma_tasks_view_index(new_tasks@, new_tasks@.len() - 1);
            assert forall|q: int| 0 <= q < new_tasks@.len() implies tasks_view(new_tasks@)[q]
                == pre_view.push((name2_v, inputs2_dv))[q] by {
                lemma_tasks_view_index(new_tasks@, q);
                if q < pre_view.len() {
                }
            }
            assert(tasks_view(new_tasks@) =~= pre_view.push((name2_v, inputs2_dv)));
            assert(inputs2_dv =~= tv[i as int].1.map_values(
                |d: Seq<char>| spec_decanon(d, sourcedir@, builddir@),
            ));
            assert(tasks_view(new_tasks@) =~= spec_fix_paths(tv, sourcedir@, builddir@).take(
                i + 1,
            ));
        }
        i += 1;
    }
    tf.tasks = new_tasks;
    proof {
        assert(spec_fix_paths(tv, sourcedir@, builddir@).take(n as int) =~= spec_fix_paths(
            tv,
            sourcedir@,
            builddir@,
        ));
    }
}

/// Does the listing hold exactly this name?
pub open spec fn file_in(files: Seq<Seq<char>>, f: Seq<char>) -> bool {
    exists|i: int| 0 <= i < files.len() && files[i] == f
}

/// Whether the source listing holds `f`.
pub fn file_in_listing(files: &Vec<String>, f: &str) -> (r: bool)
    ensures
        r == file_in(files.deep_view(), f@),
{
    let n = files.len();
    let mut i: usize = 0;
    while i < n
        invariant
            i <= n,
            n == files@.len(),
            forall|j: int| 0 <= j < i ==> files.deep_view()[j] != f@,
        decreases n - i,
    {
        proof {
            assert(files.deep_view()[i as int] == files@[i as int]@);
        }
        if str_eq(files[i].as_str(), f) {
            return true;
        }
        i += 1;
    }
    false
}

/// The file a pattern input names for a given stem: `<stem>.<ext>`.
pub open spec fn spec_stem_file(stem: Seq<char>, ext: Seq<char>) -> Seq<char> {
    stem + seq!['.'] + ext
}

/// Builds `<stem>.<ext>`.
fn stem_file(stem: &str, ext: &str) -> (r: String)
    ensures
        r@ == spec_stem_file(stem@, ext@),
{
    let mut r = String::from_str(stem);
    push_char(&mut r, '.');
    r.append(ext);
    proof {
        assert(r@ =~= spec_stem_file(stem@, ext@));
    }
    r
}

/// A recipe is fully satisfiable for a stem when every one of its pattern
/// inputs exists as a source file.
pub open spec fn sat_recipe(r: RecipeV, stem: Seq<char>, srcs: Seq<Seq<char>>) -> bool {
    forall|e: int|
        0 <= e < r.templ_in.len() ==> file_in(srcs, spec_stem_file(stem, #[trigger] r.templ_in[e]))
}

/// Whether every pattern input of `r` exists for this stem.
fn recipe_satisfiable(r: &Recipe, stem: &str, srcs: &Vec<String>) -> (b: bool)
    ensures
        b == sat_recipe(r@, stem@, srcs.deep_view()),
{
    let n = r.templ_in.len();
    let mut i: usize = 0;
    while i < n
        invariant
            i <= n,
            n == r.templ_in@.len(),
            forall|e: int|
                0 <= e < i ==> file_in(
                    srcs.deep_view(),
                    spec_stem_file(stem@, #[trigger] r@.templ_in[e]),
                ),
        decreases n - i,
    {
        proof {
            assert(r@.templ_in[i as int] == r.templ_in@[i as int]@);
        }
        let cand = stem_file(stem, r.templ_in[i].as_str());
        if !file_in_listing(srcs, cand.as_str()) {
            return false;
        }
        i += 1;
    }
    true
}

/// How many recipes of the bucket, from index `i` on, are satisfiable.
pub open spec fn count_sat(bucket: Seq<RecipeV>, stem: Seq<char>, srcs: Seq<Seq<char>>, i: int) -> int
    decreases bucket.len() - i,
{
    if i < 0 || i >= bucket.len() {
        0
    } else if sat_recipe(bucket[i], stem, srcs) {
        1 + count_sat(bucket, stem, srcs, i + 1)
    } else {
        count_sat(bucket, stem, srcs, i + 1)
    }
}

/// The first satisfiable recipe from index `i` on, if any.
pub open spec fn first_sat(bucket: Seq<RecipeV>, stem: Seq<char>, srcs: Seq<Seq<char>>, i: int) -> Option<int>
    decreases bucket.len() - i,
{
    if i < 0 || i >= bucket.len() {
        None
    } else if sat_recipe(bucket[i], stem, srcs) {
        Some(i)
    } else {
        first_sat(bucket, stem, srcs, i + 1)
    }
}

/// The inputs an implicit task gets: `<stem>.<ext>` for each pattern input.
pub open spec fn implicit_inputs(r: RecipeV, stem: Seq<char>) -> Seq<Seq<char>> {
    r.templ_in.map_values(|e: Seq<char>| spec_stem_file(stem, e))
}

/// Why graph construction failed.
#[derive(Debug, PartialEq, Eq)]
pub enum GraphError {
    /// No recipe can produce this wanted file: its bucket is missing or
    /// holds no fully satisfiable recipe.
    NoRecipe(String),
    /// More than one recipe of the bucket is fully satisfiable for this
    /// wanted file.
    Ambiguous(String),
}

/// The spec-level shadow of [`GraphError`].
pub enum GraphErrV {
    NoRecipe(Seq<char>),
    Ambiguous(Seq<char>),
}

/// What an exec graph error states.
pub open spec fn graph_err_view(e: GraphError) -> GraphErrV {
    match e {
        GraphError::NoRecipe(s) => GraphErrV::NoRecipe(s@),
        GraphError::Ambiguous(s) => GraphErrV::Ambiguous(s@),
    }
}

/// What one input of one task demands: nothing, when it is a task or a
/// source file; a synthesized task, when exactly one recipe fits; else the
/// exact error.
pub open spec fn spec_dep_action(
    dep: Seq<char>,
    tasks0: Seq<(Seq<char>, Seq<Seq<char>>)>,
    recipes: Seq<(Seq<char>, Seq<RecipeV>)>,
    srcs: Seq<Seq<char>>,
) -> Result<Option<Seq<Seq<char>>>, GraphErrV> {
    if assoc_find(tasks0, dep) is Some || file_in(srcs, dep) {
        Ok(None)
    } else {
        let stem = spec_remove_suffix(dep);
        match assoc_find(recipes, spec_remove_prefix(dep)) {
            None => Err(GraphErrV::NoRecipe(dep)),
            Some(bi) => {
                let bucket = recipes[bi].1;
                let c = count_sat(bucket, stem, srcs, 0);
                if c == 0 {
                    Err(GraphErrV::NoRecipe(dep))
                } else if c > 1 {
                    Err(GraphErrV::Ambiguous(dep))
                } else {
                    Ok(
                        Some(
                            implicit_inputs(bucket[first_sat(bucket, stem, srcs, 0)->Some_0], stem),
                        ),
                    )
                }
            },
        }
    }
}

/// Adds a synthesized task unless one with this name is already gathered.
pub open spec fn add_if_new(
    acc: Seq<(Seq<char>, Seq<Seq<char>>)>,
    name: Seq<char>,
    inputs: Seq<Seq<char>>,
) -> Seq<(Seq<char>, Seq<Seq<char>>)> {
    if assoc_find(acc, name) is Some {
        acc
    } else {
        acc.push((name, inputs))
    }
}

/// Scans every input of every task from position `(ti, ii)` on, gathering
/// the implicit tasks to synthesize.
pub open spec fn spec_scan(
    tasks0: Seq<(Seq<char>, Seq<Seq<char>>)>,
    recipes: Seq<(Seq<char>, Seq<RecipeV>)>,
    srcs: Seq<Seq<char>>,
    ti: int,
    ii: int,
    acc: Seq<(Seq<char>, Seq<Seq<char>>)>,
) -> Result<Seq<(Seq<char>, Seq<Seq<char>>)>, GraphErrV>
    decreases tasks0.len() - ti, tasks0[ti].1.len() - ii,
{
    if ti < 0 || ti >= tasks0.len() {
        Ok(acc)
    } else if ii < 0 || ii >= tasks0[ti].1.len() {
        spec_scan(tasks0, recipes, srcs, ti + 1, 0, acc)
    } else {
        match spec_dep_action(tasks0[ti].1[ii], tasks0, recipes, srcs) {
            Err(e) => Err(e),
            Ok(None) => spec_scan(tasks0, recipes, srcs, ti, ii + 1, acc),
            Ok(Some(inputs)) => spec_scan(
                tasks0,
                recipes,
                srcs,
                ti,
                ii + 1,
                add_if_new(acc, tasks0[ti].1[ii], inputs),
            ),
        }
    }
}

/// What synthesizing implicit tasks does to the task list: the gathered
/// tasks appended after the declared ones, or the first error met.
pub open spec fn spec_add_implicit(
    tasks0: Seq<(Seq<char>, Seq<Seq<char>>)>,
    recipes: Seq<(Seq<char>, Seq<RecipeV>)>,
    srcs: Seq<Seq<char>>,
) -> Result<Seq<(Seq<char>, Seq<Seq<char>>)>, GraphErrV> {
    match spec_scan(tasks0, recipes, srcs, 0, 0, Seq::empty()) {
        Ok(adds) => Ok(tasks0 + adds),
        Err(e) => Err(e),
    }
}

/// Finds a task by name.
fn tasks_contain(tasks: &Vec<(String, Task)>, key: &str) -> (r: bool)
    ensures
        r == (assoc_find(tasks_view(tasks@), key@) is Some),
{
    let ghost tv = tasks_view(tasks@);
    let n = tasks.len();
    let mut i: usize = 0;
    while i < n
        invariant
            i <= n,
            n == tasks@.len(),
            tv == tasks_view(tasks@),
            forall|j: int| 0 <= j < i ==> tv[j].0 != key@,
        decreases n - i,
    {
        proof {
            lemma_tasks_view_index(tasks@, i as int);
        }
        if str_eq(tasks[i].0.as_str(), key) {
            proof {
                lemma_assoc_find_at(tv, key@, i as int);
            }
            return true;
        }
        i += 1;
    }
    proof {
        lemma_assoc_find(tv, key@);
    }
    false
}

/// What one wanted file demands, over the exec data.
fn dep_action(
    dep: &str,
    tasks: &Vec<(String, Task)>,
    recipes: &Vec<(String, Vec<Recipe>)>,
    srcs: &Vec<String>,
) -> (r: Result<Option<Vec<String>>, GraphError>)
    ensures
        ({
            let spec_r = spec_dep_action(
                dep@,
                tasks_view(tasks@),
                crate::parser::recipes_view(recipes@),
                srcs.deep_view(),
            );
            match r {
                Ok(None) => spec_r == Ok::<Option<Seq<Seq<char>>>, GraphErrV>(None),
                Ok(Some(v)) => spec_r == Ok::<Option<Seq<Seq<char>>>, GraphErrV>(
                    Some(v.deep_view()),
                ),
                Err(e) => spec_r matches Err(ev) && graph_err_view(e) == ev,
            }
        }),
{
    let ghost tv = tasks_view(tasks@);
    let ghost rv = crate::parser::recipes_view(recipes@);
    let ghost srcs_dv = srcs.deep_view();
    if tasks_contain(tasks, dep) {
        return Ok(None);
    }
    if file_in_listing(srcs, dep) {
        return Ok(None);
    }
    let stem = remove_suffix(dep);
    let ext = remove_prefix(dep);
    let bucket_i = crate::runner::find_bucket(recipes, ext);
    match bucket_i {
        None => Err(GraphError::NoRecipe(String::from_str(dep))),
        Some(bi) => {
            let bucket = &recipes[bi].1;
            proof {
                crate::parser::lemma_recipes_view_index(recipes@, bi as int);
            }
            let ghost bucket_v = rv[bi as int].1;
            let n = bucket.len();
            let mut i: usize = 0;
            let mut count: usize = 0;
            let mut found: usize = 0;
            while i < n
                invariant
                    i <= n,
                    n == bucket@.len(),
                    bucket_v == bucket.deep_view(),
                    bucket_v.len() == n,
                    srcs_dv == srcs.deep_view(),
                    count <= i,
                    count_sat(bucket_v, stem@, srcs_dv, 0) == count + count_sat(
                        bucket_v,
                        stem@,
                        srcs_dv,
                        i as int,
                    ),
                    count > 0 ==> first_sat(bucket_v, stem@, srcs_dv, 0) == Some(found as int)
                        && found < i,
                    count == 0 ==> first_sat(bucket_v, stem@, srcs_dv, 0) == first_sat(
                        bucket_v,
                        stem@,
                        srcs_dv,
                        i as int,
                    ),
                decreases n - i,
            {
                proof {
                    assert(bucket.deep_view()[i as int] == bucket@[i as int]@);
                }
                let sat = recipe_satisfiable(&bucket[i], stem, srcs);
                proof {
                    assert(count_sat(bucket_v, stem@, srcs_dv, i as int) == (if sat_recipe(
                        bucket_v[i as int],
                        stem@,
                        srcs_dv,
                    ) {
                        1int
                    } else {
                        0int
                    }) + count_sat(bucket_v, stem@, srcs_dv, i + 1));
                    assert(first_sat(bucket_v, stem@, srcs_dv, i as int) == (if sat_recipe(
                        bucket_v[i as int],
                        stem@,
                        srcs_dv,
                    ) {
                        Some(i as int)
                    } else {
                        first_sat(bucket_v, stem@, srcs_dv, i + 1)
                    }));
                }
                if sat {
                    if count == 0 {
                        found = i;
                    }
                    count += 1;
                }
                i += 1;
            }
            if count == 0 {
                Err(GraphError::NoRecipe(String::from_str(dep)))
            } else if count > 1 {
                Err(GraphError::Ambiguous(String::from_str(dep)))
            } else {
                let r = &bucket[found];
                proof {
                    assert(bucket.deep_view()[found as int] == bucket@[found as int]@);
                }
                let m = r.templ_in.len();
                let mut inputs: Vec<String> = Vec::new();
                let mut k: usize = 0;
                while k < m
                    invariant
                        k <= m,
                        found < bucket@.len(),
                        m == bucket@[found as int].templ_in@.len(),
                        inputs@.len() == k,
                        forall|q: int|
                            0 <= q < k ==> inputs@[q]@ == spec_stem_file(
                                stem@,
                                bucket@[found as int]@.templ_in[q],
                            ),
                    decreases m - k,
                {
                    proof {
                        assert(bucket@[found as int]@.templ_in[k as int] == bucket@[found as int]
                            .templ_in@[k as int]@);
                    }
                    inputs.push(stem_file(stem, bucket[found].templ_in[k].as_str()));
                    k += 1;
                }
                proof {
                    assert(inputs.deep_view() =~= implicit_inputs(bucket_v[found as int], stem@));
                }
                Ok(Some(inputs))
            }
        },
    }
}

/// Synthesizes an implicit task for every wanted file that is neither a
/// declared task nor a source file: the one fully satisfiable recipe for
/// its extension provides the inputs. Zero or several such recipes are the
/// exact errors; no input is passed over in silence.
pub fn add_implicit(tf: &mut TaskFile, source_files: &Vec<String>) -> (r: Result<(), GraphError>)
    ensures
        final(tf)@.recipes == old(tf)@.recipes,
        ({
            let spec_r = spec_add_implicit(
                old(tf)@.tasks,
                old(tf)@.recipes,
                source_files.deep_view(),
            );
            match r {
                Ok(_) => spec_r == Ok::<_, GraphErrV>(final(tf)@.tasks),
                Err(e) => final(tf)@.tasks == old(tf)@.tasks && (spec_r matches Err(ev)
                    && graph_err_view(e) == ev),
            }
        }),
{
    let ghost tv = tf@.tasks;
    let ghost rv = tf@.recipes;
    let ghost srcs_dv = source_files.deep_view();
    let mut adds: Vec<(String, Task)> = Vec::new();
    let n = tf.tasks.len();
    let mut ti: usize = 0;
    proof {
        assert(tasks_view(adds@) =~= Seq::<(Seq<char>, Seq<Seq<char>>)>::empty());
    }
    while ti < n
        invariant
            ti <= n,
            n == tf.tasks@.len(),
            tf@.tasks == tv,
            tf@.recipes == rv,
            tf.tasks@ == old(tf).tasks@,
            tf.recipes@ == old(tf).recipes@,
            srcs_dv == source_files.deep_view(),
            spec_scan(tv, rv, srcs_dv, ti as int, 0, tasks_view(adds@)) == spec_scan(
                tv,
                rv,
                srcs_dv,
                0,
                0,
                Seq::empty(),
            ),
        decreases n - ti,
    {
        let m = tf.tasks[ti].1.inputs.len();
        let mut ii: usize = 0;
        proof {
            lemma_tasks_view_index(tf.tasks@, ti as int);
        }
        while ii < m
            invariant
                ii <= m,
                ti < n,
                n == tf.tasks@.len(),
                m == tf.tasks@[ti as int].1.inputs@.len(),
                tf@.tasks == tv,
                tf@.recipes == rv,
                tf.tasks@ == old(tf).tasks@,
                tf.recipes@ == old(tf).recipes@,
                srcs_dv == source_files.deep_view(),
                tv[ti as int].1.len() == m,
                tv[ti as int].1 == tf.tasks@[ti as int].1.inputs.deep_view(),
                spec_scan(tv, rv, srcs_dv, ti as int, ii as int, tasks_view(adds@)) == spec_scan(
                    tv,
                    rv,
                    srcs_dv,
                    0,
                    0,
                    Seq::empty(),
                ),
            decreases m - ii,
        {
            proof {
                assert(tv[ti as int].1[ii as int] == tf.tasks@[ti as int].1.inputs@[ii as int]@);
            }
            let dep = tf.tasks[ti].1.inputs[ii].clone();
            match dep_action(dep.as_str(), &tf.tasks, &tf.recipes, source_files) {
                Err(e) => {
                    return Err(e);
                },
                Ok(None) => {},
                Ok(Some(inputs)) => {
                    let ghost pre_adds = tasks_view(adds@);
                    let ghost inputs_dv = inputs.deep_view();
                    if !tasks_contain(&adds, dep.as_str()) {
                        let ghost dep_v = dep@;
                        adds.push((dep, Task { inputs }));
                        proof {
                            assert forall|q: int| 0 <= q < adds@.len() implies tasks_view(
                                adds@,
                            )[q] == pre_adds.push((dep_v, inputs_dv))[q] by {
                                lemma_tasks_view_index(adds@, q);
                                if q < pre_adds.len() {
                                }
                            }
                            lemma_tasks_view_index(adds@, adds@.len() - 1);
                            assert(tasks_view(adds@) =~= pre_adds.push((dep_v, inputs_dv)));
                        }
                    }
                },
            }
            ii += 1;
        }
        ti += 1;
    }
    let ghost adds_v = tasks_view(adds@);
    let mut adds_rest = adds;
    proof {
        assert(tasks_view(tf.tasks@) + tasks_view(adds_rest@) =~= tv + adds_v);
    }
    while adds_rest.len() > 0
        invariant
            tf.recipes@ == old(tf).recipes@,
            tasks_view(tf.tasks@) + tasks_view(adds_rest@) =~= tv + adds_v,
        decreases adds_rest@.len(),
    {
        let ghost pre_rest = adds_rest@;
        let ghost pre_view = tasks_view(tf.tasks@);
        proof {
            lemma_tasks_view_index(pre_rest, 0);
        }
        let pair = adds_rest.remove(0);
        let ghost pair_v = pair;
        tf.tasks.push(pair);
        proof {
            assert forall|q: int| 0 <= q < tf.tasks@.len() implies tasks_view(tf.tasks@)[q]
                == pre_view.push((pair_v.0.deep_view(), pair_v.1.inputs.deep_view()))[q] by {
                lemma_tasks_view_index(tf.tasks@, q);
                if q < pre_view.len() {
                }
            }
            lemma_tasks_view_index(tf.tasks@, tf.tasks@.len() - 1);
            assert(tasks_view(tf.tasks@) =~= pre_view.push(
                (pair_v.0.deep_view(), pair_v.1.inputs.deep_view()),
            ));
            assert forall|q: int| 0 <= q < adds_rest@.len() implies tasks_view(adds_rest@)[q]
                == tasks_view(pre_rest)[q + 1] by {
                lemma_tasks_view_index(adds_rest@, q);
                lemma_tasks_view_index(pre_rest, q + 1);
            }
            assert(tasks_view(pre_rest)[0] == (pair_v.0.deep_view(), pair_v.1.inputs.deep_view()));
            assert(tasks_view(tf.tasks@) + tasks_view(adds_rest@) =~= pre_view + tasks_view(
                pre_rest,
            ));
        }
    }
    proof {
        assert(tasks_view(adds_rest@) =~= Seq::<(Seq<char>, Seq<Seq<char>>)>::empty());
        assert(tasks_view(tf.tasks@) =~= tv + adds_v);
        assert(spec_scan(tv, rv, srcs_dv, n as int, 0, adds_v) == Ok::<_, GraphErrV>(adds_v));
    }
    Ok(())
}

/// A node of the dependency graph: one target file, its tagged inputs,
/// and its mutual edges, stored as indices into the graph's node list.
pub struct TargetNode {
    pub name: String,
    pub dependency_files: Vec<DependencyFile>,
    pub dependents: Vec<usize>,
    pub dependencies: Vec<usize>,
    pub is_branch: bool,
}

/// The mathematical shadow of a [`TargetNode`].
#[verifier::ext_equal]
pub struct NodeV {
    pub name: Seq<char>,
    pub dependency_files: Seq<DepFileV>,
    pub dependents: Seq<int>,
    pub dependencies: Seq<int>,
    pub is_branch: bool,
}

impl View for TargetNode {
    type V = NodeV;

    open spec fn view(&self) -> NodeV {
        NodeV {
            name: self.name@,
            dependency_files: self.dependency_files.deep_view(),
            dependents: self.dependents@.map_values(|u: usize| u as int),
            dependencies: self.dependencies@.map_values(|u: usize| u as int),
            is_branch: self.is_branch,
        }
    }
}

/// The dependency graph: all target nodes, edges by index.
pub struct Graph {
    pub nodes: Vec<TargetNode>,
}

impl View for Graph {
    type V = Seq<NodeV>;

    open spec fn view(&self) -> Seq<NodeV> {
        self.nodes@.map_values(|n: TargetNode| n@)
    }
}

/// How the graph view reads one node.
pub proof fn lemma_graph_view_index(g: &Graph, i: int)
    requires
        0 <= i < g.nodes@.len(),
    ensures
        g@.len() == g.nodes@.len(),
        g@[i] == g.nodes@[i]@,
{
    assert(g@[i] == g.nodes@[i]@);
}

/// Does the index sequence hold `x`?
pub open spec fn in_seq(s: Seq<int>, x: int) -> bool {
    exists|i: int| 0 <= i < s.len() && s[i] == x
}

/// The inputs of one task, each tagged by whether some task produces it.
pub open spec fn tag_deps(
    tasks: Seq<(Seq<char>, Seq<Seq<char>>)>,
    inputs: Seq<Seq<char>>,
) -> Seq<DepFileV> {
    inputs.map_values(
        |nm: Seq<char>|
            if assoc_find(tasks, nm) is Some {
                DepFileV::Generated(nm)
            } else {
                DepFileV::Source(nm)
            },
    )
}

/// The dependency edges from position `(a, k)` on, in scan order: an edge
/// `(a, b)` whenever input `k` of task `a` is the name of task `b`.
pub open spec fn edges_from(tasks: Seq<(Seq<char>, Seq<Seq<char>>)>, a: int, k: int) -> Seq<
    (int, int),
>
    decreases tasks.len() - a, tasks[a].1.len() - k,
{
    if a < 0 || a >= tasks.len() {
        Seq::empty()
    } else if k < 0 || k >= tasks[a].1.len() {
        edges_from(tasks, a + 1, 0)
    } else {
        match assoc_find(tasks, tasks[a].1[k]) {
            Some(b) => seq![(a, b)] + edges_from(tasks, a, k + 1),
            None => edges_from(tasks, a, k + 1),
        }
    }
}

/// All dependency edges of the task list.
pub open spec fn spec_edges(tasks: Seq<(Seq<char>, Seq<Seq<char>>)>) -> Seq<(int, int)> {
    edges_from(tasks, 0, 0)
}

/// Every edge runs between valid node indices.
pub proof fn lemma_edges_bounds(tasks: Seq<(Seq<char>, Seq<Seq<char>>)>, a: int, k: int)
    ensures
        forall|i: int|
            0 <= i < edges_from(tasks, a, k).len() ==> 0 <= (#[trigger] edges_from(
                tasks,
                a,
                k,
            )[i]).0 < tasks.len() && 0 <= edges_from(tasks, a, k)[i].1 < tasks.len(),
    decreases tasks.len() - a, tasks[a].1.len() - k,
{
    if a < 0 || a >= tasks.len() {
    } else if k < 0 || k >= tasks[a].1.len() {
        lemma_edges_bounds(tasks, a + 1, 0);
        assert(edges_from(tasks, a, k) == edges_from(tasks, a + 1, 0));
        assert forall|i: int| 0 <= i < edges_from(tasks, a, k).len() implies 0 <= (
        #[trigger] edges_from(tasks, a, k)[i]).0 < tasks.len() && 0 <= edges_from(tasks, a, k)[i].1
            < tasks.len() by {
            assert(edges_from(tasks, a, k)[i] == edges_from(tasks, a + 1, 0)[i]);
        }
    } else {
        lemma_edges_bounds(tasks, a, k + 1);
        match assoc_find(tasks, tasks[a].1[k]) {
            None => {
                assert(edges_from(tasks, a, k) == edges_from(tasks, a, k + 1));
                assert forall|i: int| 0 <= i < edges_from(tasks, a, k).len() implies 0 <= (
                #[trigger] edges_from(tasks, a, k)[i]).0 < tasks.len() && 0 <= edges_from(
                    tasks,
                    a,
                    k,
                )[i].1 < tasks.len() by {
                    assert(edges_from(tasks, a, k)[i] == edges_from(tasks, a, k + 1)[i]);
                }
            },
            Some(b) => {
                lemma_assoc_find(tasks, tasks[a].1[k]);
                let rest = edges_from(tasks, a, k + 1);
                assert(edges_from(tasks, a, k) == seq![(a, b)] + rest);
                assert forall|i: int| 0 <= i < edges_from(tasks, a, k).len() implies 0 <= (
                #[trigger] edges_from(tasks, a, k)[i]).0 < tasks.len() && 0 <= edges_from(
                    tasks,
                    a,
                    k,
                )[i].1 < tasks.len() by {
                    if i == 0 {
                        assert(edges_from(tasks, a, k)[0] == (a, b));
                    } else {
                        assert(edges_from(tasks, a, k)[i] == rest[i - 1]);
                    }
                }
            },
        }
    }
}

/// The dependency list an edge set gives node `a`: the targets of its
/// outgoing edges, in edge order.
pub open spec fn deps_of(edges: Seq<(int, int)>, a: int) -> Seq<int>
    decreases edges.len(),
{
    if edges.len() == 0 {
        Seq::empty()
    } else if edges[0].0 == a {
        seq![edges[0].1] + deps_of(edges.drop_first(), a)
    } else {
        deps_of(edges.drop_first(), a)
    }
}

/// The dependent list an edge set gives node `b`: the sources of its
/// incoming edges, in edge order.
pub open spec fn dents_of(edges: Seq<(int, int)>, b: int) -> Seq<int>
    decreases edges.len(),
{
    if edges.len() == 0 {
        Seq::empty()
    } else if edges[0].1 == b {
        seq![edges[0].0] + dents_of(edges.drop_first(), b)
    } else {
        dents_of(edges.drop_first(), b)
    }
}

/// `b` stands among `a`'s dependencies exactly when the edge `(a, b)`
/// exists.
pub proof fn lemma_deps_of_contains(edges: Seq<(int, int)>, a: int, b: int)
    ensures
        in_seq(deps_of(edges, a), b) <==> (exists|i: int|
            0 <= i < edges.len() && edges[i] == (a, b)),
    decreases edges.len(),
{
    if edges.len() > 0 {
        lemma_deps_of_contains(edges.drop_first(), a, b);
        assert(forall|i: int|
            0 <= i < edges.drop_first().len() ==> edges.drop_first()[i] == edges[i + 1]);
        if edges[0] == (a, b) {
            assert(deps_of(edges, a)[0] == b);
            assert(in_seq(deps_of(edges, a), b));
        } else {
            if edges[0].0 == a {
                let d = deps_of(edges.drop_first(), a);
                assert(deps_of(edges, a) == seq![edges[0].1] + d);
                if in_seq(deps_of(edges, a), b) {
                    let i = choose|i: int|
                        0 <= i < deps_of(edges, a).len() && deps_of(edges, a)[i] == b;
                    assert(i > 0);
                    assert(d[i - 1] == b);
                    assert(in_seq(d, b));
                }
                if in_seq(d, b) {
                    let i = choose|i: int| 0 <= i < d.len() && d[i] == b;
                    assert(deps_of(edges, a)[i + 1] == b);
                }
            }
            if exists|i: int| 0 <= i < edges.len() && edges[i] == (a, b) {
                let i = choose|i: int| 0 <= i < edges.len() && edges[i] == (a, b);
                assert(i > 0);
                assert(edges.drop_first()[i - 1] == (a, b));
            }
        }
    }
}

/// `a` stands among `b`'s dependents exactly when the edge `(a, b)`
/// exists.
pub proof fn lemma_dents_of_contains(edges: Seq<(int, int)>, a: int, b: int)
    ensures
        in_seq(dents_of(edges, b), a) <==> (exists|i: int|
            0 <= i < edges.len() && edges[i] == (a, b)),
    decreases edges.len(),
{
    if edges.len() > 0 {
        lemma_dents_of_contains(edges.drop_first(), a, b);
        assert(forall|i: int|
            0 <= i < edges.drop_first().len() ==> edges.drop_first()[i] == edges[i + 1]);
        if edges[0] == (a, b) {
            assert(dents_of(edges, b)[0] == a);
            assert(in_seq(dents_of(edges, b), a));
        } else {
            if edges[0].1 == b {
                let d = dents_of(edges.drop_first(), b);
                assert(dents_of(edges, b) == seq![edges[0].0] + d);
                if in_seq(dents_of(edges, b), a) {
                    let i = choose|i: int|
                        0 <= i < dents_of(edges, b).len() && dents_of(edges, b)[i] == a;
                    assert(i > 0);
                    assert(d[i - 1] == a);
                    assert(in_seq(d, a));
                }
                if in_seq(d, a) {
                    let i = choose|i: int| 0 <= i < d.len() && d[i] == a;
                    assert(dents_of(edges, b)[i + 1] == a);
                }
            }
            if exists|i: int| 0 <= i < edges.len() && edges[i] == (a, b) {
                let i = choose|i: int| 0 <= i < edges.len() && edges[i] == (a, b);
                assert(i > 0);
                assert(edges.drop_first()[i - 1] == (a, b));
            }
        }
    }
}

impl Graph {
    /// The structural invariant: every edge index is in range, the two
    /// edge lists mirror one another, and `is_branch` says exactly that
    /// the node depends on another node.
    pub open spec fn wf(self) -> bool {
        let ns = self@;
        (forall|a: int|
            0 <= a < ns.len() ==> {
                let n = #[trigger] ns[a];
                (forall|k: int| 0 <= k < n.dependencies.len() ==> 0 <= #[trigger] n.dependencies[k]
                    < ns.len()) && (forall|k: int|
                    0 <= k < n.dependents.len() ==> 0 <= #[trigger] n.dependents[k] < ns.len())
                    && n.is_branch == (n.dependencies.len() > 0)
            }) && (forall|a: int, b: int|
            0 <= a < ns.len() && 0 <= b < ns.len() ==> (in_seq(
                #[trigger] ns[a].dependencies,
                b,
            ) <==> in_seq(#[trigger] ns[b].dependents, a)))
    }
}

/// Under the graph invariant a node is not a branch exactly when it
/// lists no other node as a dependency: the initial jobs that
/// `get_roots` yields are precisely the leaves of the dependency graph,
/// the nodes whose execution waits on nothing.
pub proof fn lemma_roots_are_leaves(g: &Graph, j: int)
    requires
        g.wf(),
        0 <= j < g@.len(),
    ensures
        !g@[j].is_branch <==> g@[j].dependencies.len() == 0,
{
}

/// Edge mutuality: one node stands among another's dependencies exactly
/// when the second stands among the first's dependents.
pub proof fn lemma_edge_mutuality(g: &Graph, a: int, b: int)
    requires
        g.wf(),
        0 <= a < g@.len(),
        0 <= b < g@.len(),
    ensures
        in_seq(g@[a].dependencies, b) <==> in_seq(g@[b].dependents, a),
{
}

/// Finds the task with this target name.
fn find_task(tasks: &Vec<(String, Task)>, key: &str) -> (r: Option<usize>)
    ensures
        match r {
            Some(i) => i < tasks@.len() && assoc_find(tasks_view(tasks@), key@) == Some(i as int),
            None => assoc_find(tasks_view(tasks@), key@) is None,
        },
{
    let ghost tv = tasks_view(tasks@);
    let n = tasks.len();
    let mut i: usize = 0;
    while i < n
        invariant
            i <= n,
            n == tasks@.len(),
            tv == tasks_view(tasks@),
            forall|j: int| 0 <= j < i ==> tv[j].0 != key@,
        decreases n - i,
    {
        proof {
            lemma_tasks_view_index(tasks@, i as int);
        }
        if str_eq(tasks[i].0.as_str(), key) {
            proof {
                lemma_assoc_find_at(tv, key@, i as int);
            }
            return Some(i);
        }
        i += 1;
    }
    proof {
        lemma_assoc_find(tv, key@);
    }
    None
}

/// Index pairs as mathematical integers.
pub open spec fn edges_iv(s: Seq<(usize, usize)>) -> Seq<(int, int)> {
    s.map_values(|e: (usize, usize)| (e.0 as int, e.1 as int))
}

/// How `edges_iv` reads one pair.
proof fn lemma_edges_iv_index(s: Seq<(usize, usize)>, i: int)
    requires
        0 <= i < s.len(),
    ensures
        edges_iv(s).len() == s.len(),
        edges_iv(s)[i] == (s[i].0 as int, s[i].1 as int),
{
    assert(edges_iv(s)[i] == (s[i].0 as int, s[i].1 as int));
}

/// Indices as mathematical integers.
pub open spec fn useq_iv(s: Seq<usize>) -> Seq<int> {
    s.map_values(|u: usize| u as int)
}

/// How `useq_iv` reads one index.
pub proof fn lemma_useq_iv_index(s: Seq<usize>, i: int)
    requires
        0 <= i < s.len(),
    ensures
        useq_iv(s).len() == s.len(),
        useq_iv(s)[i] == s[i] as int,
{
    assert(useq_iv(s)[i] == s[i] as int);
}

/// Elements of a dependency list are targets of edges.
proof fn lemma_deps_of_bounds(edges: Seq<(int, int)>, a: int, n: int)
    requires
        forall|i: int|
            0 <= i < edges.len() ==> 0 <= (#[trigger] edges[i]).0 < n && 0 <= edges[i].1 < n,
    ensures
        forall|k: int| 0 <= k < deps_of(edges, a).len() ==> 0 <= #[trigger] deps_of(edges, a)[k]
            < n,
    decreases edges.len(),
{
    if edges.len() > 0 {
        assert(forall|i: int|
            0 <= i < edges.drop_first().len() ==> edges.drop_first()[i] == edges[i + 1]);
        lemma_deps_of_bounds(edges.drop_first(), a, n);
        if edges[0].0 == a {
            let d = deps_of(edges.drop_first(), a);
            assert(deps_of(edges, a) == seq![edges[0].1] + d);
            assert forall|k: int| 0 <= k < deps_of(edges, a).len() implies 0 <= #[trigger] deps_of(
                edges,
                a,
            )[k] < n by {
                if k == 0 {
                    assert(deps_of(edges, a)[0] == edges[0].1);
                } else {
                    assert(deps_of(edges, a)[k] == d[k - 1]);
                }
            }
        }
    }
}

/// Elements of a dependent list are sources of edges.
proof fn lemma_dents_of_bounds(edges: Seq<(int, int)>, b: int, n: int)
    requires
        forall|i: int|
            0 <= i < edges.len() ==> 0 <= (#[trigger] edges[i]).0 < n && 0 <= edges[i].1 < n,
    ensures
        forall|k: int| 0 <= k < dents_of(edges, b).len() ==> 0 <= #[trigger] dents_of(edges, b)[k]
            < n,
    decreases edges.len(),
{
    if edges.len() > 0 {
        assert(forall|i: int|
            0 <= i < edges.drop_first().len() ==> edges.drop_first()[i] == edges[i + 1]);
        lemma_dents_of_bounds(edges.drop_first(), b, n);
        if edges[0].1 == b {
            let d = dents_of(edges.drop_first(), b);
            assert(dents_of(edges, b) == seq![edges[0].0] + d);
            assert forall|k: int| 0 <= k < dents_of(edges, b).len() implies 0 <= #[trigger] dents_of(
                edges,
                b,
            )[k] < n by {
                if k == 0 {
                    assert(dents_of(edges, b)[0] == edges[0].0);
                } else {
                    assert(dents_of(edges, b)[k] == d[k - 1]);
                }
            }
        }
    }
}

/// Lowers the task list into graph nodes: one node per task in order,
/// every input tagged by whether another node generates it, and mutual
/// dependency/dependent edges by index. A node is a branch exactly when
/// it depends on another node.
pub fn build_graph(tf: &TaskFile) -> (g: Graph)
    ensures
        g@.len() == tf@.tasks.len(),
        forall|a: int|
            0 <= a < g@.len() ==> {
                &&& (#[trigger] g@[a]).name == tf@.tasks[a].0
                &&& g@[a].dependency_files == tag_deps(tf@.tasks, tf@.tasks[a].1)
                &&& g@[a].dependencies == deps_of(spec_edges(tf@.tasks), a)
                &&& g@[a].dependents == dents_of(spec_edges(tf@.tasks), a)
                &&& g@[a].is_branch == (deps_of(spec_edges(tf@.tasks), a).len() > 0)
            },
        g.wf(),
{
    let ghost tv = tf@.tasks;
    let ghost edges_v = spec_edges(tv);
    let n = tf.tasks.len();
    let mut staged: Vec<Vec<DependencyFile>> = Vec::new();
    let mut edges: Vec<(usize, usize)> = Vec::new();
    let mut a: usize = 0;
    proof {
        assert(edges_iv(edges@) =~= Seq::<(int, int)>::empty());
        assert(edges_iv(edges@) + edges_from(tv, 0, 0) =~= edges_v);
    }
    while a < n
        invariant
            a <= n,
            n == tf.tasks@.len(),
            tv == tf@.tasks,
            edges_v == spec_edges(tv),
            staged@.len() == a,
            forall|q: int| 0 <= q < a ==> #[trigger] staged@[q].deep_view() == tag_deps(tv, tv[q].1),
            edges_iv(edges@) + edges_from(tv, a as int, 0) =~= edges_v,
        decreases n - a,
    {
        proof {
            lemma_tasks_view_index(tf.tasks@, a as int);
        }
        let m = tf.tasks[a].1.inputs.len();
        let mut df: Vec<DependencyFile> = Vec::new();
        let mut k: usize = 0;
        proof {
            assert(df.deep_view() =~= tag_deps(tv, tv[a as int].1).take(0));
        }
        while k < m
            invariant
                k <= m,
                a < n,
                n == tf.tasks@.len(),
                tv == tf@.tasks,
                edges_v == spec_edges(tv),
                m == tf.tasks@[a as int].1.inputs@.len(),
                tv[a as int].1.len() == m,
                tv[a as int].1 == tf.tasks@[a as int].1.inputs.deep_view(),
                df.deep_view() =~= tag_deps(tv, tv[a as int].1).take(k as int),
                edges_iv(edges@) + edges_from(tv, a as int, k as int) =~= edges_v,
            decreases m - k,
        {
            proof {
                assert(tv[a as int].1[k as int] == tf.tasks@[a as int].1.inputs@[k as int]@);
            }
            let dep = tf.tasks[a].1.inputs[k].clone();
            let ghost dep_v = dep@;
            let ghost pre_df = df.deep_view();
            let ghost pre_edges = edges_iv(edges@);
            match find_task(&tf.tasks, dep.as_str()) {
                Some(b) => {
                    df.push(DependencyFile::Generated(dep));
                    edges.push((a, b));
                    proof {
                        assert(df.deep_view() =~= pre_df.push(DepFileV::Generated(dep_v)));
                        assert forall|q: int| 0 <= q < edges@.len() implies edges_iv(edges@)[q]
                            == pre_edges.push((a as int, b as int))[q] by {
                            lemma_edges_iv_index(edges@, q);
                            if q < pre_edges.len() {
                                lemma_edges_iv_index(edges@.drop_last(), q);
                                assert(edges@.drop_last() =~= edges@.take(edges@.len() - 1));
                            }
                        }
                        assert(edges_iv(edges@) =~= pre_edges.push((a as int, b as int)));
                        assert(edges_from(tv, a as int, k as int) == seq![(a as int, b as int)]
                            + edges_from(tv, a as int, k + 1));
                        assert(pre_edges + (seq![(a as int, b as int)] + edges_from(
                            tv,
                            a as int,
                            k + 1,
                        )) =~= edges_iv(edges@) + edges_from(tv, a as int, k + 1));
                        assert(tag_deps(tv, tv[a as int].1)[k as int] == DepFileV::Generated(
                            dep_v,
                        ));
                        assert(df.deep_view() =~= tag_deps(tv, tv[a as int].1).take(k + 1));
                    }
                },
                None => {
                    df.push(DependencyFile::Source(dep));
                    proof {
                        assert(df.deep_view() =~= pre_df.push(DepFileV::Source(dep_v)));
                        assert(edges_from(tv, a as int, k as int) == edges_from(
                            tv,
                            a as int,
                            k + 1,
                        ));
                        assert(tag_deps(tv, tv[a as int].1)[k as int] == DepFileV::Source(dep_v));
                        assert(df.deep_view() =~= tag_deps(tv, tv[a as int].1).take(k + 1));
                    }
                },
            }
            k += 1;
        }
        let ghost pre_staged_len = staged@.len();
        staged.push(df);
        proof {
            assert(tag_deps(tv, tv[a as int].1).take(m as int) =~= tag_deps(tv, tv[a as int].1));
            assert(staged@[a as int].deep_view() == tag_deps(tv, tv[a as int].1));
            assert(edges_from(tv, a as int, m as int) == edges_from(tv, a + 1, 0));
        }
        a += 1;
    }
    proof {
        assert(edges_from(tv, n as int, 0) =~= Seq::<(int, int)>::empty());
        assert(edges_iv(edges@) + Seq::<(int, int)>::empty() =~= edges_iv(edges@));
        assert(edges_iv(edges@) =~= edges_v);
        lemma_edges_bounds(tv, 0, 0);
    }
    let mut nodes: Vec<TargetNode> = Vec::new();
    let mut staged_rest = staged;
    let mut a2: usize = 0;
    while a2 < n
        invariant
            a2 <= n,
            n == tf.tasks@.len(),
            tv == tf@.tasks,
            edges_v == spec_edges(tv),
            edges_iv(edges@) == edges_v,
            edges@.len() == edges_v.len(),
            forall|i: int|
                0 <= i < edges_v.len() ==> 0 <= (#[trigger] edges_v[i]).0 < n && 0 <= edges_v[i].1
                    < n,
            staged_rest@.len() == n - a2,
            forall|q: int|
                0 <= q < staged_rest@.len() ==> #[trigger] staged_rest@[q].deep_view() == tag_deps(
                    tv,
                    tv[q + a2].1,
                ),
            nodes@.len() == a2,
            forall|q: int|
                0 <= q < a2 ==> {
                    &&& (#[trigger] nodes@[q]@).name == tv[q].0
                    &&& nodes@[q]@.dependency_files == tag_deps(tv, tv[q].1)
                    &&& nodes@[q]@.dependencies == deps_of(edges_v, q)
                    &&& nodes@[q]@.dependents == dents_of(edges_v, q)
                    &&& nodes@[q]@.is_branch == (deps_of(edges_v, q).len() > 0)
                },
        decreases n - a2,
    {
        let ne = edges.len();
        let mut deps: Vec<usize> = Vec::new();
        let mut dents: Vec<usize> = Vec::new();
        let mut j: usize = 0;
        proof {
            assert(useq_iv(deps@) =~= Seq::<int>::empty());
            assert(useq_iv(dents@) =~= Seq::<int>::empty());
            assert(edges_v.skip(0) =~= edges_v);
        }
        while j < ne
            invariant
                j <= ne,
                ne == edges@.len(),
                a2 < n,
                edges_iv(edges@) == edges_v,
                edges@.len() == edges_v.len(),
                useq_iv(deps@) + deps_of(edges_v.skip(j as int), a2 as int) =~= deps_of(
                    edges_v,
                    a2 as int,
                ),
                useq_iv(dents@) + dents_of(edges_v.skip(j as int), a2 as int) =~= dents_of(
                    edges_v,
                    a2 as int,
                ),
            decreases ne - j,
        {
            proof {
                lemma_edges_iv_index(edges@, j as int);
                assert(edges_v.skip(j as int)[0] == edges_v[j as int]);
                assert(edges_v.skip(j as int).drop_first() =~= edges_v.skip(j + 1));
            }
            let ghost pre_deps = useq_iv(deps@);
            let ghost pre_dents = useq_iv(dents@);
            let e = edges[j];
            if e.0 == a2 {
                deps.push(e.1);
                proof {
                    assert forall|q: int| 0 <= q < deps@.len() implies useq_iv(deps@)[q]
                        == pre_deps.push(e.1 as int)[q] by {
                        lemma_useq_iv_index(deps@, q);
                        if q < pre_deps.len() {
                            lemma_useq_iv_index(deps@.drop_last(), q);
                            assert(deps@.drop_last() =~= deps@.take(deps@.len() - 1));
                        }
                    }
                    assert(useq_iv(deps@) =~= pre_deps.push(e.1 as int));
                    assert(deps_of(edges_v.skip(j as int), a2 as int) == seq![edges_v[j as int].1]
                        + deps_of(edges_v.skip(j + 1), a2 as int));
                    assert(pre_deps + (seq![edges_v[j as int].1] + deps_of(
                        edges_v.skip(j + 1),
                        a2 as int,
                    )) =~= useq_iv(deps@) + deps_of(edges_v.skip(j + 1), a2 as int));
                }
            } else {
                proof {
                    assert(deps_of(edges_v.skip(j as int), a2 as int) == deps_of(
                        edges_v.skip(j + 1),
                        a2 as int,
                    ));
                }
            }
            if e.1 == a2 {
                dents.push(e.0);
                proof {
                    assert forall|q: int| 0 <= q < dents@.len() implies useq_iv(dents@)[q]
                        == pre_dents.push(e.0 as int)[q] by {
                        lemma_useq_iv_index(dents@, q);
                        if q < pre_dents.len() {
                            lemma_useq_iv_index(dents@.drop_last(), q);
                            assert(dents@.drop_last() =~= dents@.take(dents@.len() - 1));
                        }
                    }
                    assert(useq_iv(dents@) =~= pre_dents.push(e.0 as int));
                    assert(dents_of(edges_v.skip(j as int), a2 as int) == seq![
                        edges_v[j as int].0,
                    ] + dents_of(edges_v.skip(j + 1), a2 as int));
                    assert(pre_dents + (seq![edges_v[j as int].0] + dents_of(
                        edges_v.skip(j + 1),
                        a2 as int,
                    )) =~= useq_iv(dents@) + dents_of(edges_v.skip(j + 1), a2 as int));
                }
            } else {
                proof {
                    assert(dents_of(edges_v.skip(j as int), a2 as int) == dents_of(
                        edges_v.skip(j + 1),
                        a2 as int,
                    ));
                }
            }
            j += 1;
        }
        proof {
            assert(edges_v.skip(edges_v.len() as int) =~= Seq::<(int, int)>::empty());
            assert(useq_iv(deps@) + Seq::<int>::empty() =~= useq_iv(deps@));
            assert(useq_iv(dents@) + Seq::<int>::empty() =~= useq_iv(dents@));
            assert(useq_iv(deps@) =~= deps_of(edges_v, a2 as int));
            assert(useq_iv(dents@) =~= dents_of(edges_v, a2 as int));
            lemma_tasks_view_index(tf.tasks@, a2 as int);
        }
        let is_branch = deps.len() > 0;
        let ghost pre_rest = staged_rest@;
        let df = staged_rest.remove(0);
        let node = TargetNode {
            name: tf.tasks[a2].0.clone(),
            dependency_files: df,
            dependents: dents,
            dependencies: deps,
            is_branch,
        };
        let ghost node_v = node@;
        nodes.push(node);
        proof {
            assert(pre_rest[0].deep_view() == tag_deps(tv, tv[a2 as int].1));
            assert(node_v.dependency_files == tag_deps(tv, tv[a2 as int].1));
            assert(node_v.dependencies =~= deps_of(edges_v, a2 as int));
            assert(node_v.dependents =~= dents_of(edges_v, a2 as int));
            assert(deps_of(edges_v, a2 as int).len() == useq_iv(node.dependencies@).len());
            assert forall|q: int| 0 <= q < staged_rest@.len() implies #[trigger] staged_rest@[
                q
            ].deep_view() == tag_deps(tv, tv[q + a2 + 1].1) by {
                assert(staged_rest@[q] == pre_rest[q + 1]);
            }
        }
        a2 += 1;
    }
    let g = Graph { nodes };
    proof {
        assert forall|aa: int| 0 <= aa < g@.len() implies {
            &&& (#[trigger] g@[aa]).name == tv[aa].0
            &&& g@[aa].dependency_files == tag_deps(tv, tv[aa].1)
            &&& g@[aa].dependencies == deps_of(edges_v, aa)
            &&& g@[aa].dependents == dents_of(edges_v, aa)
            &&& g@[aa].is_branch == (deps_of(edges_v, aa).len() > 0)
        } by {
            assert(g@[aa] == g.nodes@[aa]@);
        }
        assert forall|aa: int| 0 <= aa < g@.len() implies {
            let nd = #[trigger] g@[aa];
            (forall|k: int| 0 <= k < nd.dependencies.len() ==> 0 <= #[trigger] nd.dependencies[k]
                < g@.len()) && (forall|k: int|
                0 <= k < nd.dependents.len() ==> 0 <= #[trigger] nd.dependents[k] < g@.len())
                && nd.is_branch == (nd.dependencies.len() > 0)
        } by {
            lemma_deps_of_bounds(edges_v, aa, n as int);
            lemma_dents_of_bounds(edges_v, aa, n as int);
        }
        assert forall|aa: int, bb: int| 0 <= aa < g@.len() && 0 <= bb < g@.len() implies (in_seq(
            #[trigger] g@[aa].dependencies,
            bb,
        ) <==> in_seq(#[trigger] g@[bb].dependents, aa)) by {
            lemma_deps_of_contains(edges_v, aa, bb);
            lemma_dents_of_contains(edges_v, aa, bb);
        }
    }
    g
}

/// The nodes where a build starts: every node that is not a branch, in
/// index order. By the graph invariant these are exactly the nodes that
/// list no other node as a dependency.
pub fn get_roots(g: &Graph) -> (r: Vec<usize>)
    ensures
        forall|p: int|
            0 <= p < r@.len() ==> (#[trigger] r@[p] as int) < g@.len() && !g@[r@[p] as int].is_branch,
        forall|j: int| 0 <= j < g@.len() && !(#[trigger] g@[j]).is_branch ==> in_seq(useq_iv(r@), j),
        forall|p: int, q: int| 0 <= p < q < r@.len() ==> r@[p] < r@[q],
{
    let n = g.nodes.len();
    let mut r: Vec<usize> = Vec::new();
    let mut i: usize = 0;
    while i < n
        invariant
            i <= n,
            n == g.nodes@.len(),
            forall|p: int|
                0 <= p < r@.len() ==> (#[trigger] r@[p] as int) < i && !g@[r@[p] as int].is_branch,
            forall|j: int| 0 <= j < i && !(#[trigger] g@[j]).is_branch ==> in_seq(useq_iv(r@), j),
            forall|p: int, q: int| 0 <= p < q < r@.len() ==> r@[p] < r@[q],
        decreases n - i,
    {
        proof {
            assert(g@[i as int] == g.nodes@[i as int]@);
        }
        if !g.nodes[i].is_branch {
            let ghost pre = r@;
            r.push(i);
            proof {
                lemma_useq_iv_index(r@, r@.len() - 1);
                assert forall|j: int| 0 <= j < i + 1 && !(#[trigger] g@[j]).is_branch implies in_seq(
                    useq_iv(r@),
                    j,
                ) by {
                    if j < i {
                        let p = choose|p: int| 0 <= p < useq_iv(pre).len() && useq_iv(pre)[p] == j;
                        lemma_useq_iv_index(pre, p);
                        lemma_useq_iv_index(r@, p);
                        assert(useq_iv(r@)[p] == j);
                    } else {
                        assert(useq_iv(r@)[r@.len() - 1] == i as int);
                    }
                }
            }
        } else {
            proof {
                assert forall|j: int| 0 <= j < i + 1 && !(#[trigger] g@[j]).is_branch implies in_seq(
                    useq_iv(r@),
                    j,
                ) by {
                    assert(j < i);
                }
            }
        }
        i += 1;
    }
    r
}

/// A key found in a prefix is found in the whole.
proof fn lemma_assoc_prefix<V>(s: Seq<(Seq<char>, V)>, t: Seq<(Seq<char>, V)>, key: Seq<char>)
    requires
        t.len() >= s.len(),
        t.take(s.len() as int) == s,
        assoc_find(s, key) is Some,
    ensures
        assoc_find(t, key) is Some,
{
    lemma_assoc_find(s, key);
    let i = assoc_find(s, key)->Some_0;
    assert(t.take(s.len() as int)[i] == t[i]);
    assert(t[i].0 == key);
    lemma_assoc_find(t, key);
    if assoc_find(t, key) is None {
        assert(t[i].0 != key);
    }
}

/// A key stands in a concatenation exactly when it stands in a part.
proof fn lemma_assoc_concat<V>(s: Seq<(Seq<char>, V)>, t: Seq<(Seq<char>, V)>, key: Seq<char>)
    ensures
        (assoc_find(s + t, key) is Some) == (assoc_find(s, key) is Some || assoc_find(
            t,
            key,
        ) is Some),
{
    lemma_assoc_find(s, key);
    lemma_assoc_find(t, key);
    lemma_assoc_find(s + t, key);
    if assoc_find(s, key) is Some {
        let i = assoc_find(s, key)->Some_0;
        assert((s + t)[i] == s[i]);
        if assoc_find(s + t, key) is None {
            assert((s + t)[i].0 != key);
        }
    } else if assoc_find(t, key) is Some {
        let i = assoc_find(t, key)->Some_0;
        assert((s + t)[s.len() + i] == t[i]);
        if assoc_find(s + t, key) is None {
            assert((s + t)[s.len() + i].0 != key);
        }
    } else {
        if assoc_find(s + t, key) is Some {
            let i = assoc_find(s + t, key)->Some_0;
            if i < s.len() {
                assert(s[i] == (s + t)[i]);
            } else {
                assert(t[i - s.len()] == (s + t)[i]);
            }
        }
    }
}

/// A positive satisfiable count means a first satisfiable recipe exists,
/// and it is satisfiable.
proof fn lemma_count_first(bucket: Seq<RecipeV>, stem: Seq<char>, srcs: Seq<Seq<char>>, i: int)
    ensures
        (count_sat(bucket, stem, srcs, i) > 0) == (first_sat(bucket, stem, srcs, i) is Some),
        first_sat(bucket, stem, srcs, i) matches Some(k) ==> i <= k < bucket.len() && sat_recipe(
            bucket[k],
            stem,
            srcs,
        ),
    decreases bucket.len() - i,
{
    if i >= 0 && i < bucket.len() {
        lemma_count_first(bucket, stem, srcs, i + 1);
        lemma_count_nonneg(bucket, stem, srcs, i + 1);
    }
}

/// Counts never fall below zero.
proof fn lemma_count_nonneg(bucket: Seq<RecipeV>, stem: Seq<char>, srcs: Seq<Seq<char>>, i: int)
    ensures
        count_sat(bucket, stem, srcs, i) >= 0,
    decreases bucket.len() - i,
{
    if i >= 0 && i < bucket.len() {
        lemma_count_nonneg(bucket, stem, srcs, i + 1);
    }
}

/// What the scan guarantees when it succeeds: the gathered tasks extend
/// the accumulator, every gathered task's inputs exist as source files,
/// and every input at or beyond the scan position is a declared task, a
/// source file, or a gathered task.
proof fn lemma_scan_props(
    tasks0: Seq<(Seq<char>, Seq<Seq<char>>)>,
    recipes: Seq<(Seq<char>, Seq<RecipeV>)>,
    srcs: Seq<Seq<char>>,
    ti: int,
    ii: int,
    acc: Seq<(Seq<char>, Seq<Seq<char>>)>,
)
    requires
        0 <= ti,
        0 <= ii,
        spec_scan(tasks0, recipes, srcs, ti, ii, acc) is Ok,
    ensures
        ({
            let adds = spec_scan(tasks0, recipes, srcs, ti, ii, acc)->Ok_0;
            &&& adds.len() >= acc.len()
            &&& adds.take(acc.len() as int) == acc
            &&& (forall|e: int, q: int|
                acc.len() <= e < adds.len() && 0 <= q < adds[e].1.len() ==> file_in(
                    srcs,
                    #[trigger] adds[e].1[q],
                ))
            &&& (forall|t: int, i: int|
                0 <= t < tasks0.len() && 0 <= i < tasks0[t].1.len() && (t > ti || (t == ti && i
                    >= ii)) ==> assoc_find(tasks0, #[trigger] tasks0[t].1[i]) is Some || file_in(
                    srcs,
                    tasks0[t].1[i],
                ) || assoc_find(adds, tasks0[t].1[i]) is Some)
        }),
    decreases tasks0.len() - ti, tasks0[ti].1.len() - ii,
{
    if ti >= tasks0.len() {
        assert(spec_scan(tasks0, recipes, srcs, ti, ii, acc) == Ok::<_, GraphErrV>(acc));
        assert(acc.take(acc.len() as int) =~= acc);
    } else if ii >= tasks0[ti].1.len() {
        lemma_scan_props(tasks0, recipes, srcs, ti + 1, 0, acc);
    } else {
        let dep = tasks0[ti].1[ii];
        match spec_dep_action(dep, tasks0, recipes, srcs) {
            Err(_) => {},
            Ok(None) => {
                lemma_scan_props(tasks0, recipes, srcs, ti, ii + 1, acc);
            },
            Ok(Some(inputs)) => {
                let acc2 = add_if_new(acc, dep, inputs);
                lemma_scan_props(tasks0, recipes, srcs, ti, ii + 1, acc2);
                let adds = spec_scan(tasks0, recipes, srcs, ti, ii + 1, acc2)->Ok_0;
                // The accumulator prefix survives.
                if assoc_find(acc, dep) is Some {
                    assert(acc2 == acc);
                } else {
                    assert(acc2 == acc.push((dep, inputs)));
                    assert(acc2.take(acc.len() as int) =~= acc);
                }
                assert(adds.take(acc2.len() as int) == acc2);
                assert forall|p: int| 0 <= p < acc.len() implies adds.take(acc.len() as int)[p]
                    == acc[p] by {
                    assert(adds.take(acc.len() as int)[p] == adds[p]);
                    assert(adds.take(acc2.len() as int)[p] == adds[p]);
                    assert(acc2.take(acc.len() as int)[p] == acc2[p]);
                }
                assert(adds.take(acc.len() as int) =~= acc);
                // The new entry's inputs are source files.
                let stem = spec_remove_suffix(dep);
                let bi = assoc_find(recipes, spec_remove_prefix(dep))->Some_0;
                let bucket = recipes[bi].1;
                lemma_count_first(bucket, stem, srcs, 0);
                lemma_count_nonneg(bucket, stem, srcs, 0);
                assert(count_sat(bucket, stem, srcs, 0) == 1);
                let fs = first_sat(bucket, stem, srcs, 0)->Some_0;
                assert(sat_recipe(bucket[fs], stem, srcs));
                assert(inputs == implicit_inputs(bucket[fs], stem));
                assert forall|q: int| 0 <= q < inputs.len() implies file_in(
                    srcs,
                    #[trigger] inputs[q],
                ) by {
                    assert(inputs[q] == spec_stem_file(stem, bucket[fs].templ_in[q]));
                }
                assert forall|e: int, q: int|
                    acc.len() <= e < adds.len() && 0 <= q < adds[e].1.len() implies file_in(
                    srcs,
                    #[trigger] adds[e].1[q],
                ) by {
                    if e < acc2.len() {
                        assert(adds.take(acc2.len() as int)[e] == adds[e]);
                        assert(adds[e] == acc2[e]);
                        assert(acc2[e] == (dep, inputs));
                    }
                }
                // The scanned input itself is now gathered.
                if assoc_find(acc, dep) is None {
                    lemma_assoc_find(acc, dep);
                    lemma_assoc_find_at(acc2, dep, acc.len() as int);
                }
                assert(assoc_find(acc2, dep) is Some);
                lemma_assoc_prefix(acc2, adds, dep);
                assert(assoc_find(adds, dep) is Some);
            },
        }
    }
}

/// Graph completeness: once implicit synthesis succeeds, every input of
/// every task — declared or synthesized — is a source file under the
/// source root or the target of another task in the list. No input is
/// passed over in silence.
pub proof fn lemma_graph_completeness(
    tasks0: Seq<(Seq<char>, Seq<Seq<char>>)>,
    recipes: Seq<(Seq<char>, Seq<RecipeV>)>,
    srcs: Seq<Seq<char>>,
)
    requires
        spec_add_implicit(tasks0, recipes, srcs) is Ok,
    ensures
        ({
            let tasks1 = spec_add_implicit(tasks0, recipes, srcs)->Ok_0;
            forall|t: int, i: int|
                0 <= t < tasks1.len() && 0 <= i < tasks1[t].1.len() ==> file_in(
                    srcs,
                    #[trigger] tasks1[t].1[i],
                ) || assoc_find(tasks1, tasks1[t].1[i]) is Some
        }),
{
    let adds = spec_scan(tasks0, recipes, srcs, 0, 0, Seq::empty())->Ok_0;
    let tasks1 = spec_add_implicit(tasks0, recipes, srcs)->Ok_0;
    assert(tasks1 == tasks0 + adds);
    lemma_scan_props(tasks0, recipes, srcs, 0, 0, Seq::empty());
    assert forall|t: int, i: int|
        0 <= t < tasks1.len() && 0 <= i < tasks1[t].1.len() implies file_in(
        srcs,
        #[trigger] tasks1[t].1[i],
    ) || assoc_find(tasks1, tasks1[t].1[i]) is Some by {
        if t < tasks0.len() {
            assert(tasks1[t] == tasks0[t]);
            let dep = tasks0[t].1[i];
            assert(assoc_find(tasks0, dep) is Some || file_in(srcs, dep) || assoc_find(
                adds,
                dep,
            ) is Some);
            lemma_assoc_concat(tasks0, adds, dep);
        } else {
            assert(tasks1[t] == adds[t - tasks0.len()]);
            assert(adds.take(0) =~= Seq::<(Seq<char>, Seq<Seq<char>>)>::empty());
        }
    }
}

} // verus!
