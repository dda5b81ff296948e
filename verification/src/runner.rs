//! Selecting the recipe that builds a target, resolving its dependency
//! paths, substituting the `$@`, `$^`, `$bd` and `$sd` sigils into command
//! templates, and deciding staleness from modification times.

use vstd::prelude::*;
use vstd::string::*;

use crate::functions::str_eq;
use crate::parser::{assoc_find, lemma_assoc_find, lemma_assoc_find_at, lemma_recipes_view_index};
use crate::parser::{recipes_view, Recipe, RecipeV};
use crate::util::ends_with_str;
use crate::util::push_char;
use crate::util::spec_ends_with;
use crate::util::spec_join;
use crate::util::spec_remove_suffix;
use crate::util::join_path;
use crate::util::remove_suffix;

verus! {

/// A dependency of a target node, tagged by where it resolves: a source
/// file under the source root, or a file another node generates under the
/// build root.
#[derive(Debug, PartialEq, Eq)]
pub enum DependencyFile {
    Source(String),
    Generated(String),
}

/// The spec-level shadow of [`DependencyFile`].
pub enum DepFileV {
    Source(Seq<char>),
    Generated(Seq<char>),
}

impl View for DependencyFile {
    type V = DepFileV;

    open spec fn view(&self) -> DepFileV {
        match self {
            DependencyFile::Source(s) => DepFileV::Source(s@),
            DependencyFile::Generated(s) => DepFileV::Generated(s@),
        }
    }
}

impl DeepView for DependencyFile {
    type V = DepFileV;

    open spec fn deep_view(&self) -> DepFileV {
        self.view()
    }
}

/// The file name a tagged dependency carries.
pub open spec fn dep_name(d: DepFileV) -> Seq<char> {
    match d {
        DepFileV::Source(s) => s,
        DepFileV::Generated(s) => s,
    }
}

/// The file name inside a tagged dependency.
pub fn file(dep: &DependencyFile) -> (r: &String)
    ensures
        r@ == dep_name(dep@),
{
    match dep {
        DependencyFile::Source(s) => s,
        DependencyFile::Generated(s) => s,
    }
}

/// Whether dependency name `dep` satisfies recipe `r` for `target`: it is
/// `<stem-of-target>.<e>` for a pattern input `e`, or ends in a wildcard
/// input extension.
pub open spec fn spec_is_dep_listed(dep: Seq<char>, target: Seq<char>, r: RecipeV) -> bool {
    (exists|e: int|
        0 <= e < r.templ_in.len() && dep == spec_remove_suffix(target) + seq!['.']
            + r.templ_in[e]) || (exists|e: int|
        0 <= e < r.any_in.len() && spec_ends_with(dep, r.any_in[e]))
}

/// Whether `dep` is one of the inputs recipe `recipe` asks for on `target`.
pub fn is_dep_listed(dep: &str, target: &str, recipe: &Recipe) -> (r: bool)
    ensures
        r == spec_is_dep_listed(dep@, target@, recipe@),
{
    let stem = remove_suffix(target);
    let n = recipe.templ_in.len();
    let mut i: usize = 0;
    while i < n
        invariant
            i <= n,
            n == recipe.templ_in@.len(),
            stem@ == spec_remove_suffix(target@),
            forall|e: int|
                0 <= e < i ==> dep@ != spec_remove_suffix(target@) + seq!['.']
                    + #[trigger] recipe@.templ_in[e],
        decreases n - i,
    {
        proof {
            assert(recipe@.templ_in[i as int] == recipe.templ_in@[i as int]@);
        }
        let mut cand = String::from_str(stem);
        push_char(&mut cand, '.');
        cand.append(recipe.templ_in[i].as_str());
        proof {
            assert(cand@ =~= spec_remove_suffix(target@) + seq!['.'] + recipe@.templ_in[
                i as int
            ]);
        }
        if str_eq(cand.as_str(), dep) {
            return true;
        }
        i += 1;
    }
    let m = recipe.any_in.len();
    let mut j: usize = 0;
    while j < m
        invariant
            j <= m,
            m == recipe.any_in@.len(),
            forall|e: int|
                0 <= e < n ==> dep@ != spec_remove_suffix(target@) + seq!['.']
                    + #[trigger] recipe@.templ_in[e],
            n == recipe.templ_in@.len(),
            stem@ == spec_remove_suffix(target@),
            forall|e: int| 0 <= e < j ==> !spec_ends_with(dep@, #[trigger] recipe@.any_in[e]),
        decreases m - j,
    {
        proof {
            assert(recipe@.any_in[j as int] == recipe.any_in@[j as int]@);
        }
        if ends_with_str(dep, recipe.any_in[j].as_str()) {
            return true;
        }
        j += 1;
    }
    false
}

/// Whether some dependency of the node satisfies recipe `r` for `target`.
pub open spec fn recipe_matches(target: Seq<char>, deps: Seq<DepFileV>, r: RecipeV) -> bool {
    exists|d: int| 0 <= d < deps.len() && spec_is_dep_listed(dep_name(deps[d]), target, r)
}

/// The first declared recipe that some dependency satisfies, if any.
pub fn select_recipe(target: &str, deps: &Vec<DependencyFile>, rs: &Vec<Recipe>) -> (r: Option<
    usize,
>)
    ensures
        match r {
            Some(i) => i < rs@.len() && recipe_matches(target@, deps.deep_view(), rs.deep_view()[i as int])
                && (forall|j: int|
                0 <= j < i ==> !recipe_matches(target@, deps.deep_view(), rs.deep_view()[j])),
            None => forall|j: int|
                0 <= j < rs@.len() ==> !recipe_matches(target@, deps.deep_view(), rs.deep_view()[j]),
        },
{
    let n = rs.len();
    let mut i: usize = 0;
    while i < n
        invariant
            i <= n,
            n == rs@.len(),
            forall|j: int|
                0 <= j < i ==> !recipe_matches(target@, deps.deep_view(), rs.deep_view()[j]),
        decreases n - i,
    {
        let m = deps.len();
        let mut d: usize = 0;
        while d < m
            invariant
                d <= m,
                i < n,
                n == rs@.len(),
                m == deps@.len(),
                forall|j: int|
                    0 <= j < i ==> !recipe_matches(target@, deps.deep_view(), rs.deep_view()[j]),
                forall|q: int|
                    0 <= q < d ==> !spec_is_dep_listed(
                        dep_name(deps.deep_view()[q]),
                        target@,
                        rs.deep_view()[i as int],
                    ),
            decreases m - d,
        {
            proof {
                assert(deps.deep_view()[d as int] == deps@[d as int]@);
                assert(rs.deep_view()[i as int] == rs@[i as int]@);
            }
            if is_dep_listed(file(&deps[d]).as_str(), target, &rs[i]) {
                return Some(i);
            }
            d += 1;
        }
        proof {
            assert(!recipe_matches(target@, deps.deep_view(), rs.deep_view()[i as int]));
        }
        i += 1;
    }
    None
}

/// Finds the recipe bucket keyed by this extension.
pub fn find_bucket(recipes: &Vec<(String, Vec<Recipe>)>, key: &str) -> (r: Option<usize>)
    ensures
        match r {
            Some(i) => i < recipes@.len() && assoc_find(recipes_view(recipes@), key@) == Some(
                i as int,
            ),
            None => assoc_find(recipes_view(recipes@), key@) is None,
        },
{
    let ghost rv = recipes_view(recipes@);
    let n = recipes.len();
    let mut i: usize = 0;
    while i < n
        invariant
            i <= n,
            n == recipes@.len(),
            rv == recipes_view(recipes@),
            forall|j: int| 0 <= j < i ==> rv[j].0 != key@,
        decreases n - i,
    {
        proof {
            lemma_recipes_view_index(recipes@, i as int);
        }
        if str_eq(recipes[i].0.as_str(), key) {
            proof {
                lemma_assoc_find_at(rv, key@, i as int);
            }
            return Some(i);
        }
        i += 1;
    }
    proof {
        lemma_assoc_find(rv, key@);
    }
    None
}

/// Where a tagged dependency resolves: sources against the source root,
/// generated files against the build root.
pub open spec fn spec_dep_path(d: DepFileV, sd: Seq<char>, bd: Seq<char>) -> Seq<char> {
    match d {
        DepFileV::Source(s) => spec_join(sd, s),
        DepFileV::Generated(s) => spec_join(bd, s),
    }
}

/// Resolves one tagged dependency to its on-disk path.
pub fn append_dep(dep: &DependencyFile, sourcedir: &str, builddir: &str) -> (r: String)
    ensures
        r@ == spec_dep_path(dep@, sourcedir@, builddir@),
{
    match dep {
        DependencyFile::Source(s) => join_path(sourcedir, s.as_str()),
        DependencyFile::Generated(s) => join_path(builddir, s.as_str()),
    }
}

/// The resolved paths of the dependencies that satisfy the chosen recipe,
/// in declaration order.
pub open spec fn spec_dep_paths(
    deps: Seq<DepFileV>,
    target: Seq<char>,
    r: RecipeV,
    sd: Seq<char>,
    bd: Seq<char>,
) -> Seq<Seq<char>>
    decreases deps.len(),
{
    if deps.len() == 0 {
        Seq::empty()
    } else if spec_is_dep_listed(dep_name(deps[0]), target, r) {
        seq![spec_dep_path(deps[0], sd, bd)] + spec_dep_paths(deps.drop_first(), target, r, sd, bd)
    } else {
        spec_dep_paths(deps.drop_first(), target, r, sd, bd)
    }
}

/// Resolves the dependency paths the chosen recipe consumes.
pub fn dep_paths(
    deps: &Vec<DependencyFile>,
    target: &str,
    recipe: &Recipe,
    sourcedir: &str,
    builddir: &str,
) -> (r: Vec<String>)
    ensures
        r.deep_view() == spec_dep_paths(
            deps.deep_view(),
            target@,
            recipe@,
            sourcedir@,
            builddir@,
        ),
{
    let ghost deps_dv = deps.deep_view();
    let ghost r_v = recipe@;
    let mut out: Vec<String> = Vec::new();
    let mut i: usize = 0;
    proof {
        assert(out.deep_view() =~= Seq::<Seq<char>>::empty());
        assert(deps_dv.skip(0) =~= deps_dv);
    }
    while i < deps.len()
        invariant
            i <= deps@.len(),
            deps.deep_view() == deps_dv,
            r_v == recipe@,
            out.deep_view() + spec_dep_paths(deps_dv.skip(i as int), target@, r_v, sourcedir@, builddir@)
                =~= spec_dep_paths(deps_dv, target@, r_v, sourcedir@, builddir@),
        decreases deps@.len() - i,
    {
        let ghost pre = out.deep_view();
        proof {
            assert(deps_dv.skip(i as int)[0] == deps_dv[i as int]);
            assert(deps_dv.skip(i as int).drop_first() =~= deps_dv.skip(i + 1));
            assert(deps@[i as int]@ == deps_dv[i as int]);
        }
        if is_dep_listed(file(&deps[i]).as_str(), target, recipe) {
            out.push(append_dep(&deps[i], sourcedir, builddir));
            proof {
                assert(out.deep_view() =~= pre.push(
                    spec_dep_path(deps_dv[i as int], sourcedir@, builddir@),
                ));
                assert(pre + (seq![spec_dep_path(deps_dv[i as int], sourcedir@, builddir@)]
                    + spec_dep_paths(deps_dv.skip(i + 1), target@, r_v, sourcedir@, builddir@))
                    =~= out.deep_view() + spec_dep_paths(
                    deps_dv.skip(i + 1),
                    target@,
                    r_v,
                    sourcedir@,
                    builddir@,
                ));
            }
        }
        i += 1;
    }
    proof {
        assert(deps_dv.skip(deps_dv.len() as int) =~= Seq::<DepFileV>::empty());
        assert(out.deep_view() + Seq::<Seq<char>>::empty() =~= out.deep_view());
    }
    out
}

/// The step template with its sigils substituted: `$@` the target path,
/// `$bd` and `$sd` the roots, and every `$^` token spliced into the full
/// dependency-path list, position preserved.
pub open spec fn spec_substitute(
    tokens: Seq<Seq<char>>,
    target_path: Seq<char>,
    deps: Seq<Seq<char>>,
    bd: Seq<char>,
    sd: Seq<char>,
) -> Seq<Seq<char>>
    decreases tokens.len(),
{
    if tokens.len() == 0 {
        Seq::empty()
    } else {
        let rest = spec_substitute(tokens.drop_first(), target_path, deps, bd, sd);
        if tokens[0] == "$@"@ {
            seq![target_path] + rest
        } else if tokens[0] == "$bd"@ {
            seq![bd] + rest
        } else if tokens[0] == "$sd"@ {
            seq![sd] + rest
        } else if tokens[0] == "$^"@ {
            deps + rest
        } else {
            seq![tokens[0]] + rest
        }
    }
}

/// Substitutes the sigils of one command template, splicing `$^`.
pub fn do_replacements(
    step: &Vec<String>,
    target_path: &str,
    deps: &Vec<String>,
    builddir: &str,
    sourcedir: &str,
) -> (r: Vec<String>)
    ensures
        r.deep_view() == spec_substitute(
            step.deep_view(),
            target_path@,
            deps.deep_view(),
            builddir@,
            sourcedir@,
        ),
{
    let ghost toks = step.deep_view();
    let ghost deps_dv = deps.deep_view();
    let mut out: Vec<String> = Vec::new();
    let mut i: usize = 0;
    proof {
        reveal_strlit("$@");
        reveal_strlit("$bd");
        reveal_strlit("$sd");
        reveal_strlit("$^");
        assert(out.deep_view() =~= Seq::<Seq<char>>::empty());
        assert(toks.skip(0) =~= toks);
    }
    while i < step.len()
        invariant
            i <= step@.len(),
            step.deep_view() == toks,
            deps.deep_view() == deps_dv,
            out.deep_view() + spec_substitute(toks.skip(i as int), target_path@, deps_dv, builddir@, sourcedir@)
                =~= spec_substitute(toks, target_path@, deps_dv, builddir@, sourcedir@),
        decreases step@.len() - i,
    {
        let ghost pre = out.deep_view();
        proof {
            reveal_strlit("$@");
            reveal_strlit("$bd");
            reveal_strlit("$sd");
            reveal_strlit("$^");
            assert(toks.skip(i as int)[0] == toks[i as int]);
            assert(toks.skip(i as int).drop_first() =~= toks.skip(i + 1));
            assert(step@[i as int]@ == toks[i as int]);
        }
        let ghost full = spec_substitute(toks, target_path@, deps_dv, builddir@, sourcedir@);
        let ghost rest = spec_substitute(
            toks.skip(i + 1),
            target_path@,
            deps_dv,
            builddir@,
            sourcedir@,
        );
        let tok = &step[i];
        if str_eq(tok.as_str(), "$@") {
            out.push(String::from_str(target_path));
            proof {
                assert(out.deep_view() =~= pre + seq![target_path@]);
                assert(pre + (seq![target_path@] + rest) =~= (pre + seq![target_path@]) + rest);
                assert(out.deep_view() + rest =~= full);
            }
        } else if str_eq(tok.as_str(), "$bd") {
            out.push(String::from_str(builddir));
            proof {
                assert(out.deep_view() =~= pre + seq![builddir@]);
                assert(pre + (seq![builddir@] + rest) =~= (pre + seq![builddir@]) + rest);
                assert(out.deep_view() + rest =~= full);
            }
        } else if str_eq(tok.as_str(), "$sd") {
            out.push(String::from_str(sourcedir));
            proof {
                assert(out.deep_view() =~= pre + seq![sourcedir@]);
                assert(pre + (seq![sourcedir@] + rest) =~= (pre + seq![sourcedir@]) + rest);
                assert(out.deep_view() + rest =~= full);
            }
        } else if str_eq(tok.as_str(), "$^") {
            let mut j: usize = 0;
            proof {
                assert(deps_dv.take(0) =~= Seq::<Seq<char>>::empty());
                assert(out.deep_view() =~= pre + deps_dv.take(0));
            }
            while j < deps.len()
                invariant
                    j <= deps@.len(),
                    deps.deep_view() == deps_dv,
                    out.deep_view() =~= pre + deps_dv.take(j as int),
                decreases deps@.len() - j,
            {
                let ghost pre2 = out.deep_view();
                out.push(deps[j].clone());
                proof {
                    assert(out.deep_view() =~= pre2.push(deps_dv[j as int]));
                    assert(pre + deps_dv.take(j as int) + seq![deps_dv[j as int]] =~= pre
                        + deps_dv.take(j + 1));
                }
                j += 1;
            }
            proof {
                assert(out.deep_view() =~= pre + deps_dv.take(j as int));
                assert(j == deps@.len());
                assert(deps_dv.len() == deps@.len());
                assert(deps_dv.take(j as int) =~= deps_dv);
                assert(out.deep_view() =~= pre + deps_dv);
                assert(pre + (deps_dv + rest) =~= (pre + deps_dv) + rest);
                assert(out.deep_view() + rest =~= full);
            }
        } else {
            out.push(tok.clone());
            proof {
                assert(out.deep_view() =~= pre + seq![toks[i as int]]);
                assert(pre + (seq![toks[i as int]] + rest) =~= (pre + seq![toks[i as int]])
                    + rest);
                assert(out.deep_view() + rest =~= full);
            }
        }
        proof {
            assert(out.deep_view() + spec_substitute(
                toks.skip(i + 1),
                target_path@,
                deps_dv,
                builddir@,
                sourcedir@,
            ) =~= spec_substitute(toks, target_path@, deps_dv, builddir@, sourcedir@));
        }
        i += 1;
    }
    proof {
        assert(toks.skip(toks.len() as int) =~= Seq::<Seq<char>>::empty());
        assert(out.deep_view() + Seq::<Seq<char>>::empty() =~= out.deep_view());
    }
    out
}

/// A step must run exactly when the target is missing, a dependency file
/// is missing, or some dependency is newer than the target.
pub open spec fn spec_needs_compiling(target_mtime: Option<u64>, dep_mtimes: Seq<Option<u64>>) -> bool {
    target_mtime is None || (exists|i: int| 0 <= i < dep_mtimes.len() && dep_mtimes[i] is None)
        || (exists|i: int|
        0 <= i < dep_mtimes.len() && (#[trigger] dep_mtimes[i] matches Some(m) && m
            > target_mtime->Some_0))
}

/// Decides staleness from modification times: `None` stands for a file
/// that does not exist. The caller gathers the times; nothing here touches
/// the file system.
pub fn needs_compiling(target_mtime: Option<u64>, dep_mtimes: &Vec<Option<u64>>) -> (r: bool)
    ensures
        r == spec_needs_compiling(target_mtime, dep_mtimes@),
{
    let t = match target_mtime {
        None => {
            return true;
        },
        Some(t) => t,
    };
    let n = dep_mtimes.len();
    let mut i: usize = 0;
    while i < n
        invariant
            i <= n,
            n == dep_mtimes@.len(),
            target_mtime == Some(t),
            forall|j: int| 0 <= j < i ==> (#[trigger] dep_mtimes@[j] matches Some(m) && m <= t),
        decreases n - i,
    {
        match dep_mtimes[i] {
            None => {
                return true;
            },
            Some(m) => {
                if m > t {
                    return true;
                }
            },
        }
        i += 1;
    }
    false
}

/// If the target exists and is newer than every dependency file, no
/// subprocess is due: staleness never fires on an up-to-date target.
pub proof fn lemma_staleness(target_mtime: Option<u64>, dep_mtimes: Seq<Option<u64>>)
    requires
        target_mtime is Some,
        forall|i: int|
            0 <= i < dep_mtimes.len() ==> (#[trigger] dep_mtimes[i] matches Some(m) && m
                <= target_mtime->Some_0),
    ensures
        !spec_needs_compiling(target_mtime, dep_mtimes),
{
}

} // verus!
