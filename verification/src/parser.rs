//! The task-file language: lines holding variable declarations, task
//! statements and pattern recipes, with `$(...)` expressions expanded
//! against the variable environment as each statement is read.
//!
//! The exec parser is line-oriented: a physical line starting with blank
//! space belongs to the recipe opened above it; any other line is a
//! variable declaration (`NAME = tokens`), a task (`target: inputs`,
//! where the separating `:` stands outside parentheses and is followed by
//! blank space or the line end), or a recipe header
//! (`%.ext < %.ext [< *.ext ...]`). The spec functions beside it state the
//! same grammar over sequences of characters, and every public function's
//! contract ties the two together.

use vstd::prelude::*;
use vstd::string::*;

use crate::functions::{eval_function, spec_eval_function, EvalError, SysEnv};
use crate::functions::str_eq;
use crate::util::spec_remove_prefix;
use crate::util::remove_prefix;
use crate::util::push_char;
use crate::util::find_char;
use crate::util::find_char_in;

verus! {

/// A target and the inputs that build it, in declaration order.
#[derive(Debug, Default, PartialEq, Eq)]
pub struct Task {
    pub inputs: Vec<String>,
}

/// A pattern rule: the input extensions that must all exist (`templ_in`),
/// those of which any one suffices (`any_in`), and the command templates.
#[derive(Debug, Default, PartialEq, Eq)]
pub struct Recipe {
    pub templ_in: Vec<String>,
    pub any_in: Vec<String>,
    pub steps: Vec<Vec<String>>,
}

/// Everything a parse run accumulates: tasks keyed by target name and
/// recipes keyed by output extension, both in first-seen order with
/// later statements appending to the existing entry.
#[derive(Debug, Default, PartialEq, Eq)]
pub struct TaskFile {
    pub tasks: Vec<(String, Task)>,
    pub recipes: Vec<(String, Vec<Recipe>)>,
}

/// The mathematical shadow of a [`Recipe`].
#[verifier::ext_equal]
pub struct RecipeV {
    pub templ_in: Seq<Seq<char>>,
    pub any_in: Seq<Seq<char>>,
    pub steps: Seq<Seq<Seq<char>>>,
}

impl View for Recipe {
    type V = RecipeV;

    open spec fn view(&self) -> RecipeV {
        RecipeV {
            templ_in: self.templ_in.deep_view(),
            any_in: self.any_in.deep_view(),
            steps: self.steps.deep_view(),
        }
    }
}

impl DeepView for Recipe {
    type V = RecipeV;

    open spec fn deep_view(&self) -> RecipeV {
        self.view()
    }
}

impl View for Task {
    type V = Seq<Seq<char>>;

    open spec fn view(&self) -> Seq<Seq<char>> {
        self.inputs.deep_view()
    }
}

/// The tasks of a [`TaskFile`] as an association sequence.
pub open spec fn tasks_view(ts: Seq<(String, Task)>) -> Seq<(Seq<char>, Seq<Seq<char>>)> {
    ts.map_values(|p: (String, Task)| (p.0.deep_view(), p.1.inputs.deep_view()))
}

/// The recipes of a [`TaskFile`] as an association sequence.
pub open spec fn recipes_view(rs: Seq<(String, Vec<Recipe>)>) -> Seq<(Seq<char>, Seq<RecipeV>)> {
    rs.map_values(|p: (String, Vec<Recipe>)| (p.0.deep_view(), p.1.deep_view()))
}

/// The mathematical shadow of a [`TaskFile`].
#[verifier::ext_equal]
pub struct TaskFileV {
    pub tasks: Seq<(Seq<char>, Seq<Seq<char>>)>,
    pub recipes: Seq<(Seq<char>, Seq<RecipeV>)>,
}

impl View for TaskFile {
    type V = TaskFileV;

    open spec fn view(&self) -> TaskFileV {
        TaskFileV { tasks: tasks_view(self.tasks@), recipes: recipes_view(self.recipes@) }
    }
}

/// Index of the first pair keyed `key`, if any.
pub open spec fn assoc_find<V>(s: Seq<(Seq<char>, V)>, key: Seq<char>) -> Option<int>
    decreases s.len(),
{
    if s.len() == 0 {
        None
    } else if s[0].0 == key {
        Some(0int)
    } else {
        match assoc_find(s.drop_first(), key) {
            Some(i) => Some(i + 1),
            None => None,
        }
    }
}

/// `assoc_find` returns the first pair with the key, or rules the key out.
pub proof fn lemma_assoc_find<V>(s: Seq<(Seq<char>, V)>, key: Seq<char>)
    ensures
        match assoc_find(s, key) {
            Some(i) => 0 <= i < s.len() && s[i].0 == key && (forall|j: int|
                0 <= j < i ==> s[j].0 != key),
            None => forall|j: int| 0 <= j < s.len() ==> s[j].0 != key,
        },
    decreases s.len(),
{
    if s.len() == 0 {
    } else if s[0].0 == key {
    } else {
        lemma_assoc_find(s.drop_first(), key);
        assert(forall|j: int| 0 <= j < s.drop_first().len() ==> s.drop_first()[j] == s[j + 1]);
        match assoc_find(s.drop_first(), key) {
            Some(i) => {
                assert(s[i + 1] == s.drop_first()[i]);
                assert(forall|j: int| 1 <= j < i + 1 ==> s[j] == s.drop_first()[j - 1]);
            },
            None => {
                assert(forall|j: int| 1 <= j < s.len() ==> s[j] == s.drop_first()[j - 1]);
            },
        }
    }
}

/// Appending inputs to a task: onto the existing entry when the target is
/// already known, else as a fresh final entry.
pub open spec fn spec_tasks_append(
    ts: Seq<(Seq<char>, Seq<Seq<char>>)>,
    name: Seq<char>,
    inputs: Seq<Seq<char>>,
) -> Seq<(Seq<char>, Seq<Seq<char>>)> {
    match assoc_find(ts, name) {
        Some(i) => ts.update(i, (name, ts[i].1 + inputs)),
        None => ts.push((name, inputs)),
    }
}

/// Adding one more recipe under its output extension, keeping declaration
/// order within the bucket.
pub open spec fn spec_recipes_append(
    rs: Seq<(Seq<char>, Seq<RecipeV>)>,
    key: Seq<char>,
    r: RecipeV,
) -> Seq<(Seq<char>, Seq<RecipeV>)> {
    match assoc_find(rs, key) {
        Some(i) => rs.update(i, (key, rs[i].1.push(r))),
        None => rs.push((key, seq![r])),
    }
}

/// The variable environment: name to token list, later declarations
/// overwriting earlier ones.
#[derive(Debug, Default)]
pub struct VarEnv {
    pub pairs: Vec<(String, Vec<String>)>,
}

/// The environment a pair sequence denotes, later pairs overwriting.
pub open spec fn env_map(pairs: Seq<(String, Vec<String>)>) -> Map<Seq<char>, Seq<Seq<char>>>
    decreases pairs.len(),
{
    if pairs.len() == 0 {
        Map::empty()
    } else {
        env_map(pairs.drop_last()).insert(pairs.last().0.deep_view(), pairs.last().1.deep_view())
    }
}

impl View for VarEnv {
    type V = Map<Seq<char>, Seq<Seq<char>>>;

    open spec fn view(&self) -> Map<Seq<char>, Seq<Seq<char>>> {
        env_map(self.pairs@)
    }
}

/// Pairs beyond `i` that never match `name` leave the lookup to the prefix.
proof fn lemma_env_map_prefix(pairs: Seq<(String, Vec<String>)>, name: Seq<char>, i: int)
    requires
        0 <= i <= pairs.len(),
        forall|j: int| i <= j < pairs.len() ==> pairs[j].0.deep_view() != name,
    ensures
        env_map(pairs).contains_key(name) == env_map(pairs.take(i)).contains_key(name),
        env_map(pairs).contains_key(name) ==> env_map(pairs)[name] == env_map(pairs.take(i))[name],
    decreases pairs.len() - i,
{
    if i < pairs.len() {
        lemma_env_map_prefix(pairs, name, i + 1);
        assert(pairs.take(i + 1).drop_last() =~= pairs.take(i));
        assert(pairs.take(i + 1).last() == pairs[i]);
    } else {
        assert(pairs.take(i) =~= pairs);
    }
}

impl VarEnv {
    /// An empty environment.
    pub fn new() -> (r: VarEnv)
        ensures
            r@ == Map::<Seq<char>, Seq<Seq<char>>>::empty(),
    {
        VarEnv { pairs: Vec::new() }
    }

    /// Binds `name` to `value`, shadowing any earlier binding.
    pub fn insert(&mut self, name: String, value: Vec<String>)
        ensures
            final(self)@ == old(self)@.insert(name@, value.deep_view()),
    {
        let ghost old_pairs = self.pairs@;
        self.pairs.push((name, value));
        proof {
            assert(self.pairs@.drop_last() =~= old_pairs);
        }
    }

    /// The tokens bound to `name`, if any.
    pub fn get(&self, name: &str) -> (r: Option<Vec<String>>)
        ensures
            match r {
                Some(v) => self@.contains_key(name@) && v.deep_view() == self@[name@],
                None => !self@.contains_key(name@),
            },
    {
        let n = self.pairs.len();
        let mut i: usize = n;
        while i > 0
            invariant
                i <= n,
                n == self.pairs@.len(),
                forall|j: int| i <= j < n ==> self.pairs@[j].0.deep_view() != name@,
            decreases i,
        {
            i = i - 1;
            if str_eq(self.pairs[i].0.as_str(), name) {
                let v = clone_strings(&self.pairs[i].1);
                proof {
                    lemma_env_map_prefix(self.pairs@, name@, i + 1);
                    assert(self.pairs@.take(i + 1).drop_last() =~= self.pairs@.take(i as int));
                    assert(self.pairs@.take(i + 1).last() == self.pairs@[i as int]);
                }
                return Some(v);
            }
        }
        proof {
            lemma_env_map_prefix(self.pairs@, name@, 0);
            assert(self.pairs@.take(0) =~= Seq::<(String, Vec<String>)>::empty());
        }
        None
    }
}

/// An element-wise copy of a string vector.
pub fn clone_strings(v: &Vec<String>) -> (r: Vec<String>)
    ensures
        r@ =~= v@,
{
    let mut r: Vec<String> = Vec::new();
    let mut i: usize = 0;
    while i < v.len()
        invariant
            i <= v@.len(),
            r@ =~= v@.take(i as int),
        decreases v@.len() - i,
    {
        r.push(v[i].clone());
        proof {
            assert(v@.take(i + 1).drop_last() =~= v@.take(i as int));
        }
        i += 1;
    }
    proof {
        assert(v@.take(v@.len() as int) =~= v@);
    }
    r
}

/// Blank space inside a line.
pub open spec fn is_space(c: char) -> bool {
    c == ' ' || c == '\t' || c == '\r'
}

/// Parenthesis depth, never dropping below zero.
pub open spec fn depth_step(d: int, c: char) -> int {
    if c == '(' {
        d + 1
    } else if c == ')' {
        if d > 0 {
            d - 1
        } else {
            0
        }
    } else {
        d
    }
}

/// The words of `s`: maximal runs of non-blank characters, where blanks
/// inside parentheses do not split.
pub open spec fn split_rec(
    s: Seq<char>,
    i: int,
    d: int,
    cur: Seq<char>,
    acc: Seq<Seq<char>>,
) -> Seq<Seq<char>>
    decreases s.len() - i,
{
    if i < 0 || i >= s.len() {
        if cur.len() > 0 {
            acc.push(cur)
        } else {
            acc
        }
    } else if is_space(s[i]) && d == 0 {
        split_rec(s, i + 1, d, Seq::empty(), if cur.len() > 0 {
            acc.push(cur)
        } else {
            acc
        })
    } else {
        split_rec(s, i + 1, depth_step(d, s[i]), cur.push(s[i]), acc)
    }
}

/// The word list of a line.
pub open spec fn spec_split(s: Seq<char>) -> Seq<Seq<char>> {
    split_rec(s, 0, 0, Seq::empty(), Seq::empty())
}

/// Every word that splitting yields is a nonempty string no longer than
/// what remains to scan plus what is already accumulated.
proof fn lemma_split_rec_len(s: Seq<char>, i: int, d: int, cur: Seq<char>, acc: Seq<Seq<char>>, bound: int)
    requires
        0 <= i <= s.len(),
        cur.len() + (s.len() - i) <= bound,
        forall|k: int| 0 <= k < acc.len() ==> 1 <= #[trigger] acc[k].len() <= bound,
    ensures
        forall|k: int|
            0 <= k < split_rec(s, i, d, cur, acc).len() ==> 1 <= #[trigger] split_rec(
                s,
                i,
                d,
                cur,
                acc,
            )[k].len() <= bound,
    decreases s.len() - i,
{
    if i >= s.len() {
        if cur.len() > 0 {
            let res = split_rec(s, i, d, cur, acc);
            assert(res == acc.push(cur));
            assert forall|k: int| 0 <= k < res.len() implies 1 <= #[trigger] res[k].len()
                <= bound by {
                if k < acc.len() {
                    assert(res[k] == acc[k]);
                } else {
                    assert(res[k] == cur);
                }
            }
        }
    } else if is_space(s[i]) && d == 0 {
        let acc2 = if cur.len() > 0 {
            acc.push(cur)
        } else {
            acc
        };
        assert(forall|k: int|
            0 <= k < acc2.len() ==> acc2[k] == (if k < acc.len() {
                acc[k]
            } else {
                cur
            }));
        assert(forall|k: int| 0 <= k < acc2.len() ==> 1 <= #[trigger] acc2[k].len() <= bound);
        lemma_split_rec_len(s, i + 1, d, Seq::empty(), acc2, bound);
        assert(split_rec(s, i, d, cur, acc) == split_rec(s, i + 1, d, Seq::empty(), acc2));
    } else {
        lemma_split_rec_len(s, i + 1, depth_step(d, s[i]), cur.push(s[i]), acc, bound);
        assert(split_rec(s, i, d, cur, acc) == split_rec(
            s,
            i + 1,
            depth_step(d, s[i]),
            cur.push(s[i]),
            acc,
        ));
    }
}

/// Every word of a split line is nonempty and no longer than the line.
pub proof fn lemma_split_len(s: Seq<char>)
    ensures
        forall|k: int|
            0 <= k < spec_split(s).len() ==> 1 <= #[trigger] spec_split(s)[k].len() <= s.len(),
{
    lemma_split_rec_len(s, 0, 0, Seq::empty(), Seq::empty(), s.len() as int);
}

/// Splits a line into words, blanks inside parentheses preserved.
pub fn split_words(s: &str) -> (r: Vec<String>)
    ensures
        r.deep_view() == spec_split(s@),
{
    let n: usize = s.unicode_len();
    let mut i: usize = 0;
    let mut d: usize = 0;
    let mut cur: String = String::new();
    let mut acc: Vec<String> = Vec::new();
    proof {
        assert(acc.deep_view() =~= Seq::<Seq<char>>::empty());
    }
    while i < n
        invariant
            i <= n,
            n == s@.len(),
            d <= i,
            split_rec(s@, i as int, d as int, cur@, acc.deep_view()) == spec_split(s@),
        decreases n - i,
    {
        let ghost pre_cur = cur@;
        let ghost pre_acc = acc.deep_view();
        let ghost pre_d = d as int;
        let c = s.get_char(i);
        if (c == ' ' || c == '\t' || c == '\r') && d == 0 {
            if !cur.as_str().is_empty() {
                acc.push(cur);
                cur = String::new();
            }
            proof {
                if pre_cur.len() > 0 {
                    assert(acc.deep_view() =~= pre_acc.push(pre_cur));
                } else {
                    assert(pre_cur =~= Seq::<char>::empty());
                }
                assert(cur@ =~= Seq::<char>::empty());
                assert(split_rec(s@, i as int, pre_d, pre_cur, pre_acc) == split_rec(
                    s@,
                    i + 1,
                    pre_d,
                    Seq::<char>::empty(),
                    acc.deep_view(),
                ));
            }
        } else {
            if c == '(' {
                d += 1;
            } else if c == ')' {
                if d > 0 {
                    d -= 1;
                }
            }
            push_char(&mut cur, c);
            proof {
                assert(d as int == depth_step(pre_d, s@[i as int]));
                assert(split_rec(s@, i as int, pre_d, pre_cur, pre_acc) == split_rec(
                    s@,
                    i + 1,
                    d as int,
                    cur@,
                    acc.deep_view(),
                ));
            }
        }
        i += 1;
    }
    let ghost pre_cur = cur@;
    let ghost pre_acc = acc.deep_view();
    if !cur.as_str().is_empty() {
        acc.push(cur);
        proof {
            assert(acc.deep_view() =~= pre_acc.push(pre_cur));
        }
    }
    acc
}

/// The physical lines of the input, split at `\n`.
pub open spec fn lines_rec(s: Seq<char>, i: int, cur: Seq<char>, acc: Seq<Seq<char>>) -> Seq<
    Seq<char>,
>
    decreases s.len() - i,
{
    if i < 0 || i >= s.len() {
        acc.push(cur)
    } else if s[i] == '\n' {
        lines_rec(s, i + 1, Seq::empty(), acc.push(cur))
    } else {
        lines_rec(s, i + 1, cur.push(s[i]), acc)
    }
}

/// The line list of a whole input.
pub open spec fn spec_lines(s: Seq<char>) -> Seq<Seq<char>> {
    lines_rec(s, 0, Seq::empty(), Seq::empty())
}

/// Splits the input into lines at `\n`.
pub fn lines_of(s: &str) -> (r: Vec<String>)
    ensures
        r.deep_view() == spec_lines(s@),
{
    let n: usize = s.unicode_len();
    let mut i: usize = 0;
    let mut cur: String = String::new();
    let mut acc: Vec<String> = Vec::new();
    proof {
        assert(acc.deep_view() =~= Seq::<Seq<char>>::empty());
    }
    while i < n
        invariant
            i <= n,
            n == s@.len(),
            lines_rec(s@, i as int, cur@, acc.deep_view()) == spec_lines(s@),
        decreases n - i,
    {
        let ghost pre_cur = cur@;
        let ghost pre_acc = acc.deep_view();
        let c = s.get_char(i);
        if c == '\n' {
            acc.push(cur);
            cur = String::new();
            proof {
                assert(acc.deep_view() =~= pre_acc.push(pre_cur));
                assert(lines_rec(s@, i as int, pre_cur, pre_acc) == lines_rec(
                    s@,
                    i + 1,
                    Seq::<char>::empty(),
                    acc.deep_view(),
                ));
            }
        } else {
            push_char(&mut cur, c);
            proof {
                assert(lines_rec(s@, i as int, pre_cur, pre_acc) == lines_rec(
                    s@,
                    i + 1,
                    cur@,
                    acc.deep_view(),
                ));
            }
        }
        i += 1;
    }
    let ghost pre_cur = cur@;
    let ghost pre_acc = acc.deep_view();
    acc.push(cur);
    proof {
        assert(acc.deep_view() =~= pre_acc.push(pre_cur));
    }
    acc
}

/// The task separator: the first `:` outside parentheses that is followed
/// by blank space or ends the line.
pub open spec fn sep_rec(s: Seq<char>, i: int, d: int) -> Option<int>
    decreases s.len() - i,
{
    if i < 0 || i >= s.len() {
        None
    } else if d == 0 && s[i] == ':' && (i + 1 == s.len() || is_space(s[i + 1])) {
        Some(i)
    } else {
        sep_rec(s, i + 1, depth_step(d, s[i]))
    }
}

/// Where a line splits into task target and inputs, if anywhere.
pub open spec fn spec_find_sep(s: Seq<char>) -> Option<int> {
    sep_rec(s, 0, 0)
}

/// Finds the task separator of a line.
pub fn find_sep(s: &str) -> (r: Option<usize>)
    ensures
        match r {
            Some(i) => i < s@.len() && spec_find_sep(s@) == Some(i as int),
            None => spec_find_sep(s@) is None,
        },
{
    let n: usize = s.unicode_len();
    let mut i: usize = 0;
    let mut d: usize = 0;
    while i < n
        invariant
            i <= n,
            n == s@.len(),
            d <= i,
            sep_rec(s@, i as int, d as int) == spec_find_sep(s@),
        decreases n - i,
    {
        let c = s.get_char(i);
        if d == 0 && c == ':' {
            if i + 1 == n {
                return Some(i);
            }
            let c2 = s.get_char(i + 1);
            if c2 == ' ' || c2 == '\t' || c2 == '\r' {
                return Some(i);
            }
        }
        if c == '(' {
            d += 1;
        } else if c == ')' {
            if d > 0 {
                d -= 1;
            }
        }
        i += 1;
    }
    None
}

/// A template list with consecutive repeats removed, as `Vec::dedup` does.
pub open spec fn dedup_rec(s: Seq<Seq<char>>, i: int, acc: Seq<Seq<char>>) -> Seq<Seq<char>>
    decreases s.len() - i,
{
    if i < 0 || i >= s.len() {
        acc
    } else if acc.len() > 0 && acc.last() == s[i] {
        dedup_rec(s, i + 1, acc)
    } else {
        dedup_rec(s, i + 1, acc.push(s[i]))
    }
}

/// `s` with consecutive duplicates collapsed.
pub open spec fn spec_dedup(s: Seq<Seq<char>>) -> Seq<Seq<char>> {
    dedup_rec(s, 0, Seq::empty())
}

/// What expanding one word yields: a token list, or the first failure met.
pub enum Expansion {
    /// The word expanded to these tokens.
    Tokens(Seq<Seq<char>>),
    /// A `$(NAME)` reference to a variable the environment does not bind.
    Unbound(Seq<char>),
    /// A built-in function raised this error.
    Fn(EvalError),
    /// An empty `$()` application.
    Malformed,
}

/// Why a parse run stopped, paired with file and line in [`ParseError`].
#[derive(Debug, PartialEq, Eq, Clone)]
pub enum ParseErrorKind {
    /// A line that is no statement of the language, or an empty `$()`.
    Malformed,
    /// A `$(NAME)` reference to an unbound variable.
    Unbound(String),
    /// A built-in function raised this error.
    Fn(EvalError),
    /// A task's target expression expanded to a number of tokens other
    /// than one.
    TargetCount,
    /// An indented step line with no recipe header above it.
    StrayStep,
    /// A recipe input template holding neither `%` nor `*`, or a header
    /// not shaped `template [< template]*`.
    BadTemplate,
    /// A recipe header with no step lines under it.
    EmptyRecipe,
}

/// Does the exec error kind state exactly the failure of the expansion?
pub open spec fn kind_matches(k: ParseErrorKind, x: Expansion) -> bool {
    match x {
        Expansion::Tokens(_) => false,
        Expansion::Unbound(n) => k matches ParseErrorKind::Unbound(m) && m@ == n,
        Expansion::Fn(e) => k matches ParseErrorKind::Fn(e2) && e2 == e,
        Expansion::Malformed => k is Malformed,
    }
}

/// A word shaped `$( ... )`: an expression to expand rather than a literal.
pub open spec fn is_expr_word(w: Seq<char>) -> bool {
    w.len() >= 3 && w[0] == '$' && w[1] == '(' && w[w.len() - 1] == ')'
}

/// The longest word of a list.
pub open spec fn max_word_len(words: Seq<Seq<char>>) -> int
    decreases words.len(),
{
    if words.len() == 0 {
        0
    } else if words[0].len() >= max_word_len(words.drop_first()) {
        words[0].len() as int
    } else {
        max_word_len(words.drop_first())
    }
}

/// No word is longer than the longest.
pub proof fn lemma_max_word_len(words: Seq<Seq<char>>)
    ensures
        forall|k: int| 0 <= k < words.len() ==> #[trigger] words[k].len() <= max_word_len(words),
    decreases words.len(),
{
    if words.len() > 0 {
        lemma_max_word_len(words.drop_first());
        assert(forall|k: int|
            0 <= k < words.drop_first().len() ==> words.drop_first()[k] == words[k + 1]);
        assert forall|k: int| 0 <= k < words.len() implies #[trigger] words[k].len()
            <= max_word_len(words) by {
            if k > 0 {
                assert(words[k] == words.drop_first()[k - 1]);
                assert(words.drop_first()[k - 1].len() <= max_word_len(words.drop_first()));
            }
        }
    }
}

/// Prefixing already-expanded tokens onto a further outcome.
pub open spec fn expansion_prepend(ts: Seq<Seq<char>>, x: Expansion) -> Expansion {
    match x {
        Expansion::Tokens(r) => Expansion::Tokens(ts + r),
        e => e,
    }
}

/// What expanding the word `w` against `env` yields. A literal stands for
/// itself; `$(NAME)` looks `NAME` up; `$(fn arg ...)` expands every
/// argument, flattens, and applies the built-in.
pub open spec fn spec_eval_word(w: Seq<char>, env: Map<Seq<char>, Seq<Seq<char>>>, sys: &SysEnv) -> Expansion
    decreases w.len(), 1int, 0int,
{
    if is_expr_word(w) {
        let words = spec_split(w.subrange(2, w.len() - 1));
        if words.len() == 0 {
            Expansion::Malformed
        } else if words.len() == 1 {
            if env.contains_key(words[0]) {
                Expansion::Tokens(env[words[0]])
            } else {
                Expansion::Unbound(words[0])
            }
        } else {
            match spec_eval_args(w.len() as int, words.drop_first(), env, sys) {
                Expansion::Tokens(flat) => match spec_eval_function(words[0], flat, sys) {
                    Ok(v) => Expansion::Tokens(v),
                    Err(e) => Expansion::Fn(e),
                },
                e => e,
            }
        }
    } else {
        Expansion::Tokens(seq![w])
    }
}

/// Expands a list of argument words in order and concatenates the token
/// lists; the first failure is the outcome. `outer` bounds every word's
/// length; the middle branch can never be reached from [`spec_eval_word`],
/// where every argument word is shorter than the word it came from.
pub open spec fn spec_eval_args(
    outer: int,
    words: Seq<Seq<char>>,
    env: Map<Seq<char>, Seq<Seq<char>>>,
    sys: &SysEnv,
) -> Expansion
    decreases outer, 0int, words.len(),
{
    if words.len() == 0 {
        Expansion::Tokens(Seq::empty())
    } else if words[0].len() >= outer {
        Expansion::Malformed
    } else {
        match spec_eval_word(words[0], env, sys) {
            Expansion::Tokens(ts) => expansion_prepend(
                ts,
                spec_eval_args(outer, words.drop_first(), env, sys),
            ),
            e => e,
        }
    }
}

/// What expanding every word of a line segment yields.
pub open spec fn spec_eval_words(
    words: Seq<Seq<char>>,
    env: Map<Seq<char>, Seq<Seq<char>>>,
    sys: &SysEnv,
) -> Expansion {
    spec_eval_args(max_word_len(words) + 1, words, env, sys)
}

/// Expands one word: a literal stands for itself, `$(NAME)` is looked up,
/// `$(fn arg ...)` applies the built-in to its expanded arguments.
pub fn eval_word(w: &str, env: &VarEnv, sys: &SysEnv) -> (r: Result<Vec<String>, ParseErrorKind>)
    ensures
        match r {
            Ok(v) => spec_eval_word(w@, env@, sys) == Expansion::Tokens(v.deep_view()),
            Err(k) => kind_matches(k, spec_eval_word(w@, env@, sys)),
        },
    decreases w@.len(),
{
    let n: usize = w.unicode_len();
    let is_expr = n >= 3 && w.get_char(0) == '$' && w.get_char(1) == '(' && w.get_char(n - 1)
        == ')';
    if !is_expr {
        let mut out: Vec<String> = Vec::new();
        out.push(String::from_str(w));
        proof {
            assert(out.deep_view() =~= seq![w@]);
        }
        return Ok(out);
    }
    let inner = w.substring_char(2, n - 1);
    let words = split_words(inner);
    let ghost words_v = spec_split(w@.subrange(2, w@.len() - 1));
    proof {
        assert(words.deep_view() == words_v);
        lemma_split_len(inner@);
    }
    if words.len() == 0 {
        return Err(ParseErrorKind::Malformed);
    }
    if words.len() == 1 {
        proof {
            assert(words@[0]@ == words_v[0]);
        }
        match env.get(words[0].as_str()) {
            Some(v) => {
                return Ok(v);
            },
            None => {
                return Err(ParseErrorKind::Unbound(words[0].clone()));
            },
        }
    }
    let ghost args_v = words_v.drop_first();
    let ghost outer = w@.len() as int;
    let mut flat: Vec<String> = Vec::new();
    let mut j: usize = 1;
    proof {
        assert(flat.deep_view() =~= Seq::<Seq<char>>::empty());
        assert(args_v.skip(0) =~= args_v);
    }
    while j < words.len()
        invariant
            1 <= j <= words@.len(),
            words.deep_view() == words_v,
            words_v == spec_split(w@.subrange(2, w@.len() - 1)),
            args_v == words_v.drop_first(),
            outer == w@.len(),
            is_expr_word(w@),
            forall|k: int| 0 <= k < words_v.len() ==> 1 <= #[trigger] words_v[k].len() <= w@.len()
                - 3,
            expansion_prepend(
                flat.deep_view(),
                spec_eval_args(outer, args_v.skip(j - 1), env@, sys),
            ) == spec_eval_args(outer, args_v, env@, sys),
        decreases words@.len() - j,
    {
        let ghost pre_flat = flat.deep_view();
        proof {
            assert(args_v.skip(j - 1)[0] == args_v[j - 1]);
            assert(args_v[j - 1] == words_v[j as int]);
            assert(args_v.skip(j - 1).drop_first() =~= args_v.skip(j as int));
            assert(words@[j as int]@ == words_v[j as int]);
        }
        match eval_word(words[j].as_str(), env, sys) {
            Ok(mut v) => {
                let ghost v_dv = v.deep_view();
                flat.append(&mut v);
                proof {
                    assert(flat.deep_view() =~= pre_flat + v_dv);
                    assert(expansion_prepend(
                        pre_flat,
                        spec_eval_args(outer, args_v.skip(j - 1), env@, sys),
                    ) == spec_eval_args(outer, args_v, env@, sys));
                    match spec_eval_args(outer, args_v.skip(j as int), env@, sys) {
                        Expansion::Tokens(rest) => {
                            assert(pre_flat + (v_dv + rest) =~= (pre_flat + v_dv) + rest);
                        },
                        _ => {},
                    }
                }
            },
            Err(e) => {
                return Err(e);
            },
        }
        j += 1;
    }
    proof {
        assert(args_v.skip(args_v.len() as int) =~= Seq::<Seq<char>>::empty());
        match spec_eval_args(outer, args_v, env@, sys) {
            Expansion::Tokens(ts) => {
                assert(ts =~= flat.deep_view() + Seq::<Seq<char>>::empty());
                assert(ts =~= flat.deep_view());
            },
            _ => {},
        }
        assert(words@[0]@ == words_v[0]);
    }
    match eval_function(words[0].as_str(), &flat, sys) {
        Ok(v) => Ok(v),
        Err(e) => Err(ParseErrorKind::Fn(e)),
    }
}

/// Expands every word of a line segment and concatenates the tokens.
pub fn eval_words(words: &Vec<String>, env: &VarEnv, sys: &SysEnv) -> (r: Result<
    Vec<String>,
    ParseErrorKind,
>)
    ensures
        match r {
            Ok(v) => spec_eval_words(words.deep_view(), env@, sys) == Expansion::Tokens(
                v.deep_view(),
            ),
            Err(k) => kind_matches(k, spec_eval_words(words.deep_view(), env@, sys)),
        },
{
    let ghost words_v = words.deep_view();
    let ghost outer = max_word_len(words_v) + 1;
    let mut flat: Vec<String> = Vec::new();
    let mut j: usize = 0;
    proof {
        lemma_max_word_len(words_v);
        assert(flat.deep_view() =~= Seq::<Seq<char>>::empty());
        assert(words_v.skip(0) =~= words_v);
    }
    while j < words.len()
        invariant
            j <= words@.len(),
            words.deep_view() == words_v,
            outer == max_word_len(words_v) + 1,
            forall|k: int| 0 <= k < words_v.len() ==> #[trigger] words_v[k].len() < outer,
            expansion_prepend(
                flat.deep_view(),
                spec_eval_args(outer, words_v.skip(j as int), env@, sys),
            ) == spec_eval_args(outer, words_v, env@, sys),
        decreases words@.len() - j,
    {
        let ghost pre_flat = flat.deep_view();
        proof {
            assert(words_v.skip(j as int)[0] == words_v[j as int]);
            assert(words_v.skip(j as int).drop_first() =~= words_v.skip(j + 1));
            assert(words@[j as int]@ == words_v[j as int]);
        }
        match eval_word(words[j].as_str(), env, sys) {
            Ok(mut v) => {
                let ghost v_dv = v.deep_view();
                flat.append(&mut v);
                proof {
                    assert(flat.deep_view() =~= pre_flat + v_dv);
                    match spec_eval_args(outer, words_v.skip(j + 1), env@, sys) {
                        Expansion::Tokens(rest) => {
                            assert(pre_flat + (v_dv + rest) =~= (pre_flat + v_dv) + rest);
                        },
                        _ => {},
                    }
                }
            },
            Err(e) => {
                return Err(e);
            },
        }
        j += 1;
    }
    proof {
        assert(words_v.skip(words_v.len() as int) =~= Seq::<Seq<char>>::empty());
        match spec_eval_args(outer, words_v, env@, sys) {
            Expansion::Tokens(ts) => {
                assert(ts =~= flat.deep_view() + Seq::<Seq<char>>::empty());
                assert(ts =~= flat.deep_view());
            },
            _ => {},
        }
    }
    Ok(flat)
}

/// The spec-level shadow of [`ParseErrorKind`], over character sequences.
pub enum KindV {
    Malformed,
    Unbound(Seq<char>),
    Fn(EvalError),
    TargetCount,
    StrayStep,
    BadTemplate,
    EmptyRecipe,
}

/// What an exec error kind states.
pub open spec fn kind_view(k: ParseErrorKind) -> KindV {
    match k {
        ParseErrorKind::Malformed => KindV::Malformed,
        ParseErrorKind::Unbound(n) => KindV::Unbound(n@),
        ParseErrorKind::Fn(e) => KindV::Fn(e),
        ParseErrorKind::TargetCount => KindV::TargetCount,
        ParseErrorKind::StrayStep => KindV::StrayStep,
        ParseErrorKind::BadTemplate => KindV::BadTemplate,
        ParseErrorKind::EmptyRecipe => KindV::EmptyRecipe,
    }
}

/// The error a failed expansion raises.
pub open spec fn expansion_err(x: Expansion) -> KindV {
    match x {
        Expansion::Unbound(n) => KindV::Unbound(n),
        Expansion::Fn(e) => KindV::Fn(e),
        _ => KindV::Malformed,
    }
}

/// The whole state a parse run carries: the variable environment, the
/// accumulated tasks and recipes, and the recipe whose step lines are
/// still being read.
#[verifier::ext_equal]
pub struct PStateV {
    pub env: Map<Seq<char>, Seq<Seq<char>>>,
    pub tasks: Seq<(Seq<char>, Seq<Seq<char>>)>,
    pub recipes: Seq<(Seq<char>, Seq<RecipeV>)>,
    pub open: Option<(Seq<char>, RecipeV)>,
}

/// The view of the still-open recipe.
pub open spec fn open_view(o: Option<(String, Recipe)>) -> Option<(Seq<char>, RecipeV)> {
    match o {
        None => None,
        Some((k, r)) => Some((k@, r@)),
    }
}

/// Assembles a parse state from its parts.
pub open spec fn st_of(
    env: Map<Seq<char>, Seq<Seq<char>>>,
    tf: TaskFileV,
    open: Option<(Seq<char>, RecipeV)>,
) -> PStateV {
    PStateV { env: env, tasks: tf.tasks, recipes: tf.recipes, open: open }
}

/// Closes the open recipe, if any: it must have gathered at least one
/// step line, and goes under its output extension.
pub open spec fn spec_flush(st: PStateV) -> Result<PStateV, KindV> {
    match st.open {
        None => Ok(st),
        Some((key, r)) => if r.steps.len() == 0 {
            Err(KindV::EmptyRecipe)
        } else {
            Ok(PStateV { recipes: spec_recipes_append(st.recipes, key, r), open: None, ..st })
        },
    }
}

/// Reads `[< template]*`: each template keyed by what follows its first
/// `.`, wildcard templates (`*`) apart from pattern templates (`%`).
pub open spec fn spec_templates(rest: Seq<Seq<char>>) -> Option<(Seq<Seq<char>>, Seq<Seq<char>>)>
    decreases rest.len(),
{
    if rest.len() == 0 {
        Some((Seq::empty(), Seq::empty()))
    } else if rest.len() == 1 {
        None
    } else if rest[0] != "<"@ {
        None
    } else {
        let ext = spec_remove_prefix(rest[1]);
        match spec_templates(rest.skip(2)) {
            None => None,
            Some((tmpl, any)) => if find_char(rest[1], '*') is Some {
                Some((tmpl, seq![ext] + any))
            } else if find_char(rest[1], '%') is Some {
                Some((seq![ext] + tmpl, any))
            } else {
                None
            },
        }
    }
}

/// What one line does to the parse state. An indented line is a step of
/// the open recipe; any other line closes it first and is blank, a
/// variable declaration, a task, or a recipe header.
pub open spec fn spec_process_line(line: Seq<char>, st: PStateV, sys: &SysEnv) -> Result<
    PStateV,
    KindV,
> {
    let words = spec_split(line);
    if line.len() > 0 && is_space(line[0]) && words.len() > 0 {
        match st.open {
            None => Err(KindV::StrayStep),
            Some((key, r)) => match spec_eval_words(words, st.env, sys) {
                Expansion::Tokens(ts) => Ok(
                    PStateV {
                        open: Some(
                            (
                                key,
                                RecipeV {
                                    templ_in: r.templ_in,
                                    any_in: r.any_in,
                                    steps: r.steps.push(ts),
                                },
                            ),
                        ),
                        ..st
                    },
                ),
                e => Err(expansion_err(e)),
            },
        }
    } else {
        match spec_flush(st) {
            Err(k) => Err(k),
            Ok(st1) => {
                if words.len() == 0 {
                    Ok(st1)
                } else if words.len() >= 2 && words[1] == "="@ {
                    match spec_eval_words(words.skip(2), st1.env, sys) {
                        Expansion::Tokens(ts) => Ok(
                            PStateV { env: st1.env.insert(words[0], ts), ..st1 },
                        ),
                        e => Err(expansion_err(e)),
                    }
                } else if spec_find_sep(line) is Some {
                    let k = spec_find_sep(line)->Some_0;
                    let target_words = spec_split(line.take(k));
                    let input_words = spec_split(line.skip(k + 1));
                    if target_words.len() != 1 {
                        Err(KindV::Malformed)
                    } else {
                        match spec_eval_word(target_words[0], st1.env, sys) {
                            Expansion::Tokens(ts) => if ts.len() != 1 {
                                Err(KindV::TargetCount)
                            } else {
                                match spec_eval_words(input_words, st1.env, sys) {
                                    Expansion::Tokens(ins) => Ok(
                                        PStateV {
                                            tasks: spec_tasks_append(st1.tasks, ts[0], ins),
                                            ..st1
                                        },
                                    ),
                                    e => Err(expansion_err(e)),
                                }
                            },
                            e => Err(expansion_err(e)),
                        }
                    }
                } else if words[0].len() > 0 && (words[0][0] == '%' || words[0][0] == '*') {
                    match spec_templates(words.drop_first()) {
                        None => Err(KindV::BadTemplate),
                        Some((tmpl, any)) => Ok(
                            PStateV {
                                open: Some(
                                    (
                                        spec_remove_prefix(words[0]),
                                        RecipeV {
                                            templ_in: spec_dedup(tmpl),
                                            any_in: spec_dedup(any),
                                            steps: Seq::empty(),
                                        },
                                    ),
                                ),
                                ..st1
                            },
                        ),
                    }
                } else {
                    Err(KindV::Malformed)
                }
            },
        }
    }
}

/// A parse failure: the line it arose on and what went wrong.
pub struct PErrV {
    pub line: int,
    pub kind: KindV,
}

/// Folds the lines over the state, numbering from `lineno`; the end of
/// input closes any open recipe.
pub open spec fn spec_parse_from(
    lines: Seq<Seq<char>>,
    st: PStateV,
    sys: &SysEnv,
    lineno: int,
) -> Result<PStateV, PErrV>
    decreases lines.len(),
{
    if lines.len() == 0 {
        match spec_flush(st) {
            Ok(st1) => Ok(st1),
            Err(k) => Err(PErrV { line: lineno, kind: k }),
        }
    } else {
        match spec_process_line(lines[0], st, sys) {
            Ok(st2) => spec_parse_from(lines.drop_first(), st2, sys, lineno + 1),
            Err(k) => Err(PErrV { line: lineno, kind: k }),
        }
    }
}

/// What parsing the whole input does to an environment and task file that
/// already hold earlier declarations.
pub open spec fn spec_parse(
    input: Seq<char>,
    env: Map<Seq<char>, Seq<Seq<char>>>,
    tf: TaskFileV,
    sys: &SysEnv,
) -> Result<PStateV, PErrV> {
    spec_parse_from(spec_lines(input), st_of(env, tf, None), sys, 1)
}

/// Removes consecutive duplicate strings.
pub fn dedup_strings(v: &Vec<String>) -> (r: Vec<String>)
    ensures
        r.deep_view() == spec_dedup(v.deep_view()),
{
    let mut acc: Vec<String> = Vec::new();
    let mut i: usize = 0;
    proof {
        assert(acc.deep_view() =~= Seq::<Seq<char>>::empty());
    }
    while i < v.len()
        invariant
            i <= v@.len(),
            dedup_rec(v.deep_view(), i as int, acc.deep_view()) == spec_dedup(v.deep_view()),
        decreases v@.len() - i,
    {
        let ghost pre_acc = acc.deep_view();
        let dup = acc.len() > 0 && acc[acc.len() - 1].eq(&v[i]);
        proof {
            assert(v.deep_view()[i as int] == v@[i as int]@);
            if acc.len() > 0 {
                assert(pre_acc.last() == acc@[acc@.len() - 1]@);
            }
            assert(dup == (pre_acc.len() > 0 && pre_acc.last() == v.deep_view()[i as int]));
        }
        if !dup {
            acc.push(v[i].clone());
            proof {
                assert(acc.deep_view() =~= pre_acc.push(v.deep_view()[i as int]));
            }
        }
        i += 1;
    }
    acc
}

/// How `tasks_view` reads one entry.
pub proof fn lemma_tasks_view_index(ts: Seq<(String, Task)>, i: int)
    requires
        0 <= i < ts.len(),
    ensures
        tasks_view(ts).len() == ts.len(),
        tasks_view(ts)[i] == (ts[i].0.deep_view(), ts[i].1.inputs.deep_view()),
{
    assert(tasks_view(ts)[i] == (ts[i].0.deep_view(), ts[i].1.inputs.deep_view()));
}

/// How `recipes_view` reads one entry.
pub proof fn lemma_recipes_view_index(rs: Seq<(String, Vec<Recipe>)>, i: int)
    requires
        0 <= i < rs.len(),
    ensures
        recipes_view(rs).len() == rs.len(),
        recipes_view(rs)[i] == (rs[i].0.deep_view(), rs[i].1.deep_view()),
{
    assert(recipes_view(rs)[i] == (rs[i].0.deep_view(), rs[i].1.deep_view()));
}

/// A first pair keyed `key` at `i` pins `assoc_find` down to `Some(i)`.
pub proof fn lemma_assoc_find_at<V>(s: Seq<(Seq<char>, V)>, key: Seq<char>, i: int)
    requires
        0 <= i < s.len(),
        s[i].0 == key,
        forall|j: int| 0 <= j < i ==> s[j].0 != key,
    ensures
        assoc_find(s, key) == Some(i),
    decreases s.len(),
{
    if i == 0 {
    } else {
        assert(s[0].0 != key);
        assert(forall|j: int| 0 <= j < s.drop_first().len() ==> s.drop_first()[j] == s[j + 1]);
        lemma_assoc_find_at(s.drop_first(), key, i - 1);
    }
}

/// A parse failure as reported: the file, the 1-based line, and the kind.
#[derive(Debug, PartialEq, Eq)]
pub struct ParseError {
    pub file: String,
    pub line: usize,
    pub kind: ParseErrorKind,
}

/// Appends `inputs` to the task named `name`, creating it if new.
fn tasks_append(tf: &mut TaskFile, name: String, inputs: Vec<String>)
    ensures
        final(tf)@.tasks == spec_tasks_append(old(tf)@.tasks, name@, inputs.deep_view()),
        final(tf)@.recipes == old(tf)@.recipes,
{
    let ghost tv = tf@.tasks;
    let ghost name_v = name@;
    let ghost inputs_dv = inputs.deep_view();
    let n = tf.tasks.len();
    let mut i: usize = 0;
    while i < n
        invariant
            i <= n,
            n == tf.tasks@.len(),
            tf@.tasks == tv,
            tf.tasks@ == old(tf).tasks@,
            tf.recipes@ == old(tf).recipes@,
            name_v == name@,
            inputs_dv == inputs.deep_view(),
            forall|j: int| 0 <= j < i ==> tv[j].0 != name_v,
        decreases n - i,
    {
        proof {
            lemma_tasks_view_index(tf.tasks@, i as int);
        }
        if str_eq(tf.tasks[i].0.as_str(), name.as_str()) {
            proof {
                lemma_assoc_find_at(tv, name_v, i as int);
            }
            let ghost pre = tf.tasks@;
            let mut pair = tf.tasks.remove(i);
            let mut ins = inputs;
            pair.1.inputs.append(&mut ins);
            let ghost new_inputs_dv = pair.1.inputs.deep_view();
            let pair2 = (name, pair.1);
            let ghost pair2_v = pair2;
            tf.tasks.insert(i, pair2);
            proof {
                assert(tf.tasks@ =~= pre.update(i as int, pair2_v));
                assert(new_inputs_dv =~= tv[i as int].1 + inputs_dv);
                let target = spec_tasks_append(tv, name_v, inputs_dv);
                assert(target == tv.update(i as int, (name_v, tv[i as int].1 + inputs_dv)));
                assert forall|j: int| 0 <= j < tf.tasks@.len() implies tasks_view(tf.tasks@)[j]
                    == target[j] by {
                    lemma_tasks_view_index(tf.tasks@, j);
                    if j != i {
                        lemma_tasks_view_index(pre, j);
                    }
                }
                lemma_tasks_view_index(tf.tasks@, 0);
                assert(tasks_view(tf.tasks@) =~= target);
            }
            return;
        }
        i += 1;
    }
    proof {
        lemma_assoc_find(tv, name_v);
    }
    let ghost pre = tf.tasks@;
    tf.tasks.push((name, Task { inputs }));
    proof {
        let target = spec_tasks_append(tv, name_v, inputs_dv);
        assert(target == tv.push((name_v, inputs_dv)));
        assert forall|j: int| 0 <= j < tf.tasks@.len() implies tasks_view(tf.tasks@)[j]
            == target[j] by {
            lemma_tasks_view_index(tf.tasks@, j);
            if j < pre.len() {
                lemma_tasks_view_index(pre, j);
            }
        }
        lemma_tasks_view_index(tf.tasks@, tf.tasks@.len() - 1);
        assert(tasks_view(tf.tasks@) =~= target);
    }
}

/// Adds one more recipe under `key`, creating the bucket if new.
fn recipes_append(tf: &mut TaskFile, key: String, r: Recipe)
    ensures
        final(tf)@.recipes == spec_recipes_append(old(tf)@.recipes, key@, r@),
        final(tf)@.tasks == old(tf)@.tasks,
{
    let ghost rv = tf@.recipes;
    let ghost r_v = r@;
    let ghost key_v = key@;
    let n = tf.recipes.len();
    let mut i: usize = 0;
    while i < n
        invariant
            i <= n,
            n == tf.recipes@.len(),
            tf@.recipes == rv,
            tf.tasks@ == old(tf).tasks@,
            tf.recipes@ == old(tf).recipes@,
            key_v == key@,
            r_v == r@,
            forall|j: int| 0 <= j < i ==> rv[j].0 != key_v,
        decreases n - i,
    {
        proof {
            lemma_recipes_view_index(tf.recipes@, i as int);
        }
        if str_eq(tf.recipes[i].0.as_str(), key.as_str()) {
            proof {
                lemma_assoc_find_at(rv, key_v, i as int);
            }
            let ghost pre = tf.recipes@;
            let mut pair = tf.recipes.remove(i);
            pair.1.push(r);
            let ghost new_bucket_dv = pair.1.deep_view();
            let pair2 = (key, pair.1);
            let ghost pair2_v = pair2;
            tf.recipes.insert(i, pair2);
            proof {
                assert(tf.recipes@ =~= pre.update(i as int, pair2_v));
                assert(new_bucket_dv =~= rv[i as int].1.push(r_v));
                let target = spec_recipes_append(rv, key_v, r_v);
                assert(target == rv.update(i as int, (key_v, rv[i as int].1.push(r_v))));
                assert forall|j: int| 0 <= j < tf.recipes@.len() implies recipes_view(
                    tf.recipes@,
                )[j] == target[j] by {
                    lemma_recipes_view_index(tf.recipes@, j);
                    if j != i {
                        lemma_recipes_view_index(pre, j);
                    }
                }
                lemma_recipes_view_index(tf.recipes@, 0);
                assert(recipes_view(tf.recipes@) =~= target);
            }
            return;
        }
        i += 1;
    }
    proof {
        lemma_assoc_find(rv, key_v);
    }
    let ghost pre = tf.recipes@;
    let mut bucket: Vec<Recipe> = Vec::new();
    bucket.push(r);
    let ghost bucket_dv = bucket.deep_view();
    tf.recipes.push((key, bucket));
    proof {
        assert(bucket_dv =~= seq![r_v]);
        let target = spec_recipes_append(rv, key_v, r_v);
        assert(target == rv.push((key_v, seq![r_v])));
        assert forall|j: int| 0 <= j < tf.recipes@.len() implies recipes_view(tf.recipes@)[j]
            == target[j] by {
            lemma_recipes_view_index(tf.recipes@, j);
            if j < pre.len() {
                lemma_recipes_view_index(pre, j);
            }
        }
        lemma_recipes_view_index(tf.recipes@, tf.recipes@.len() - 1);
        assert(recipes_view(tf.recipes@) =~= target);
    }
}

/// The strings of `v` from index `from` on.
fn tail_strings(v: &Vec<String>, from: usize) -> (r: Vec<String>)
    requires
        from <= v@.len(),
    ensures
        r.deep_view() == v.deep_view().skip(from as int),
{
    let mut r: Vec<String> = Vec::new();
    let mut i: usize = from;
    while i < v.len()
        invariant
            from <= i <= v@.len(),
            r.deep_view() =~= v.deep_view().subrange(from as int, i as int),
        decreases v@.len() - i,
    {
        let ghost pre = r.deep_view();
        r.push(v[i].clone());
        proof {
            assert(r.deep_view() =~= pre.push(v.deep_view()[i as int]));
            assert(r.deep_view() =~= v.deep_view().subrange(from as int, i + 1));
        }
        i += 1;
    }
    proof {
        assert(v.deep_view().subrange(from as int, v.deep_view().len() as int) =~= v.deep_view()
            .skip(from as int));
    }
    r
}

/// Closes the open recipe into the task file, as `spec_flush` says.
fn flush_open(tf: &mut TaskFile, open: Option<(String, Recipe)>) -> (r: Result<
    (),
    ParseErrorKind,
>)
    ensures
        final(tf)@.tasks == old(tf)@.tasks,
        match r {
            Ok(_) => match open_view(open) {
                None => final(tf)@.recipes == old(tf)@.recipes,
                Some((k, rec)) => rec.steps.len() > 0 && final(tf)@.recipes
                    == spec_recipes_append(old(tf)@.recipes, k, rec),
            },
            Err(e) => e is EmptyRecipe && (open_view(open) matches Some((k, rec)) && rec.steps.len()
                == 0),
        },
{
    match open {
        None => Ok(()),
        Some((key, rec)) => {
            if rec.steps.len() == 0 {
                Err(ParseErrorKind::EmptyRecipe)
            } else {
                recipes_append(tf, key, rec);
                Ok(())
            }
        },
    }
}

/// Reads one line into the parse state, as `spec_process_line` says: the
/// result pairs the outcome with the recipe left open for further steps.
fn handle_line(
    line: &str,
    env: &mut VarEnv,
    tf: &mut TaskFile,
    open: Option<(String, Recipe)>,
    sys: &SysEnv,
) -> (r: (Result<(), ParseErrorKind>, Option<(String, Recipe)>))
    ensures
        ({
            let st0 = st_of(old(env)@, old(tf)@, open_view(open));
            match r.0 {
                Ok(_) => spec_process_line(line@, st0, sys) == Ok::<PStateV, KindV>(
                    st_of(final(env)@, final(tf)@, open_view(r.1)),
                ),
                Err(k) => spec_process_line(line@, st0, sys) == Err::<PStateV, KindV>(
                    kind_view(k),
                ),
            }
        }),
{
    let ghost st0 = st_of(env@, tf@, open_view(open));
    let n: usize = line.unicode_len();
    let words = split_words(line);
    let ghost words_v = spec_split(line@);
    proof {
        lemma_split_len(line@);
    }
    let mut is_step = false;
    if n > 0 && words.len() > 0 {
        let c = line.get_char(0);
        if c == ' ' || c == '\t' || c == '\r' {
            is_step = true;
        }
    }
    if is_step {
        match open {
            None => (Err(ParseErrorKind::StrayStep), None),
            Some((key, mut rec)) => {
                match eval_words(&words, env, sys) {
                    Ok(ts) => {
                        let ghost rec_v = rec@;
                        let ghost ts_dv = ts.deep_view();
                        rec.steps.push(ts);
                        proof {
                            assert(rec@.steps =~= rec_v.steps.push(ts_dv));
                            assert(rec@ =~= RecipeV {
                                templ_in: rec_v.templ_in,
                                any_in: rec_v.any_in,
                                steps: rec_v.steps.push(ts_dv),
                            });
                        }
                        let out = Some((key, rec));
                        proof {
                            assert(spec_process_line(line@, st0, sys) == Ok::<PStateV, KindV>(
                                st_of(env@, tf@, open_view(out)),
                            ));
                        }
                        (Ok(()), out)
                    },
                    Err(e) => (Err(e), None),
                }
            },
        }
    } else {
        let ghost st1 = match spec_flush(st0) {
            Ok(s) => s,
            Err(_) => st0,
        };
        match flush_open(tf, open) {
            Err(e) => {
                return (Err(e), None);
            },
            Ok(_) => {},
        }
        proof {
            assert(spec_flush(st0) == Ok::<PStateV, KindV>(st_of(env@, tf@, None)));
        }
        if words.len() == 0 {
            return (Ok(()), None);
        }
        if words.len() >= 2 && str_eq(words[1].as_str(), "=") {
            proof {
                assert(words.deep_view()[1] == words_v[1]);
            }
            let tail = tail_strings(&words, 2);
            match eval_words(&tail, env, sys) {
                Ok(ts) => {
                    let ghost ts_dv = ts.deep_view();
                    env.insert(words[0].clone(), ts);
                    proof {
                        assert(words.deep_view()[0] == words_v[0]);
                        assert(spec_process_line(line@, st0, sys) == Ok::<PStateV, KindV>(
                            st_of(env@, tf@, None),
                        ));
                    }
                    (Ok(()), None)
                },
                Err(e) => (Err(e), None),
            }
        } else {
            let sep = find_sep(line);
            match sep {
                Some(k) => {
                    let target_part = line.substring_char(0, k);
                    let input_part = line.substring_char(k + 1, n);
                    proof {
                        assert(target_part@ =~= line@.take(k as int));
                        assert(input_part@ =~= line@.skip(k + 1));
                    }
                    let tws = split_words(target_part);
                    if tws.len() != 1 {
                        return (Err(ParseErrorKind::Malformed), None);
                    }
                    proof {
                        assert(tws.deep_view()[0] == spec_split(line@.take(k as int))[0]);
                    }
                    match eval_word(tws[0].as_str(), env, sys) {
                        Ok(ts) => {
                            if ts.len() != 1 {
                                return (Err(ParseErrorKind::TargetCount), None);
                            }
                            let iws = split_words(input_part);
                            match eval_words(&iws, env, sys) {
                                Ok(ins) => {
                                    let ghost ts_dv = ts.deep_view();
                                    let ghost ins_dv = ins.deep_view();
                                    let tname = ts[0].clone();
                                    proof {
                                        assert(tname@ == ts_dv[0]);
                                    }
                                    tasks_append(tf, tname, ins);
                                    proof {
                                        assert(spec_process_line(line@, st0, sys) == Ok::<
                                            PStateV,
                                            KindV,
                                        >(st_of(env@, tf@, None)));
                                    }
                                    (Ok(()), None)
                                },
                                Err(e) => (Err(e), None),
                            }
                        },
                        Err(e) => (Err(e), None),
                    }
                },
                None => {
                    proof {
                        assert(words.deep_view()[0] == words_v[0]);
                        assert(words_v[0].len() >= 1);
                    }
                    let c0 = words[0].as_str().get_char(0);
                    if !(c0 == '%' || c0 == '*') {
                        return (Err(ParseErrorKind::Malformed), None);
                    }
                    let ghost args_v = words_v.drop_first();
                    let ghost env1 = env@;
                    let ghost tf1 = tf@;
                    let mut tmpl: Vec<String> = Vec::new();
                    let mut any: Vec<String> = Vec::new();
                    let mut j: usize = 1;
                    proof {
                        assert(tmpl.deep_view() =~= Seq::<Seq<char>>::empty());
                        assert(any.deep_view() =~= Seq::<Seq<char>>::empty());
                        assert(args_v.skip(0) =~= args_v);
                    }
                    while j < words.len()
                        invariant
                            1 <= j <= words@.len(),
                            words.deep_view() == words_v,
                            words_v == spec_split(line@),
                            args_v == words_v.drop_first(),
                            st0 == st_of(old(env)@, old(tf)@, open_view(open)),
                            env@ == env1,
                            tf@ == tf1,
                            spec_flush(st0) == Ok::<PStateV, KindV>(st_of(env1, tf1, None)),
                            !(line@.len() > 0 && is_space(line@[0]) && words_v.len() > 0),
                            words_v.len() >= 1,
                            !(words_v.len() >= 2 && words_v[1] == "="@),
                            spec_find_sep(line@) is None,
                            words_v[0].len() > 0 && (words_v[0][0] == '%' || words_v[0][0] == '*'),
                            match spec_templates(args_v.skip(j - 1)) {
                                None => spec_templates(args_v) is None,
                                Some((tr, ar)) => spec_templates(args_v) == Some(
                                    (tmpl.deep_view() + tr, any.deep_view() + ar),
                                ),
                            },
                        decreases words@.len() - j,
                    {
                        proof {
                            assert(args_v.skip(j - 1)[0] == words_v[j as int]);
                            assert(words@[j as int]@ == words_v[j as int]);
                        }
                        if !str_eq(words[j].as_str(), "<") {
                            return (Err(ParseErrorKind::BadTemplate), None);
                        }
                        if j + 1 >= words.len() {
                            proof {
                                assert(args_v.skip(j - 1).len() == 1);
                            }
                            return (Err(ParseErrorKind::BadTemplate), None);
                        }
                        proof {
                            assert(args_v.skip(j - 1)[1] == words_v[j + 1]);
                            assert(words@[j + 1]@ == words_v[j + 1]);
                            assert(args_v.skip(j - 1).skip(2) =~= args_v.skip(j + 1));
                        }
                        let t = &words[j + 1];
                        let ext = String::from_str(remove_prefix(t.as_str()));
                        let star = find_char_in(t.as_str(), '*');
                        let ghost pre_tmpl = tmpl.deep_view();
                        let ghost pre_any = any.deep_view();
                        match star {
                            Some(_) => {
                                any.push(ext);
                                proof {
                                    assert(any.deep_view() =~= pre_any.push(
                                        spec_remove_prefix(words_v[j + 1]),
                                    ));
                                }
                            },
                            None => {
                                match find_char_in(t.as_str(), '%') {
                                    Some(_) => {
                                        tmpl.push(ext);
                                        proof {
                                            assert(tmpl.deep_view() =~= pre_tmpl.push(
                                                spec_remove_prefix(words_v[j + 1]),
                                            ));
                                        }
                                    },
                                    None => {
                                        return (Err(ParseErrorKind::BadTemplate), None);
                                    },
                                }
                            },
                        }
                        proof {
                            match spec_templates(args_v.skip(j + 1)) {
                                None => {},
                                Some((tr2, ar2)) => {
                                    assert(pre_tmpl + (seq![
                                        spec_remove_prefix(words_v[j + 1]),
                                    ] + tr2) =~= tmpl.deep_view() + tr2 || pre_tmpl + tr2
                                        =~= tmpl.deep_view() + tr2);
                                    assert(pre_any + (seq![spec_remove_prefix(words_v[j + 1])]
                                        + ar2) =~= any.deep_view() + ar2 || pre_any + ar2
                                        =~= any.deep_view() + ar2);
                                },
                            }
                        }
                        j += 2;
                    }
                    proof {
                        assert(args_v.skip(args_v.len() as int) =~= Seq::<Seq<char>>::empty());
                        match spec_templates(args_v) {
                            None => {
                                assert(false);
                            },
                            Some((tr, ar)) => {
                                assert(tr =~= tmpl.deep_view());
                                assert(ar =~= any.deep_view());
                            },
                        }
                    }
                    let tmpl_d = dedup_strings(&tmpl);
                    let any_d = dedup_strings(&any);
                    let rec = Recipe { templ_in: tmpl_d, any_in: any_d, steps: Vec::new() };
                    let key = String::from_str(remove_prefix(words[0].as_str()));
                    let ghost rec_v = rec@;
                    let out = Some((key, rec));
                    proof {
                        assert(rec_v.steps =~= Seq::<Seq<Seq<char>>>::empty());
                        assert(spec_process_line(line@, st0, sys) == Ok::<PStateV, KindV>(
                            st_of(env@, tf@, open_view(out)),
                        ));
                    }
                    (Ok(()), out)
                },
            }
        }
    }
}

/// Parsing cuts an input into at most one more line than it has characters.
proof fn lemma_lines_rec_count(s: Seq<char>, i: int, cur: Seq<char>, acc: Seq<Seq<char>>)
    requires
        0 <= i <= s.len(),
    ensures
        lines_rec(s, i, cur, acc).len() <= acc.len() + (s.len() - i) + 1,
    decreases s.len() - i,
{
    if i < s.len() {
        if s[i] == '\n' {
            lemma_lines_rec_count(s, i + 1, Seq::empty(), acc.push(cur));
        } else {
            lemma_lines_rec_count(s, i + 1, cur.push(s[i]), acc);
        }
    }
}

/// Reads `input` into the variable environment and the task file: every
/// line a statement, steps gathered under their recipe header, the end of
/// input closing the last recipe. On failure the error carries `filename`
/// and the 1-based line, and says exactly what went wrong where; the
/// environment and task file may then hold the statements read so far.
pub fn parse(
    input: &str,
    context: &mut VarEnv,
    base: &mut TaskFile,
    filename: &str,
    sys: &SysEnv,
) -> (r: Result<(), ParseError>)
    requires
        input@.len() + 2 <= usize::MAX,
    ensures
        ({
            let spec_r = spec_parse(input@, old(context)@, old(base)@, sys);
            match r {
                Ok(_) => spec_r == Ok::<PStateV, PErrV>(st_of(final(context)@, final(base)@, None)),
                Err(e) => e.file@ == filename@ && (spec_r matches Err(pe) && pe.line == e.line
                    && pe.kind == kind_view(e.kind)),
            }
        }),
{
    let ghost st0 = st_of(context@, base@, None);
    let lines = lines_of(input);
    let ghost lines_v = spec_lines(input@);
    proof {
        lemma_lines_rec_count(input@, 0, Seq::empty(), Seq::empty());
        assert(lines_v.skip(0) =~= lines_v);
    }
    let mut open: Option<(String, Recipe)> = None;
    let mut k: usize = 0;
    while k < lines.len()
        invariant
            k <= lines@.len(),
            lines.deep_view() == lines_v,
            lines_v == spec_lines(input@),
            lines_v.len() <= input@.len() + 1,
            input@.len() + 2 <= usize::MAX,
            st0 == st_of(old(context)@, old(base)@, None),
            spec_parse_from(lines_v.skip(k as int), st_of(context@, base@, open_view(open)), sys, k + 1)
                == spec_parse_from(lines_v, st0, sys, 1),
        decreases lines@.len() - k,
    {
        proof {
            assert(lines_v.skip(k as int)[0] == lines_v[k as int]);
            assert(lines_v.skip(k as int).drop_first() =~= lines_v.skip(k + 1));
            assert(lines@[k as int]@ == lines_v[k as int]);
        }
        let (res, open2) = handle_line(lines[k].as_str(), context, base, open, sys);
        open = open2;
        match res {
            Ok(_) => {},
            Err(kind) => {
                return Err(ParseError { file: String::from_str(filename), line: k + 1, kind });
            },
        }
        k += 1;
    }
    proof {
        assert(lines_v.skip(lines_v.len() as int) =~= Seq::<Seq<char>>::empty());
    }
    let nl = lines.len();
    match flush_open(base, open) {
        Ok(_) => {
            proof {
                assert(spec_parse_from(lines_v, st0, sys, 1) == Ok::<PStateV, PErrV>(
                    st_of(context@, base@, None),
                ));
            }
            Ok(())
        },
        Err(kind) => Err(ParseError { file: String::from_str(filename), line: nl + 1, kind }),
    }
}

/// A word of the language is well-formed when every `$( ... )` in it
/// holds at least one word, and its argument words are well-formed in
/// turn. A literal word always is.
pub open spec fn wf_word(w: Seq<char>) -> bool
    decreases w.len(), 1int, 0int,
{
    if is_expr_word(w) {
        let words = spec_split(w.subrange(2, w.len() - 1));
        words.len() >= 1 && wf_args(w.len() as int, words.drop_first())
    } else {
        true
    }
}

/// Well-formedness of a list of argument words, each shorter than the
/// expression they came from; the length guard mirrors `spec_eval_args`.
pub open spec fn wf_args(outer: int, words: Seq<Seq<char>>) -> bool
    decreases outer, 0int, words.len(),
{
    if words.len() == 0 {
        true
    } else if words[0].len() >= outer {
        false
    } else {
        wf_word(words[0]) && wf_args(outer, words.drop_first())
    }
}

/// Well-formedness of the words of one line segment.
pub open spec fn wf_words(words: Seq<Seq<char>>) -> bool {
    wf_args(max_word_len(words) + 1, words)
}

/// Whether `w` parses as an expression or literal of the language.
pub fn check_expr(w: &str) -> (r: bool)
    ensures
        r == wf_word(w@),
    decreases w@.len(),
{
    let n: usize = w.unicode_len();
    let is_expr = n >= 3 && w.get_char(0) == '$' && w.get_char(1) == '(' && w.get_char(n - 1)
        == ')';
    if !is_expr {
        return true;
    }
    let inner = w.substring_char(2, n - 1);
    let words = split_words(inner);
    let ghost words_v = spec_split(w@.subrange(2, w@.len() - 1));
    proof {
        assert(words.deep_view() == words_v);
        lemma_split_len(inner@);
    }
    if words.len() == 0 {
        return false;
    }
    let ghost args_v = words_v.drop_first();
    let ghost outer = w@.len() as int;
    let mut j: usize = 1;
    proof {
        assert(args_v.skip(0) =~= args_v);
    }
    while j < words.len()
        invariant
            1 <= j <= words@.len(),
            words.deep_view() == words_v,
            words_v == spec_split(w@.subrange(2, w@.len() - 1)),
            args_v == words_v.drop_first(),
            outer == w@.len(),
            is_expr_word(w@),
            words_v.len() >= 1,
            forall|k: int| 0 <= k < words_v.len() ==> 1 <= #[trigger] words_v[k].len() <= w@.len()
                - 3,
            wf_args(outer, args_v) == wf_args(outer, args_v.skip(j - 1)),
        decreases words@.len() - j,
    {
        proof {
            assert(args_v.skip(j - 1)[0] == args_v[j - 1]);
            assert(args_v[j - 1] == words_v[j as int]);
            assert(args_v.skip(j - 1).drop_first() =~= args_v.skip(j as int));
            assert(words@[j as int]@ == words_v[j as int]);
        }
        if !check_expr(words[j].as_str()) {
            return false;
        }
        j += 1;
    }
    proof {
        assert(args_v.skip(args_v.len() as int) =~= Seq::<Seq<char>>::empty());
    }
    true
}

/// Whether every word of a segment is well-formed.
fn check_words(words: &Vec<String>) -> (r: bool)
    ensures
        r == wf_words(words.deep_view()),
{
    let ghost words_v = words.deep_view();
    let ghost outer = max_word_len(words_v) + 1;
    let mut j: usize = 0;
    proof {
        lemma_max_word_len(words_v);
        assert(words_v.skip(0) =~= words_v);
    }
    while j < words.len()
        invariant
            j <= words@.len(),
            words.deep_view() == words_v,
            outer == max_word_len(words_v) + 1,
            forall|k: int| 0 <= k < words_v.len() ==> #[trigger] words_v[k].len() < outer,
            wf_args(outer, words_v) == wf_args(outer, words_v.skip(j as int)),
        decreases words@.len() - j,
    {
        proof {
            assert(words_v.skip(j as int)[0] == words_v[j as int]);
            assert(words_v.skip(j as int).drop_first() =~= words_v.skip(j + 1));
            assert(words@[j as int]@ == words_v[j as int]);
        }
        if !check_expr(words[j].as_str()) {
            return false;
        }
        j += 1;
    }
    proof {
        assert(words_v.skip(words_v.len() as int) =~= Seq::<Seq<char>>::empty());
    }
    true
}

/// Whether `w` reads as a recipe template: a pattern or wildcard.
pub fn check_template(w: &str) -> (r: bool)
    ensures
        r == (w@.len() > 0 && (w@[0] == '%' || w@[0] == '*')),
{
    if w.unicode_len() == 0 {
        return false;
    }
    let c = w.get_char(0);
    c == '%' || c == '*'
}

/// What can stand open while lines are read: no recipe, a header whose
/// steps are still to come, or a recipe that has gathered steps.
#[derive(PartialEq, Eq, Structural, Clone, Copy, Debug)]
pub enum OpenState {
    NoRecipe,
    Fresh,
    HasSteps,
}

/// How one line moves the syntax state, or that it is no statement.
pub open spec fn process_line_wf(line: Seq<char>, st: OpenState) -> Option<OpenState> {
    let words = spec_split(line);
    if line.len() > 0 && is_space(line[0]) && words.len() > 0 {
        match st {
            OpenState::NoRecipe => None,
            _ => if wf_words(words) {
                Some(OpenState::HasSteps)
            } else {
                None
            },
        }
    } else {
        if st is Fresh {
            None
        } else if words.len() == 0 {
            Some(OpenState::NoRecipe)
        } else if words.len() >= 2 && words[1] == "="@ {
            if wf_words(words.skip(2)) {
                Some(OpenState::NoRecipe)
            } else {
                None
            }
        } else if spec_find_sep(line) is Some {
            let k = spec_find_sep(line)->Some_0;
            let tws = spec_split(line.take(k));
            let iws = spec_split(line.skip(k + 1));
            if tws.len() == 1 && wf_word(tws[0]) && wf_words(iws) {
                Some(OpenState::NoRecipe)
            } else {
                None
            }
        } else if words[0].len() > 0 && (words[0][0] == '%' || words[0][0] == '*') {
            if spec_templates(words.drop_first()) is Some {
                Some(OpenState::Fresh)
            } else {
                None
            }
        } else {
            None
        }
    }
}

/// Whether a line list reads as a well-formed file from state `st` on:
/// every line a statement, every recipe closed with at least one step.
pub open spec fn wf_lines(lines: Seq<Seq<char>>, st: OpenState) -> bool
    decreases lines.len(),
{
    if lines.len() == 0 {
        !(st is Fresh)
    } else {
        match process_line_wf(lines[0], st) {
            Some(st2) => wf_lines(lines.drop_first(), st2),
            None => false,
        }
    }
}

/// Whether the whole input reads as a well-formed task file.
pub open spec fn wf_file(input: Seq<char>) -> bool {
    wf_lines(spec_lines(input), OpenState::NoRecipe)
}

/// Whether a line's words check as `[< template]*`.
fn check_templates(words: &Vec<String>) -> (r: bool)
    requires
        words@.len() >= 1,
    ensures
        r == (spec_templates(words.deep_view().drop_first()) is Some),
{
    let ghost words_v = words.deep_view();
    let ghost args_v = words_v.drop_first();
    let mut j: usize = 1;
    proof {
        assert(args_v.skip(0) =~= args_v);
    }
    while j < words.len()
        invariant
            1 <= j <= words@.len(),
            words.deep_view() == words_v,
            words_v.len() >= 1,
            args_v == words_v.drop_first(),
            (spec_templates(args_v) is Some) == (spec_templates(args_v.skip(j - 1)) is Some),
        decreases words@.len() - j,
    {
        proof {
            assert(args_v.skip(j - 1)[0] == args_v[j - 1]);
            assert(args_v[j - 1] == words_v[j as int]);
            assert(words@[j as int]@ == words_v[j as int]);
        }
        if !str_eq(words[j].as_str(), "<") {
            return false;
        }
        if j + 1 >= words.len() {
            proof {
                assert(args_v.skip(j - 1).len() == 1);
            }
            return false;
        }
        proof {
            assert(args_v.skip(j - 1)[1] == words_v[j + 1]);
            assert(words@[j + 1]@ == words_v[j + 1]);
            assert(args_v.skip(j - 1).skip(2) =~= args_v.skip(j + 1));
        }
        let t = &words[j + 1];
        let star = find_char_in(t.as_str(), '*');
        match star {
            Some(_) => {},
            None => {
                match find_char_in(t.as_str(), '%') {
                    Some(_) => {},
                    None => {
                        return false;
                    },
                }
            },
        }
        j += 2;
    }
    proof {
        assert(args_v.skip(args_v.len() as int) =~= Seq::<Seq<char>>::empty());
    }
    true
}

/// Whether one line is a statement, moving the exec syntax state.
fn check_line(line: &str, st: OpenState) -> (r: Option<OpenState>)
    ensures
        r == process_line_wf(line@, st),
{
    let n: usize = line.unicode_len();
    let words = split_words(line);
    let ghost words_v = spec_split(line@);
    proof {
        lemma_split_len(line@);
    }
    let mut is_step = false;
    if n > 0 && words.len() > 0 {
        let c = line.get_char(0);
        if c == ' ' || c == '\t' || c == '\r' {
            is_step = true;
        }
    }
    if is_step {
        if matches!(st, OpenState::NoRecipe) {
            return None;
        }
        if check_words(&words) {
            return Some(OpenState::HasSteps);
        }
        return None;
    }
    if matches!(st, OpenState::Fresh) {
        return None;
    }
    if words.len() == 0 {
        return Some(OpenState::NoRecipe);
    }
    if words.len() >= 2 && str_eq(words[1].as_str(), "=") {
        proof {
            assert(words.deep_view()[1] == words_v[1]);
        }
        let tail = tail_strings(&words, 2);
        if check_words(&tail) {
            return Some(OpenState::NoRecipe);
        }
        return None;
    }
    match find_sep(line) {
        Some(k) => {
            let target_part = line.substring_char(0, k);
            let input_part = line.substring_char(k + 1, n);
            proof {
                assert(target_part@ =~= line@.take(k as int));
                assert(input_part@ =~= line@.skip(k + 1));
            }
            let tws = split_words(target_part);
            if tws.len() != 1 {
                return None;
            }
            proof {
                assert(tws.deep_view()[0] == spec_split(line@.take(k as int))[0]);
            }
            let iws = split_words(input_part);
            if check_expr(tws[0].as_str()) && check_words(&iws) {
                Some(OpenState::NoRecipe)
            } else {
                None
            }
        },
        None => {
            proof {
                assert(words.deep_view()[0] == words_v[0]);
                assert(words_v[0].len() >= 1);
            }
            let c0 = words[0].as_str().get_char(0);
            if !(c0 == '%' || c0 == '*') {
                return None;
            }
            if check_templates(&words) {
                Some(OpenState::Fresh)
            } else {
                None
            }
        },
    }
}

/// Whether the whole input parses as a task file, statement by statement,
/// without expanding any expression.
pub fn check_file(input: &str) -> (r: bool)
    ensures
        r == wf_file(input@),
{
    let lines = lines_of(input);
    let ghost lines_v = spec_lines(input@);
    let mut st = OpenState::NoRecipe;
    let mut k: usize = 0;
    proof {
        assert(lines_v.skip(0) =~= lines_v);
    }
    while k < lines.len()
        invariant
            k <= lines@.len(),
            lines.deep_view() == lines_v,
            lines_v == spec_lines(input@),
            wf_file(input@) == wf_lines(lines_v.skip(k as int), st),
        decreases lines@.len() - k,
    {
        proof {
            assert(lines_v.skip(k as int)[0] == lines_v[k as int]);
            assert(lines_v.skip(k as int).drop_first() =~= lines_v.skip(k + 1));
            assert(lines@[k as int]@ == lines_v[k as int]);
        }
        match check_line(lines[k].as_str(), st) {
            Some(st2) => {
                st = st2;
            },
            None => {
                return false;
            },
        }
        k += 1;
    }
    proof {
        assert(lines_v.skip(lines_v.len() as int) =~= Seq::<Seq<char>>::empty());
    }
    !matches!(st, OpenState::Fresh)
}

/// The round trip of a variable: once a declaration binds `name` to the
/// token list `toks`, the expression `$(name)` expands to exactly `toks`,
/// token by token. The requirement says only that `name` reads as a
/// single word of the language.
pub proof fn lemma_var_roundtrip(
    name: Seq<char>,
    toks: Seq<Seq<char>>,
    env: Map<Seq<char>, Seq<Seq<char>>>,
    sys: &SysEnv,
)
    requires
        spec_split(name) == seq![name],
    ensures
        spec_eval_word(seq!['$', '('] + name + seq![')'], env.insert(name, toks), sys)
            == Expansion::Tokens(toks),
{
    lemma_split_len(name);
    assert(seq![name][0] == name);
    assert(name.len() >= 1);
    let w = seq!['$', '('] + name + seq![')'];
    assert(w.len() == name.len() + 3);
    assert(w[0] == '$');
    assert(w[1] == '(');
    assert(w[w.len() - 1] == seq![')'][0]);
    assert(is_expr_word(w));
    assert(w.subrange(2, w.len() - 1) =~= name);
    let words = spec_split(w.subrange(2, w.len() - 1));
    assert(words == seq![name]);
    assert(words.len() == 1);
    assert(env.insert(name, toks).contains_key(words[0]));
    assert(env.insert(name, toks)[words[0]] == toks);
}

/// The input with every `\`-newline pair joined into a single space,
/// scanning left to right without overlap, as line continuations ask.
pub open spec fn spec_preprocess(s: Seq<char>) -> Seq<char>
    decreases s.len(),
{
    if s.len() == 0 {
        Seq::empty()
    } else if s.len() >= 2 && s[0] == '\\' && s[1] == '\n' {
        seq![' '] + spec_preprocess(s.skip(2))
    } else {
        seq![s[0]] + spec_preprocess(s.skip(1))
    }
}

/// Joins physical lines that end in `\` into one logical line: each
/// backslash-newline pair becomes a single space.
pub fn preprocess(file: &str) -> (r: String)
    ensures
        r@ == spec_preprocess(file@),
{
    let n: usize = file.unicode_len();
    let mut out = String::new();
    let mut i: usize = 0;
    proof {
        assert(file@.skip(0) =~= file@);
        assert(out@ + spec_preprocess(file@) =~= spec_preprocess(file@));
    }
    while i < n
        invariant
            i <= n,
            n == file@.len(),
            out@ + spec_preprocess(file@.skip(i as int)) =~= spec_preprocess(file@),
        decreases n - i,
    {
        let ghost pre = out@;
        let c = file.get_char(i);
        proof {
            assert(file@.skip(i as int)[0] == file@[i as int]);
            if i + 1 < n {
                assert(file@.skip(i as int)[1] == file@[i + 1]);
            }
            assert(file@.skip(i as int).skip(1) =~= file@.skip(i + 1));
            if i + 2 <= n {
                assert(file@.skip(i as int).skip(2) =~= file@.skip(i + 2));
            }
        }
        if c == '\\' && i + 1 < n && file.get_char(i + 1) == '\n' {
            push_char(&mut out, ' ');
            proof {
                assert(pre + (seq![' '] + spec_preprocess(file@.skip(i + 2))) =~= out@
                    + spec_preprocess(file@.skip(i + 2)));
            }
            i += 2;
        } else {
            push_char(&mut out, c);
            proof {
                assert(pre + (seq![file@[i as int]] + spec_preprocess(file@.skip(i + 1))) =~= out@
                    + spec_preprocess(file@.skip(i + 1)));
            }
            i += 1;
        }
    }
    proof {
        assert(file@.skip(n as int) =~= Seq::<char>::empty());
        assert(out@ + Seq::<char>::empty() =~= out@);
    }
    out
}

} // verus!
