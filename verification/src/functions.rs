//! The built-in functions of the task-file language: `upper`, `exe`, `env`,
//! `path`, `or`, `just`, `first`, `last`, and the dispatcher `eval_function`.
//!
//! Each one is a pure function of its flattened argument list and of a
//! [`SysEnv`]: a snapshot of the few facts about the platform that the
//! builtins consult (whether this is Windows, the process environment, and
//! which executables the `PATH` directories hold). The surrounding binary
//! gathers the snapshot once; everything here is then deterministic.

use vstd::prelude::*;
use vstd::string::*;

verus! {

/// Platform facts that the built-in functions read.
pub struct SysEnv {
    /// Whether the build host is Windows (`exe` and `path` append `.exe`).
    pub windows: bool,
    /// The process environment, name to value.
    pub env_vars: Vec<(String, String)>,
    /// The file names that the directories of `PATH` hold.
    pub path_files: Vec<String>,
}

/// Why evaluating a function application failed.
#[derive(Debug, PartialEq, Eq, Structural, Clone, Copy)]
pub enum EvalError {
    /// The name is not one of the built-in functions.
    UnknownFunction,
    /// `first`/`last` were applied to an empty list.
    MissingArgument,
    /// The count argument of `first`/`last` is not a non-negative integer
    /// that fits the machine.
    BadNumber,
    /// `first N`/`last N` were given fewer than `N` tokens after the count.
    TooFewArguments,
    /// `exe`, `env` and `path` take exactly one argument.
    WrongArity,
}

/// The upper-case image of a string, as `str::to_uppercase` draws it from
/// the Unicode tables: a function of the characters alone.
pub uninterp spec fn upper_of(s: Seq<char>) -> Seq<char>;

/// Relies on str::to_uppercase: the result depends on the characters alone.
#[verifier::external_body]
fn to_upper(s: &str) -> (r: String)
    ensures
        r@ == upper_of(s@),
{
    s.to_uppercase()
}

/// The characters of the literal `.exe`.
pub open spec fn exe_suffix() -> Seq<char> {
    seq!['.', 'e', 'x', 'e']
}

/// Does `s` end in the four characters `.exe`?
pub open spec fn spec_ends_with_exe(s: Seq<char>) -> bool {
    s.len() >= 4 && s.subrange(s.len() - 4, s.len() as int) == exe_suffix()
}

fn ends_with_exe(s: &str) -> (r: bool)
    ensures
        r == spec_ends_with_exe(s@),
{
    let n: usize = s.unicode_len();
    if n < 4 {
        return false;
    }
    let r = s.get_char(n - 4) == '.' && s.get_char(n - 3) == 'e' && s.get_char(n - 2) == 'x'
        && s.get_char(n - 1) == 'e';
    proof {
        if r {
            assert(s@.subrange(s@.len() - 4, s@.len() as int) =~= exe_suffix());
        } else {
            if s@.subrange(s@.len() - 4, s@.len() as int) == exe_suffix() {
                assert(s@[s@.len() - 4] == exe_suffix()[0]);
                assert(s@[s@.len() - 3] == exe_suffix()[1]);
                assert(s@[s@.len() - 2] == exe_suffix()[2]);
                assert(s@[s@.len() - 1] == exe_suffix()[3]);
            }
        }
    }
    r
}

/// First value bound to `name` in an association list, scanning in order.
pub open spec fn spec_env_lookup(pairs: Seq<(String, String)>, name: Seq<char>) -> Option<
    Seq<char>,
>
    decreases pairs.len(),
{
    if pairs.len() == 0 {
        None
    } else if pairs[0].0@ == name {
        Some(pairs[0].1@)
    } else {
        spec_env_lookup(pairs.drop_first(), name)
    }
}

/// Compares two strings by their characters.
pub fn str_eq(a: &str, b: &str) -> (r: bool)
    ensures
        r == (a@ == b@),
{
    let sa = String::from_str(a);
    let sb = String::from_str(b);
    sa.eq(&sb)
}

/// The value of the environment variable `name` in the snapshot, if any.
fn env_var_get(sys: &SysEnv, name: &str) -> (r: Option<String>)
    ensures
        match r {
            Some(v) => spec_env_lookup(sys.env_vars@, name@) == Some(v@),
            None => spec_env_lookup(sys.env_vars@, name@) is None,
        },
{
    let n = sys.env_vars.len();
    let mut i: usize = 0;
    proof {
        assert(sys.env_vars@.skip(0) =~= sys.env_vars@);
    }
    while i < n
        invariant
            i <= n,
            n == sys.env_vars@.len(),
            spec_env_lookup(sys.env_vars@, name@) == spec_env_lookup(
                sys.env_vars@.skip(i as int),
                name@,
            ),
        decreases n - i,
    {
        proof {
            assert(sys.env_vars@.skip(i as int)[0] == sys.env_vars@[i as int]);
            assert(sys.env_vars@.skip(i as int).drop_first() =~= sys.env_vars@.skip(i + 1));
        }
        if str_eq(sys.env_vars[i].0.as_str(), name) {
            return Some(sys.env_vars[i].1.clone());
        }
        i += 1;
    }
    proof {
        assert(sys.env_vars@.skip(n as int) =~= Seq::<(String, String)>::empty());
    }
    None
}

/// Does some string of `v` read exactly `s`?
pub open spec fn spec_str_in(v: Seq<String>, s: Seq<char>) -> bool {
    exists|i: int| 0 <= i < v.len() && v[i]@ == s
}

fn str_in(v: &Vec<String>, s: &str) -> (r: bool)
    ensures
        r == spec_str_in(v@, s@),
{
    let n = v.len();
    let mut i: usize = 0;
    while i < n
        invariant
            i <= n,
            n == v@.len(),
            forall|j: int| 0 <= j < i ==> v@[j]@ != s@,
        decreases n - i,
    {
        if str_eq(v[i].as_str(), s) {
            return true;
        }
        i += 1;
    }
    false
}

/// What `upper` yields: each token mapped through `upper_of`.
pub open spec fn spec_upper(inputs: Seq<Seq<char>>) -> Seq<Seq<char>> {
    inputs.map_values(|s: Seq<char>| upper_of(s))
}

/// What `exe` yields: the single token, with `.exe` appended on Windows.
pub open spec fn spec_exe(inputs: Seq<Seq<char>>, windows: bool) -> Result<
    Seq<Seq<char>>,
    EvalError,
> {
    if inputs.len() != 1 {
        Err(EvalError::WrongArity)
    } else if windows {
        Ok(seq![inputs[0] + exe_suffix()])
    } else {
        Ok(seq![inputs[0]])
    }
}

/// What `env` yields: the variable's value as one token, or nothing when it
/// is unset.
pub open spec fn spec_env_fn(inputs: Seq<Seq<char>>, sys: &SysEnv) -> Result<
    Seq<Seq<char>>,
    EvalError,
> {
    if inputs.len() != 1 {
        Err(EvalError::WrongArity)
    } else {
        match spec_env_lookup(sys.env_vars@, inputs[0]) {
            Some(v) => Ok(seq![v]),
            None => Ok(Seq::empty()),
        }
    }
}

/// The name `path` probes for: on Windows an `.exe` suffix is appended
/// unless already present.
pub open spec fn spec_path_probe(name: Seq<char>, windows: bool) -> Seq<char> {
    if windows && !spec_ends_with_exe(name) {
        name + exe_suffix()
    } else {
        name
    }
}

/// What `path` yields: the probed name when some `PATH` directory holds it,
/// else nothing.
pub open spec fn spec_path_fn(inputs: Seq<Seq<char>>, sys: &SysEnv) -> Result<
    Seq<Seq<char>>,
    EvalError,
> {
    if inputs.len() != 1 {
        Err(EvalError::WrongArity)
    } else {
        let probe = spec_path_probe(inputs[0], sys.windows);
        if spec_str_in(sys.path_files@, probe) {
            Ok(seq![probe])
        } else {
            Ok(Seq::empty())
        }
    }
}

/// What `or` yields: the first token alone, or nothing from nothing.
pub open spec fn spec_or(inputs: Seq<Seq<char>>) -> Seq<Seq<char>> {
    if inputs.len() == 0 {
        Seq::empty()
    } else {
        seq![inputs[0]]
    }
}

/// Is `c` a decimal digit?
pub open spec fn is_digit(c: char) -> bool {
    '0' <= c && c <= '9'
}

/// The value of a decimal digit.
pub open spec fn digit_val(c: char) -> int {
    c as int - '0' as int
}

/// Is `s` entirely decimal digits?
pub open spec fn is_digit_seq(s: Seq<char>) -> bool {
    forall|i: int| 0 <= i < s.len() ==> is_digit(s[i])
}

/// The number a digit string denotes, most significant digit first.
pub open spec fn dec_val(s: Seq<char>) -> int
    decreases s.len(),
{
    if s.len() == 0 {
        0
    } else {
        dec_val(s.drop_last()) * 10 + digit_val(s.last())
    }
}

proof fn lemma_dec_val_nonneg(s: Seq<char>)
    requires
        is_digit_seq(s),
    ensures
        dec_val(s) >= 0,
    decreases s.len(),
{
    if s.len() > 0 {
        assert(is_digit_seq(s.drop_last()));
        lemma_dec_val_nonneg(s.drop_last());
    }
}

/// Extending a digit string never shrinks its value.
proof fn lemma_dec_val_prefix(s: Seq<char>, k: int)
    requires
        is_digit_seq(s),
        0 <= k <= s.len(),
    ensures
        dec_val(s.take(k)) <= dec_val(s),
    decreases s.len() - k,
{
    if k < s.len() {
        lemma_dec_val_prefix(s, k + 1);
        assert(s.take(k + 1).drop_last() =~= s.take(k));
        assert(is_digit_seq(s.take(k)));
        lemma_dec_val_nonneg(s.take(k));
        assert(dec_val(s.take(k + 1)) == dec_val(s.take(k)) * 10 + digit_val(s.take(k + 1).last()));
    } else {
        assert(s.take(k) =~= s);
    }
}

/// Reads a non-negative decimal integer; `None` on an empty string, a
/// non-digit, or a value above `usize::MAX`.
pub fn parse_usize(s: &str) -> (r: Option<usize>)
    ensures
        match r {
            Some(v) => s@.len() > 0 && is_digit_seq(s@) && v == dec_val(s@),
            None => s@.len() == 0 || !is_digit_seq(s@) || dec_val(s@) > usize::MAX,
        },
{
    let n: usize = s.unicode_len();
    if n == 0 {
        return None;
    }
    let mut acc: usize = 0;
    let mut i: usize = 0;
    while i < n
        invariant
            i <= n,
            n == s@.len(),
            is_digit_seq(s@.take(i as int)),
            acc == dec_val(s@.take(i as int)),
        decreases n - i,
    {
        let c = s.get_char(i);
        if !(c >= '0' && c <= '9') {
            assert(!is_digit(s@[i as int]));
            return None;
        }
        let d: usize = (c as usize) - ('0' as usize);
        proof {
            assert(s@.take(i + 1).drop_last() =~= s@.take(i as int));
            assert(s@.take(i + 1).last() == s@[i as int]);
            assert(is_digit_seq(s@.take(i + 1)));
            assert(dec_val(s@.take(i + 1)) == dec_val(s@.take(i as int)) * 10 + digit_val(
                s@[i as int],
            ));
            assert(d == digit_val(s@[i as int]));
        }
        let overflowed: bool;
        match acc.checked_mul(10) {
            Some(m) => {
                match m.checked_add(d) {
                    Some(v) => {
                        acc = v;
                        overflowed = false;
                    },
                    None => {
                        overflowed = true;
                    },
                }
            },
            None => {
                proof {
                    assert(acc * 10 + d >= acc * 10);
                }
                overflowed = true;
            },
        }
        if overflowed {
            proof {
                assert(dec_val(s@.take(i + 1)) > usize::MAX);
                if is_digit_seq(s@) {
                    lemma_dec_val_prefix(s@, i + 1);
                    assert(dec_val(s@) > usize::MAX);
                }
            }
            return None;
        }
        i += 1;
    }
    proof {
        assert(s@.take(n as int) =~= s@);
    }
    Some(acc)
}

/// What `first` yields: with count token `N`, the `N` tokens that follow it.
pub open spec fn spec_first(inputs: Seq<Seq<char>>) -> Result<Seq<Seq<char>>, EvalError> {
    if inputs.len() < 1 {
        Err(EvalError::MissingArgument)
    } else if !(inputs[0].len() > 0 && is_digit_seq(inputs[0]) && dec_val(inputs[0])
        <= usize::MAX) {
        Err(EvalError::BadNumber)
    } else if inputs.len() < dec_val(inputs[0]) + 1 {
        Err(EvalError::TooFewArguments)
    } else {
        Ok(inputs.subrange(1, dec_val(inputs[0]) + 1))
    }
}

/// What `last` yields: with count token `N`, the final `N` tokens.
pub open spec fn spec_last(inputs: Seq<Seq<char>>) -> Result<Seq<Seq<char>>, EvalError> {
    if inputs.len() < 1 {
        Err(EvalError::MissingArgument)
    } else if !(inputs[0].len() > 0 && is_digit_seq(inputs[0]) && dec_val(inputs[0])
        <= usize::MAX) {
        Err(EvalError::BadNumber)
    } else if inputs.len() < dec_val(inputs[0]) + 1 {
        Err(EvalError::TooFewArguments)
    } else {
        Ok(inputs.subrange(inputs.len() - dec_val(inputs[0]), inputs.len() as int))
    }
}

/// `exe`: appends `.exe` to its single token on Windows, passes it through
/// elsewhere.
pub fn exe(inputs: &Vec<String>, sys: &SysEnv) -> (r: Result<Vec<String>, EvalError>)
    ensures
        match r {
            Ok(v) => spec_exe(inputs.deep_view(), sys.windows) == Ok::<_, EvalError>(
                v.deep_view(),
            ),
            Err(e) => spec_exe(inputs.deep_view(), sys.windows) == Err::<Seq<Seq<char>>, _>(e),
        },
{
    if inputs.len() != 1 {
        return Err(EvalError::WrongArity);
    }
    let mut out: Vec<String> = Vec::new();
    if sys.windows {
        let t = inputs[0].clone().concat(".exe");
        proof {
            reveal_strlit(".exe");
            assert(".exe"@ =~= exe_suffix());
        }
        out.push(t);
    } else {
        out.push(inputs[0].clone());
    }
    proof {
        assert(out.deep_view() =~= spec_exe(inputs.deep_view(), sys.windows)->Ok_0);
    }
    Ok(out)
}

/// `or`: the first token if any, else the empty list.
pub fn or(inputs: &Vec<String>) -> (r: Vec<String>)
    ensures
        r.deep_view() == spec_or(inputs.deep_view()),
{
    let mut out: Vec<String> = Vec::new();
    if inputs.len() > 0 {
        out.push(inputs[0].clone());
    }
    proof {
        assert(out.deep_view() =~= spec_or(inputs.deep_view()));
    }
    out
}

/// `first N rest...`: the first `N` of the remaining tokens.
pub fn first(inputs: &Vec<String>) -> (r: Result<Vec<String>, EvalError>)
    ensures
        match r {
            Ok(v) => spec_first(inputs.deep_view()) == Ok::<_, EvalError>(v.deep_view()),
            Err(e) => spec_first(inputs.deep_view()) == Err::<Seq<Seq<char>>, _>(e),
        },
{
    if inputs.len() < 1 {
        return Err(EvalError::MissingArgument);
    }
    let num = match parse_usize(inputs[0].as_str()) {
        Some(v) => v,
        None => {
            return Err(EvalError::BadNumber);
        },
    };
    if num >= inputs.len() {
        return Err(EvalError::TooFewArguments);
    }
    let mut out: Vec<String> = Vec::new();
    let mut i: usize = 1;
    while i < num + 1
        invariant
            num < usize::MAX,
            1 <= i <= num + 1,
            num + 1 <= inputs@.len(),
            out@.len() == i - 1,
            forall|j: int| 0 <= j < out@.len() ==> out@[j]@ == inputs@[j + 1]@,
        decreases num + 1 - i,
    {
        out.push(inputs[i].clone());
        i += 1;
    }
    proof {
        assert(out.deep_view() =~= spec_first(inputs.deep_view())->Ok_0);
    }
    Ok(out)
}

/// `last N rest...`: the final `N` tokens.
pub fn last(inputs: &Vec<String>) -> (r: Result<Vec<String>, EvalError>)
    ensures
        match r {
            Ok(v) => spec_last(inputs.deep_view()) == Ok::<_, EvalError>(v.deep_view()),
            Err(e) => spec_last(inputs.deep_view()) == Err::<Seq<Seq<char>>, _>(e),
        },
{
    if inputs.len() < 1 {
        return Err(EvalError::MissingArgument);
    }
    let num = match parse_usize(inputs[0].as_str()) {
        Some(v) => v,
        None => {
            return Err(EvalError::BadNumber);
        },
    };
    if num >= inputs.len() {
        return Err(EvalError::TooFewArguments);
    }
    let n = inputs.len();
    let mut out: Vec<String> = Vec::new();
    let mut i: usize = n - num;
    while i < n
        invariant
            n - num <= i <= n,
            n == inputs@.len(),
            num <= n,
            out@.len() == i - (n - num),
            forall|j: int| 0 <= j < out@.len() ==> out@[j]@ == inputs@[j + n - num]@,
        decreases n - i,
    {
        out.push(inputs[i].clone());
        i += 1;
    }
    proof {
        assert(out.deep_view() =~= spec_last(inputs.deep_view())->Ok_0);
    }
    Ok(out)
}

/// What applying the built-in named `name` to `inputs` yields, or the exact
/// error it raises.
pub open spec fn spec_eval_function(name: Seq<char>, inputs: Seq<Seq<char>>, sys: &SysEnv) -> Result<
    Seq<Seq<char>>,
    EvalError,
> {
    if name == "upper"@ {
        Ok(spec_upper(inputs))
    } else if name == "exe"@ {
        spec_exe(inputs, sys.windows)
    } else if name == "env"@ {
        spec_env_fn(inputs, sys)
    } else if name == "or"@ {
        Ok(spec_or(inputs))
    } else if name == "path"@ {
        spec_path_fn(inputs, sys)
    } else if name == "just"@ {
        Ok(inputs)
    } else if name == "first"@ {
        spec_first(inputs)
    } else if name == "last"@ {
        spec_last(inputs)
    } else {
        Err(EvalError::UnknownFunction)
    }
}

/// Purity of the list functions: `upper`, `or`, `just`, `first` and
/// `last` are deterministic functions of their input token list alone —
/// two evaluations on the same list agree whatever the platform snapshot
/// says.
pub proof fn lemma_functions_pure(
    name: Seq<char>,
    inputs: Seq<Seq<char>>,
    sys1: &SysEnv,
    sys2: &SysEnv,
)
    requires
        name == "upper"@ || name == "or"@ || name == "just"@ || name == "first"@ || name
            == "last"@,
    ensures
        spec_eval_function(name, inputs, sys1) == spec_eval_function(name, inputs, sys2),
{
    reveal_strlit("upper");
    reveal_strlit("exe");
    reveal_strlit("env");
    reveal_strlit("or");
    reveal_strlit("path");
    reveal_strlit("just");
    reveal_strlit("first");
    reveal_strlit("last");
    assert("or"@.len() == 2);
    assert("exe"@.len() == 3);
    assert("env"@.len() == 3);
    assert("path"@.len() == 4);
    assert("upper"@.len() == 5);
    assert("just"@.len() == 4);
    assert("first"@.len() == 5);
    assert("last"@.len() == 4);
    assert("upper"@[0] == 'u');
    assert("first"@[0] == 'f');
    assert("path"@[0] == 'p');
    assert("just"@[0] == 'j');
    assert("last"@[0] == 'l');
    assert("exe"@[0] == 'e');
    assert("env"@[1] == 'n');
    assert("exe"@[1] == 'x');
}

/// Applies the built-in function `name` to the flattened token list
/// `inputs`, consulting `sys` for the platform facts.
pub fn eval_function(name: &str, inputs: &Vec<String>, sys: &SysEnv) -> (r: Result<
    Vec<String>,
    EvalError,
>)
    ensures
        match r {
            Ok(v) => spec_eval_function(name@, inputs.deep_view(), sys) == Ok::<_, EvalError>(
                v.deep_view(),
            ),
            Err(e) => spec_eval_function(name@, inputs.deep_view(), sys) == Err::<
                Seq<Seq<char>>,
                _,
            >(e),
        },
{
    if str_eq(name, "upper") {
        let mut out: Vec<String> = Vec::new();
        let mut i: usize = 0;
        while i < inputs.len()
            invariant
                i <= inputs@.len(),
                out@.len() == i,
                forall|j: int| 0 <= j < i ==> out@[j]@ == upper_of(inputs@[j]@),
            decreases inputs@.len() - i,
        {
            out.push(to_upper(inputs[i].as_str()));
            i += 1;
        }
        proof {
            assert(out.deep_view() =~= spec_upper(inputs.deep_view()));
        }
        Ok(out)
    } else if str_eq(name, "exe") {
        exe(inputs, sys)
    } else if str_eq(name, "env") {
        if inputs.len() != 1 {
            return Err(EvalError::WrongArity);
        }
        let mut out: Vec<String> = Vec::new();
        match env_var_get(sys, inputs[0].as_str()) {
            Some(v) => {
                out.push(v);
            },
            None => {},
        }
        proof {
            assert(out.deep_view() =~= spec_env_fn(inputs.deep_view(), sys)->Ok_0);
        }
        Ok(out)
    } else if str_eq(name, "or") {
        Ok(or(inputs))
    } else if str_eq(name, "path") {
        if inputs.len() != 1 {
            return Err(EvalError::WrongArity);
        }
        let probe = if sys.windows && !ends_with_exe(inputs[0].as_str()) {
            let t = inputs[0].clone().concat(".exe");
            proof {
                reveal_strlit(".exe");
                assert(".exe"@ =~= exe_suffix());
            }
            t
        } else {
            inputs[0].clone()
        };
        let mut out: Vec<String> = Vec::new();
        if str_in(&sys.path_files, probe.as_str()) {
            out.push(probe);
        }
        proof {
            assert(out.deep_view() =~= spec_path_fn(inputs.deep_view(), sys)->Ok_0);
        }
        Ok(out)
    } else if str_eq(name, "just") {
        let mut out: Vec<String> = Vec::new();
        let mut i: usize = 0;
        while i < inputs.len()
            invariant
                i <= inputs@.len(),
                out@.len() == i,
                forall|j: int| 0 <= j < i ==> out@[j]@ == inputs@[j]@,
            decreases inputs@.len() - i,
        {
            out.push(inputs[i].clone());
            i += 1;
        }
        proof {
            assert(out.deep_view() =~= inputs.deep_view());
        }
        Ok(out)
    } else if str_eq(name, "first") {
        first(inputs)
    } else if str_eq(name, "last") {
        last(inputs)
    } else {
        Err(EvalError::UnknownFunction)
    }
}

} // verus!
