use suru::functions::{eval_function, exe, first, last, or, EvalError, SysEnv};
use suru::util::make_svec;

fn plain_sys() -> SysEnv {
    SysEnv { windows: false, env_vars: Vec::new(), path_files: Vec::new() }
}

#[test]
fn test_first_last() {
    let inputs = make_svec(&["3", "a", "b", "c", "d"]);
    let results = last(&inputs).unwrap();
    assert_eq!(results, make_svec(&["b", "c", "d"]));

    let results = first(&inputs).unwrap();
    assert_eq!(results, make_svec(&["a", "b", "c"]));
}

#[test]
fn first_last_two_of_four() {
    let inputs = make_svec(&["2", "a", "b", "c", "d"]);
    assert_eq!(first(&inputs).unwrap(), make_svec(&["a", "b"]));
    assert_eq!(last(&inputs).unwrap(), make_svec(&["c", "d"]));
}

#[test]
fn first_too_few_is_fatal() {
    let inputs = make_svec(&["5", "a", "b", "c"]);
    assert_eq!(first(&inputs).unwrap_err(), EvalError::TooFewArguments);
}

#[test]
fn first_bad_count_is_fatal() {
    let inputs = make_svec(&["many", "a"]);
    assert_eq!(first(&inputs).unwrap_err(), EvalError::BadNumber);
    let empty: Vec<String> = Vec::new();
    assert_eq!(first(&empty).unwrap_err(), EvalError::MissingArgument);
    assert_eq!(last(&empty).unwrap_err(), EvalError::MissingArgument);
}

#[test]
fn or_takes_the_first_token() {
    assert_eq!(or(&make_svec(&["x", "y"])), make_svec(&["x"]));
    let empty: Vec<String> = Vec::new();
    assert_eq!(or(&empty), Vec::<String>::new());
}

#[test]
fn exe_appends_only_on_windows() {
    let sys = plain_sys();
    assert_eq!(exe(&make_svec(&["tool"]), &sys).unwrap(), make_svec(&["tool"]));
    let windows = SysEnv { windows: true, env_vars: Vec::new(), path_files: Vec::new() };
    assert_eq!(exe(&make_svec(&["tool"]), &windows).unwrap(), make_svec(&["tool.exe"]));
    assert_eq!(exe(&make_svec(&["a", "b"]), &sys).unwrap_err(), EvalError::WrongArity);
}

#[test]
fn upper_maps_every_token() {
    let sys = plain_sys();
    let r = eval_function("upper", &make_svec(&["ab", "-lto", "C"]), &sys).unwrap();
    assert_eq!(r, make_svec(&["AB", "-LTO", "C"]));
}

#[test]
fn just_is_identity() {
    let sys = plain_sys();
    let toks = make_svec(&["a", "b"]);
    assert_eq!(eval_function("just", &toks, &sys).unwrap(), toks);
}

#[test]
fn env_reads_the_snapshot() {
    let sys = SysEnv {
        windows: false,
        env_vars: vec![("HOME".to_string(), "/home/user".to_string())],
        path_files: Vec::new(),
    };
    assert_eq!(eval_function("env", &make_svec(&["HOME"]), &sys).unwrap(), make_svec(&[
        "/home/user",
    ]));
    assert_eq!(eval_function("env", &make_svec(&["MISSING"]), &sys).unwrap(), Vec::<String>::new());
}

#[test]
fn path_probes_the_snapshot() {
    let sys = SysEnv {
        windows: false,
        env_vars: Vec::new(),
        path_files: make_svec(&["gcc", "ls"]),
    };
    assert_eq!(eval_function("path", &make_svec(&["gcc"]), &sys).unwrap(), make_svec(&["gcc"]));
    assert_eq!(eval_function("path", &make_svec(&["rustc"]), &sys).unwrap(), Vec::<String>::new());
}

#[test]
fn unknown_function_is_an_error() {
    let sys = plain_sys();
    assert_eq!(
        eval_function("frobnicate", &make_svec(&["a"]), &sys).unwrap_err(),
        EvalError::UnknownFunction
    );
}

#[test]
fn string_helpers_split_on_first_dot() {
    assert_eq!(suru::util::remove_prefix("main.o"), "o");
    assert_eq!(suru::util::remove_prefix("archive.tar.gz"), "tar.gz");
    assert_eq!(suru::util::remove_prefix("%"), "%");
    assert_eq!(suru::util::remove_suffix("main.o"), "main");
    assert_eq!(suru::util::remove_suffix("archive.tar.gz"), "archive");
    assert_eq!(suru::util::remove_suffix("nodot"), "nodot");
}

#[test]
fn append_string_separates_with_one_space() {
    let mut s = String::new();
    suru::util::append_string(&mut s, "first");
    suru::util::append_string(&mut s, "second");
    assert_eq!(s, "first second");
}

#[test]
fn once_latch_completes_only_on_success() {
    let mut latch = suru::once_fallible::OnceFallible::new();
    assert!(!latch.is_completed());
    assert!(!latch.call_once_maybe(|| false));
    assert!(!latch.is_completed());
    assert!(latch.call_once_maybe(|| true));
    assert!(latch.is_completed());
    assert!(!latch.call_once_maybe(|| false));
    assert!(latch.is_completed());
}
