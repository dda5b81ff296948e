use suru::functions::SysEnv;
use suru::parser::{check_expr, check_file, check_template, parse, Recipe, Task, TaskFile, VarEnv};
use suru::util::make_svec;

fn plain_sys() -> SysEnv {
    SysEnv { windows: false, env_vars: Vec::new(), path_files: Vec::new() }
}

fn tasks_su() -> &'static str {
    "a.exe: main.o lib/lib.o\n\
     %.o < %.c\n\
     \tgcc -c -o $@ $^ -O3 $(upper $(LINKFLAGS))\n\
     %.o < %.cpp\n\
     \tg++ -c -o $@ $^ -O3 $(upper $(LINKFLAGS))\n"
}

#[test]
fn try_parse() {
    let f = tasks_su();
    let mut context = VarEnv::new();
    context.insert(
        "LINKFLAGS".into(),
        vec!["-MMD", "-lto", "-O3"].iter().map(|s| s.to_string()).collect(),
    );

    let mut result = TaskFile::default();
    parse(f, &mut context, &mut result, "test", &plain_sys()).unwrap();
    let expected = TaskFile {
        tasks: vec![("a.exe".into(), Task { inputs: make_svec(&["main.o", "lib/lib.o"]) })],
        recipes: vec![(
            "o".into(),
            vec![
                Recipe {
                    templ_in: make_svec(&["c"]),
                    any_in: vec![],
                    steps: vec![make_svec(&[
                        "gcc", "-c", "-o", "$@", "$^", "-O3", "-MMD", "-LTO", "-O3",
                    ])],
                },
                Recipe {
                    templ_in: make_svec(&["cpp"]),
                    any_in: vec![],
                    steps: vec![make_svec(&[
                        "g++", "-c", "-o", "$@", "$^", "-O3", "-MMD", "-LTO", "-O3",
                    ])],
                },
            ],
        )],
    };
    assert_eq!(result, expected, "Expected {:#?}\ngot {:#?}", expected, result);
}

#[test]
fn parse_file() {
    let f = tasks_su();
    assert!(check_file(f));
}

#[test]
fn parse_expr() {
    let var = "$(upper $(FLAGS))";
    assert!(check_expr(var));
}

#[test]
fn parse_expr_win() {
    let var = "C:\\filename";
    assert!(check_expr(var));
}

#[test]
fn parse_task() {
    let task = "a.out: main.o src/other.o";
    assert!(check_file(task));
}

#[test]
fn parse_recipe() {
    let recipe = "%.h < %.h.in\n\tgenerate.py $@ $^";
    assert!(check_file(recipe));
}

#[test]
fn parse_template() {
    let template = "%.exe";
    assert!(check_template(template));
}

#[test]
fn variable_roundtrip_through_parse() {
    let mut context = VarEnv::new();
    let mut result = TaskFile::default();
    let input = "V = one two three\nCOPY = $(V)\n";
    parse(input, &mut context, &mut result, "vars", &plain_sys()).unwrap();
    assert_eq!(context.get("COPY").unwrap(), make_svec(&["one", "two", "three"]));
}

#[test]
fn upper_function_expands() {
    let mut context = VarEnv::new();
    let mut result = TaskFile::default();
    let input = "FLAGS = -O3 -g\nX = $(upper $(FLAGS))\n";
    parse(input, &mut context, &mut result, "vars", &plain_sys()).unwrap();
    assert_eq!(context.get("X").unwrap(), make_svec(&["-O3", "-G"]));
}

#[test]
fn later_declaration_shadows() {
    let mut context = VarEnv::new();
    let mut result = TaskFile::default();
    let input = "A = first\nA = second\n";
    parse(input, &mut context, &mut result, "vars", &plain_sys()).unwrap();
    assert_eq!(context.get("A").unwrap(), make_svec(&["second"]));
}

#[test]
fn task_statements_append_inputs() {
    let mut context = VarEnv::new();
    let mut result = TaskFile::default();
    let input = "out: a.o\nout: b.o c.o\n";
    parse(input, &mut context, &mut result, "tasks", &plain_sys()).unwrap();
    assert_eq!(result.tasks.len(), 1);
    assert_eq!(result.tasks[0].0, "out");
    assert_eq!(result.tasks[0].1.inputs, make_svec(&["a.o", "b.o", "c.o"]));
}

#[test]
fn unbound_variable_is_fatal() {
    let mut context = VarEnv::new();
    let mut result = TaskFile::default();
    let input = "X = $(NOPE)\n";
    let err = parse(input, &mut context, &mut result, "vars", &plain_sys()).unwrap_err();
    assert_eq!(err.line, 1);
    assert!(matches!(err.kind, suru::parser::ParseErrorKind::Unbound(n) if n == "NOPE"));
}

#[test]
fn unknown_function_is_fatal() {
    let mut context = VarEnv::new();
    let mut result = TaskFile::default();
    let input = "X = $(frobnicate a b)\n";
    let err = parse(input, &mut context, &mut result, "vars", &plain_sys()).unwrap_err();
    assert!(matches!(
        err.kind,
        suru::parser::ParseErrorKind::Fn(suru::functions::EvalError::UnknownFunction)
    ));
}

#[test]
fn stray_step_is_fatal() {
    let mut context = VarEnv::new();
    let mut result = TaskFile::default();
    let input = "\tgcc -c main.c\n";
    let err = parse(input, &mut context, &mut result, "steps", &plain_sys()).unwrap_err();
    assert!(matches!(err.kind, suru::parser::ParseErrorKind::StrayStep));
}

#[test]
fn recipe_without_steps_is_fatal() {
    let mut context = VarEnv::new();
    let mut result = TaskFile::default();
    let input = "%.o < %.c\n";
    let err = parse(input, &mut context, &mut result, "recipes", &plain_sys()).unwrap_err();
    assert!(matches!(err.kind, suru::parser::ParseErrorKind::EmptyRecipe));
}

#[test]
fn bad_template_is_fatal() {
    let mut context = VarEnv::new();
    let mut result = TaskFile::default();
    let input = "%.o < in.c\n\tgcc\n";
    let err = parse(input, &mut context, &mut result, "recipes", &plain_sys()).unwrap_err();
    assert!(matches!(err.kind, suru::parser::ParseErrorKind::BadTemplate));
}

#[test]
fn wildcard_templates_fill_any_in() {
    let mut context = VarEnv::new();
    let mut result = TaskFile::default();
    let input = "%.exe < *.o\n\tgcc -o $@ $^\n";
    parse(input, &mut context, &mut result, "recipes", &plain_sys()).unwrap();
    assert_eq!(result.recipes.len(), 1);
    assert_eq!(result.recipes[0].0, "exe");
    let recipe = &result.recipes[0].1[0];
    assert_eq!(recipe.any_in, make_svec(&["o"]));
    assert!(recipe.templ_in.is_empty());
}

#[test]
fn redefinition_is_not_retroactive() {
    let mut context = VarEnv::new();
    let mut result = TaskFile::default();
    let input = "SRC = a.o\nout: $(SRC)\nSRC = b.o\n";
    parse(input, &mut context, &mut result, "tasks", &plain_sys()).unwrap();
    assert_eq!(result.tasks[0].1.inputs, make_svec(&["a.o"]));
    assert_eq!(context.get("SRC").unwrap(), make_svec(&["b.o"]));
}

#[test]
fn target_must_be_one_token() {
    let mut context = VarEnv::new();
    let mut result = TaskFile::default();
    let input = "PAIR = a b\n$(PAIR): in.c\n";
    let err = parse(input, &mut context, &mut result, "tasks", &plain_sys()).unwrap_err();
    assert_eq!(err.line, 2);
    assert!(matches!(err.kind, suru::parser::ParseErrorKind::TargetCount));
}

#[test]
fn consecutive_duplicate_templates_collapse() {
    let mut context = VarEnv::new();
    let mut result = TaskFile::default();
    let input = "%.x < %.c < %.c\n\tcc $@\n";
    parse(input, &mut context, &mut result, "recipes", &plain_sys()).unwrap();
    assert_eq!(result.recipes[0].1[0].templ_in, make_svec(&["c"]));
}

#[test]
fn continuation_lines_join() {
    let joined = suru::parser::preprocess("a.exe: main.o \\\n other.o\n");
    assert_eq!(joined, "a.exe: main.o   other.o\n");
}

#[test]
fn bare_word_is_no_statement() {
    assert!(!check_file("not_a_statement\n"));
    let mut context = VarEnv::new();
    let mut result = TaskFile::default();
    let err =
        parse("not_a_statement\n", &mut context, &mut result, "bad", &plain_sys()).unwrap_err();
    assert!(matches!(err.kind, suru::parser::ParseErrorKind::Malformed));
}

#[test]
fn windows_path_stays_one_token() {
    let mut context = VarEnv::new();
    let mut result = TaskFile::default();
    let input = "out: C:\\src\\main.o\n";
    parse(input, &mut context, &mut result, "tasks", &plain_sys()).unwrap();
    assert_eq!(result.tasks[0].1.inputs, make_svec(&["C:\\src\\main.o"]));
}
