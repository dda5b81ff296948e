use suru::functions::SysEnv;
use suru::graph::{add_implicit, build_graph, decannonicalize, fix_paths, get_roots, GraphError};
use suru::hooks::{drain_hooks, new_hook_queue, pre_compile};
use suru::parser::{parse, TaskFile, VarEnv};
use suru::runner::{do_replacements, needs_compiling, DependencyFile};
use suru::schedule::BuildState;
use suru::util::make_svec;

fn plain_sys() -> SysEnv {
    SysEnv { windows: false, env_vars: Vec::new(), path_files: Vec::new() }
}

fn parse_task_file(input: &str) -> TaskFile {
    let mut context = VarEnv::new();
    let mut tf = TaskFile::default();
    parse(input, &mut context, &mut tf, "test", &plain_sys()).unwrap();
    tf
}

fn mtime_of(fs: &Vec<(String, u64)>, path: &str) -> Option<u64> {
    for (p, t) in fs {
        if p == path {
            return Some(*t);
        }
    }
    None
}

fn touch(fs: &mut Vec<(String, u64)>, path: &str, clock: &mut u64) {
    *clock += 1;
    for entry in fs.iter_mut() {
        if entry.0 == path {
            entry.1 = *clock;
            return;
        }
    }
    fs.push((path.to_string(), *clock));
}

/// Drives the engine over a simulated file system; a command whose argv
/// starts with `fail_cmd` exits non-zero. Returns how many subprocesses
/// were spawned.
fn run_build(
    st: &mut BuildState,
    fs: &mut Vec<(String, u64)>,
    clock: &mut u64,
    fail_cmd: Option<&str>,
) -> usize {
    let mut spawns: usize = 0;
    loop {
        let j = match st.next_job() {
            None => break,
            Some(j) => j,
        };
        let plan = st.plan_node(j).unwrap();
        let mut ok = true;
        for step in &plan.steps {
            let target_mtime = mtime_of(fs, &plan.target_path);
            let dep_mtimes: Vec<Option<u64>> =
                plan.dep_paths.iter().map(|d| mtime_of(fs, d)).collect();
            if st.should_spawn(target_mtime, &dep_mtimes) {
                spawns += 1;
                if fail_cmd.is_some() && step.first().map(|s| s.as_str()) == fail_cmd {
                    ok = false;
                    break;
                }
                touch(fs, &plan.target_path, clock);
            }
        }
        st.complete_job(j, ok);
    }
    spawns
}

fn compile_and_link_state(fs_sources: &[&str]) -> BuildState {
    let input = "a.exe: main.o f.o\n\
                 %.o < %.c\n\
                 \tgcc -c -o $@ $^\n\
                 %.exe < *.o\n\
                 \tgcc -o $@ $^\n";
    let mut tf = parse_task_file(input);
    fix_paths(&mut tf, "src", "build");
    let sources = make_svec(fs_sources);
    add_implicit(&mut tf, &sources).unwrap();
    let graph = build_graph(&tf);
    BuildState::new(graph, tf.recipes, "build".to_string(), "src".to_string())
}

#[test]
fn simple_compile_and_link() {
    let mut fs: Vec<(String, u64)> = Vec::new();
    let mut clock: u64 = 0;
    touch(&mut fs, "src/main.c", &mut clock);
    touch(&mut fs, "src/f.c", &mut clock);

    let mut st = compile_and_link_state(&["main.c", "f.c"]);
    let spawns = run_build(&mut st, &mut fs, &mut clock, None);
    assert_eq!(spawns, 3);
    assert!(!st.is_cancelled());
    let exe = mtime_of(&fs, "build/a.exe").unwrap();
    assert!(exe >= mtime_of(&fs, "build/main.o").unwrap());
    assert!(exe >= mtime_of(&fs, "build/f.o").unwrap());

    // A second invocation with nothing changed spawns nothing.
    let mut st2 = compile_and_link_state(&["main.c", "f.c"]);
    let spawns2 = run_build(&mut st2, &mut fs, &mut clock, None);
    assert_eq!(spawns2, 0);
    assert!(!st2.is_cancelled());
}

#[test]
fn stale_dependency_rebuilds() {
    let mut fs: Vec<(String, u64)> = Vec::new();
    let mut clock: u64 = 0;
    touch(&mut fs, "src/main.c", &mut clock);
    touch(&mut fs, "src/f.c", &mut clock);
    let mut st = compile_and_link_state(&["main.c", "f.c"]);
    run_build(&mut st, &mut fs, &mut clock, None);

    // Touch one source: its object and the final link run again.
    touch(&mut fs, "src/f.c", &mut clock);
    let mut st2 = compile_and_link_state(&["main.c", "f.c"]);
    let spawns = run_build(&mut st2, &mut fs, &mut clock, None);
    assert_eq!(spawns, 2);
}

#[test]
fn fail_fast_stops_the_build() {
    let input = "one: a.dat\n\
                 two: b.dat\n\
                 % < *.dat\n\
                 \tconvert $@ $^\n";
    let mut tf = parse_task_file(input);
    fix_paths(&mut tf, "src", "build");
    add_implicit(&mut tf, &make_svec(&["a.dat", "b.dat"])).unwrap();
    let graph = build_graph(&tf);
    let mut st = BuildState::new(graph, tf.recipes, "build".to_string(), "src".to_string());

    let mut fs: Vec<(String, u64)> = Vec::new();
    let mut clock: u64 = 0;
    touch(&mut fs, "src/a.dat", &mut clock);
    touch(&mut fs, "src/b.dat", &mut clock);
    let spawns = run_build(&mut st, &mut fs, &mut clock, Some("convert"));
    assert_eq!(spawns, 1);
    assert!(st.is_cancelled());
}

#[test]
fn ambiguous_implicit_task_aborts() {
    let input = "x: lib.o\n\
                 %.o < %.c\n\
                 \tcc1 -o $@ $^\n\
                 %.o < %.cc\n\
                 \tcc2 -o $@ $^\n";
    let mut tf = parse_task_file(input);
    let err = add_implicit(&mut tf, &make_svec(&["lib.c", "lib.cc"])).unwrap_err();
    assert!(matches!(err, GraphError::Ambiguous(t) if t == "lib.o"));
}

#[test]
fn unproducible_input_aborts() {
    let input = "x: lib.o\n\
                 %.o < %.c\n\
                 \tcc -o $@ $^\n";
    let mut tf = parse_task_file(input);
    // lib.c does not exist, so no recipe is fully satisfiable.
    let err = add_implicit(&mut tf, &make_svec(&["other.c"])).unwrap_err();
    assert!(matches!(err, GraphError::NoRecipe(t) if t == "lib.o"));
}

#[test]
fn splice_preserves_position() {
    let step = make_svec(&["cc", "$^", "-o", "$@"]);
    let deps = make_svec(&["a.c", "b.c"]);
    let argv = do_replacements(&step, "x", &deps, "bd", "sd");
    assert_eq!(argv, make_svec(&["cc", "a.c", "b.c", "-o", "x"]));
}

#[test]
fn sigils_substitute_on_exact_tokens() {
    let step = make_svec(&["echo", "$bd", "$sd", "x$bd"]);
    let deps: Vec<String> = Vec::new();
    let argv = do_replacements(&step, "t", &deps, "build", "src");
    assert_eq!(argv, make_svec(&["echo", "build", "src", "x$bd"]));
}

#[test]
fn graph_edges_are_mutual() {
    let input = "a.exe: main.o f.o\n\
                 %.o < %.c\n\
                 \tgcc -c -o $@ $^\n\
                 %.exe < *.o\n\
                 \tgcc -o $@ $^\n";
    let mut tf = parse_task_file(input);
    fix_paths(&mut tf, "src", "build");
    add_implicit(&mut tf, &make_svec(&["main.c", "f.c"])).unwrap();
    let graph = build_graph(&tf);
    assert_eq!(graph.nodes.len(), 3);
    assert_eq!(graph.nodes[0].name, "a.exe");
    assert_eq!(graph.nodes[1].name, "main.o");
    assert_eq!(graph.nodes[2].name, "f.o");
    assert_eq!(graph.nodes[0].dependencies, vec![1, 2]);
    assert_eq!(graph.nodes[1].dependents, vec![0]);
    assert_eq!(graph.nodes[2].dependents, vec![0]);
    assert!(graph.nodes[0].is_branch);
    assert!(!graph.nodes[1].is_branch);
    assert!(
        matches!(&graph.nodes[0].dependency_files[0], DependencyFile::Generated(n) if n == "main.o")
    );
    assert!(
        matches!(&graph.nodes[1].dependency_files[0], DependencyFile::Source(n) if n == "main.c")
    );
    // The initial jobs are exactly the nodes that depend on nothing.
    assert_eq!(get_roots(&graph), vec![1, 2]);
}

#[test]
fn each_node_runs_at_most_once() {
    let mut fs: Vec<(String, u64)> = Vec::new();
    let mut clock: u64 = 0;
    touch(&mut fs, "src/main.c", &mut clock);
    touch(&mut fs, "src/f.c", &mut clock);
    let mut st = compile_and_link_state(&["main.c", "f.c"]);
    let mut issued: Vec<usize> = Vec::new();
    loop {
        let j = match st.next_job() {
            None => break,
            Some(j) => j,
        };
        assert!(!issued.contains(&j));
        issued.push(j);
        let plan = st.plan_node(j).unwrap();
        for _step in &plan.steps {
            touch(&mut fs, &plan.target_path, &mut clock);
        }
        st.complete_job(j, true);
    }
    // All three nodes ran, each exactly once, even though the link node
    // was submitted twice (once per completing dependency).
    issued.sort();
    assert_eq!(issued, vec![0, 1, 2]);
}

#[test]
fn staleness_rules() {
    assert!(needs_compiling(None, &vec![]));
    assert!(!needs_compiling(Some(5), &vec![Some(3), Some(5)]));
    assert!(needs_compiling(Some(5), &vec![Some(3), Some(7)]));
    assert!(needs_compiling(Some(5), &vec![None]));
}

#[test]
fn canonicalization_strips_roots() {
    assert_eq!(decannonicalize("build/x.o", "src", "build"), "x.o");
    assert_eq!(decannonicalize("src/x.c", "src", "build"), "x.c");
    assert_eq!(decannonicalize("elsewhere/x", "src", "build"), "elsewhere/x");
}

#[test]
fn hook_records_compile_commands() {
    let mut q = new_hook_queue();
    pre_compile(
        &mut q,
        &make_svec(&["/usr/bin/gcc", "-c", "-o", "file.o", "file.c"]),
        &make_svec(&["src/file.c"]),
        "build/file.o",
        "src",
    );
    pre_compile(&mut q, &make_svec(&["cp", "a", "b"]), &make_svec(&["src/a"]), "build/b", "src");
    let records = drain_hooks(&mut q);
    assert_eq!(records.len(), 1);
    assert_eq!(records[0].directory, "src");
    assert_eq!(records[0].arguments, make_svec(&["/usr/bin/gcc", "-c", "-o", "file.o", "file.c"]));
    assert_eq!(records[0].file, "build/file.o");
}

#[test]
fn unsatisfied_recipe_is_reported() {
    // The bucket for `.o` exists, but no dependency of the node satisfies
    // the recipe: x.o's only input is a .txt file.
    let input = "x.o: notes.txt\n\
                 %.o < %.c\n\
                 \tcc -c -o $@ $^\n";
    let mut tf = parse_task_file(input);
    fix_paths(&mut tf, "src", "build");
    add_implicit(&mut tf, &make_svec(&["notes.txt"])).unwrap();
    let graph = build_graph(&tf);
    let st = BuildState::new(graph, tf.recipes, "build".to_string(), "src".to_string());
    let err = st.plan_node(0).unwrap_err();
    assert!(matches!(err, suru::schedule::BuildError::NoMatchingRecipe(t) if t == "x.o"));
}

#[test]
fn missing_recipe_bucket_is_reported() {
    let input = "x.zzz: in.dat\n\
                 %.o < %.c\n\
                 \tcc $@\n";
    let mut tf = parse_task_file(input);
    fix_paths(&mut tf, "src", "build");
    add_implicit(&mut tf, &make_svec(&["in.dat"])).unwrap();
    let graph = build_graph(&tf);
    let st = BuildState::new(graph, tf.recipes, "build".to_string(), "src".to_string());
    let err = st.plan_node(0).unwrap_err();
    assert!(matches!(err, suru::schedule::BuildError::NoRecipeBucket(t) if t == "x.zzz"));
}
