use acdx::command::{
    BuildError, CommandBlock, CommandGraph, CommandGraphBuilder, CommandId, CommandQueue,
    UnknownCommand,
};

fn id(s: &str) -> CommandId {
    CommandId::new(s).expect("test id should be valid")
}

fn block(name: &str) -> CommandBlock {
    CommandBlock::new(id(name), format!("echo \"{name}\""), None)
}

/// Build a graph from `(command, [deps])` specs, expecting success.
fn graph(specs: &[(&str, &[&str])]) -> CommandGraph {
    build(specs).expect("graph should build")
}

/// Attempt to build a graph from `(command, [deps])` specs.
fn build(specs: &[(&str, &[&str])]) -> Result<CommandGraph, BuildError> {
    let mut builder = CommandGraphBuilder::new();
    for (name, deps) in specs {
        builder.add(block(name), deps.iter().map(|d| id(d)).collect());
    }
    builder.build()
}

/// Collect a queue's command ids, in order.
fn order(mut queue: CommandQueue) -> Vec<String> {
    let mut ids = Vec::new();
    while let Some(b) = queue.next() {
        ids.push(b.metadata.id.as_str().to_string());
    }
    ids
}

/// Index of `name` within an ordered id list.
fn pos(ids: &[String], name: &str) -> usize {
    ids.iter()
        .position(|s| s == name)
        .unwrap_or_else(|| panic!("{name:?} missing from {ids:?}"))
}

#[test]
fn build_empty_yields_empty_graph() {
    let graph = CommandGraphBuilder::new().build().unwrap();
    assert_eq!(graph.into_iter().len(), 0);
}

#[test]
fn build_single_command() {
    let graph = graph(&[("build", &[])]);
    assert_eq!(order(graph.into_iter()), ["build"]);
}

#[test]
fn build_independent_commands() {
    let graph = graph(&[("a", &[]), ("b", &[]), ("c", &[])]);
    let mut ids = order(graph.into_iter());
    ids.sort();
    assert_eq!(ids, ["a", "b", "c"]);
}

#[test]
fn build_resolves_forward_referenced_dep() {
    // `build` depends on `gen`, which is added *after* it.
    let graph = graph(&[("build", &["gen"]), ("gen", &[])]);
    let ids = order(graph.into_iter());
    assert!(pos(&ids, "gen") < pos(&ids, "build"));
}

#[test]
fn build_orders_chain_dependencies() {
    let graph = graph(&[("c", &["b"]), ("b", &["a"]), ("a", &[])]);
    assert_eq!(order(graph.into_iter()), ["a", "b", "c"]);
}

#[test]
fn build_orders_diamond_dependencies() {
    let graph = graph(&[("d", &["b", "c"]), ("b", &["a"]), ("c", &["a"]), ("a", &[])]);
    let ids = order(graph.into_iter());
    assert!(pos(&ids, "a") < pos(&ids, "b"));
    assert!(pos(&ids, "a") < pos(&ids, "c"));
    assert!(pos(&ids, "b") < pos(&ids, "d"));
    assert!(pos(&ids, "c") < pos(&ids, "d"));
}

#[test]
fn build_dedupes_duplicate_dep() {
    let graph = graph(&[("b", &["a", "a"]), ("a", &[])]);
    assert_eq!(
        graph.edge_count(),
        1,
        "duplicate dep must not add a parallel edge"
    );
    assert_eq!(order(graph.into_iter()), ["a", "b"]);
}

#[test]
fn build_rejects_duplicate_id() {
    match build(&[("build", &[]), ("build", &[])]) {
        Err(BuildError::DuplicateId(got)) => assert_eq!(got, id("build")),
        other => panic!("expected DuplicateId, got {:?}", other.map(|_| ())),
    }
}

#[test]
fn build_reports_first_duplicate_id() {
    match build(&[("a", &[]), ("b", &[]), ("b", &[]), ("a", &[])]) {
        Err(BuildError::DuplicateId(got)) => assert_eq!(got, id("b")),
        other => panic!("expected DuplicateId, got {:?}", other.map(|_| ())),
    }
}

#[test]
fn build_rejects_unknown_dep() {
    match build(&[("build", &["missing"])]) {
        Err(BuildError::UnknownDep(got)) => assert_eq!(got, id("missing")),
        other => panic!("expected UnknownDep, got {:?}", other.map(|_| ())),
    }
}

#[test]
fn build_duplicate_id_wins_over_unknown_dep() {
    assert!(matches!(
        build(&[("a", &["missing"]), ("a", &[])]),
        Err(BuildError::DuplicateId(_))
    ));
}

#[test]
fn build_rejects_self_dependency() {
    match build(&[("a", &["a"])]) {
        Err(BuildError::Cycle { command, dep }) => {
            assert_eq!(command, id("a"));
            assert_eq!(dep, id("a"));
        }
        other => panic!("expected Cycle, got {:?}", other.map(|_| ())),
    }
}

#[test]
fn build_rejects_two_node_cycle() {
    match build(&[("a", &["b"]), ("b", &["a"])]) {
        Err(BuildError::Cycle { command, dep }) => {
            assert_eq!(command, id("b"));
            assert_eq!(dep, id("a"));
        }
        other => panic!("expected Cycle, got {:?}", other.map(|_| ())),
    }
}

#[test]
fn build_rejects_longer_cycle() {
    assert!(matches!(
        build(&[("a", &["c"]), ("b", &["a"]), ("c", &["b"])]),
        Err(BuildError::Cycle { .. })
    ));
}

#[test]
fn queue_for_unknown_id_errors() {
    let graph = graph(&[("a", &[])]);
    match graph.queue_for(&[id("nope")]) {
        Err(UnknownCommand(got)) => assert_eq!(got, id("nope")),
        other => panic!("expected UnknownCommand, got {:?}", other.map(|_| ())),
    }
}

#[test]
fn queue_for_empty_ids_is_empty() {
    let graph = graph(&[("a", &[]), ("b", &[])]);
    let queue = graph.queue_for(&[]).unwrap();
    assert_eq!(queue.len(), 0);
}

#[test]
fn queue_for_single_command_without_deps() {
    let graph = graph(&[("a", &[]), ("b", &[])]);
    let queue = graph.queue_for(&[id("a")]).unwrap();
    assert_eq!(order(queue), ["a"]);
}

#[test]
fn queue_for_includes_transitive_deps_in_order() {
    let graph = graph(&[("c", &["b"]), ("b", &["a"]), ("a", &[]), ("unused", &[])]);
    let ids = order(graph.queue_for(&[id("c")]).unwrap());
    assert_eq!(ids, ["a", "b", "c"]);
    assert!(!ids.contains(&"unused".to_string()));
}

#[test]
fn queue_for_diamond_dedupes_shared_ancestor() {
    let graph = graph(&[("d", &["b", "c"]), ("b", &["a"]), ("c", &["a"]), ("a", &[])]);
    let ids = order(graph.queue_for(&[id("d")]).unwrap());
    assert_eq!(
        ids.len(),
        4,
        "shared ancestor `a` must appear once: {ids:?}"
    );
    assert!(pos(&ids, "a") < pos(&ids, "b"));
    assert!(pos(&ids, "a") < pos(&ids, "c"));
    assert!(pos(&ids, "b") < pos(&ids, "d"));
    assert!(pos(&ids, "c") < pos(&ids, "d"));
}

#[test]
fn queue_for_duplicate_input_ids_dedupes() {
    let graph = graph(&[("a", &[]), ("b", &["a"])]);
    let ids = order(graph.queue_for(&[id("b"), id("b")]).unwrap());
    assert_eq!(ids, ["a", "b"]);
}

#[test]
fn queue_for_multiple_targets_dedupes() {
    // `b` and `c` are independent targets that both depend on `a`.
    let graph = graph(&[("a", &[]), ("b", &["a"]), ("c", &["a"])]);
    let mut ids = order(graph.queue_for(&[id("b"), id("c")]).unwrap());
    ids.sort();
    assert_eq!(ids, ["a", "b", "c"]);
}

#[test]
fn queue_for_target_that_is_ancestor_of_another_target() {
    // `a` is itself a prerequisite of `c`; requesting both must not duplicate `a`.
    let graph = graph(&[("a", &[]), ("b", &["a"]), ("c", &["b"])]);
    let ids = order(graph.queue_for(&[id("c"), id("a")]).unwrap());
    assert_eq!(ids, ["a", "b", "c"]);
}

#[test]
fn queue_for_unknown_id_after_valid_ids_still_errors() {
    let graph = graph(&[("a", &[])]);
    assert!(graph.queue_for(&[id("a"), id("nope")]).is_err());
}

#[test]
fn queue_for_reports_first_unknown_id() {
    let graph = graph(&[("a", &[])]);
    match graph.queue_for(&[id("a"), id("x"), id("y")]) {
        Err(UnknownCommand(got)) => assert_eq!(got, id("x")),
        other => panic!("expected UnknownCommand, got {:?}", other.map(|_| ())),
    }
}

#[test]
fn into_iter_yields_every_command() {
    let graph = graph(&[("a", &[]), ("b", &["a"]), ("c", &[])]);
    let mut ids = order(graph.into_iter());
    ids.sort();
    assert_eq!(ids, ["a", "b", "c"]);
}

#[test]
fn into_iter_is_topologically_ordered() {
    let graph = graph(&[("c", &["b"]), ("b", &["a"]), ("a", &[])]);
    assert_eq!(order(graph.into_iter()), ["a", "b", "c"]);
}

#[test]
fn into_iter_keeps_blocks_whole() {
    let graph = graph(&[("b", &["a"]), ("a", &[])]);
    let mut queue = graph.into_iter();
    let first = queue.next().unwrap();
    assert_eq!(first.metadata.id, id("a"));
    assert_eq!(first.script, "echo \"a\"\n");
    assert_eq!(first.metadata.shell, "sh");
}

#[test]
fn queue_for_every_id_matches_into_iter() {
    let graph = graph(&[("d", &["b", "c"]), ("b", &["a"]), ("c", &["a"]), ("a", &[]), ("e", &[])]);
    let all: Vec<CommandId> = ["a", "b", "c", "d", "e"].iter().map(|s| id(s)).collect();
    let requested = order(graph.queue_for(&all).unwrap());
    let everything = order(graph.into_iter());
    assert_eq!(requested, everything);
}

#[test]
fn queue_reports_exact_len() {
    let graph = graph(&[("a", &[]), ("b", &["a"]), ("c", &["b"])]);
    let mut queue = graph.queue_for(&[id("c")]).unwrap();
    assert_eq!(queue.len(), 3);
    assert_eq!(queue.size_hint(), (3, Some(3)));
    queue.next();
    assert_eq!(queue.len(), 2);
}

#[test]
fn queue_next_after_end_is_none() {
    let graph = graph(&[("a", &[])]);
    let mut queue = graph.queue_for(&[id("a")]).unwrap();
    assert!(queue.next().is_some());
    assert!(queue.next().is_none());
    assert!(queue.is_empty());
}

#[test]
fn build_error_display_duplicate() {
    assert_eq!(
        BuildError::DuplicateId(id("build")).to_string(),
        "duplicate command id: build"
    );
}

#[test]
fn build_error_display_unknown_dep() {
    assert_eq!(
        BuildError::UnknownDep(id("gen")).to_string(),
        "unknown dependency: gen"
    );
}

#[test]
fn build_error_display_cycle() {
    assert_eq!(
        BuildError::Cycle {
            command: id("b"),
            dep: id("a")
        }
        .to_string(),
        "dependency cycle: a -> b"
    );
}

#[test]
fn unknown_command_display() {
    assert_eq!(UnknownCommand(id("x")).to_string(), "unknown command: x");
}

/// Assert that `ids` lists every command in `names` exactly once, with each
/// dependency in `deps` appearing before the command that requires it.
fn assert_topo(ids: &[String], deps: &[Vec<usize>], names: &[String]) {
    assert_eq!(ids.len(), names.len(), "every command once: {ids:?}");
    for (i, deps_i) in deps.iter().enumerate() {
        for &j in deps_i {
            assert!(
                pos(ids, &names[j]) < pos(ids, &names[i]),
                "{} must precede {} in {ids:?}",
                names[j],
                names[i],
            );
        }
    }
}

/// A small deterministic generator, so that the DAG cases below are fixed.
fn next_rand(state: &mut u64) -> u64 {
    *state = state.wrapping_mul(6364136223846793005).wrapping_add(1442695040888963407);
    *state >> 33
}

#[test]
fn random_dag_orders_dependencies_before_dependents() {
    let mut state = 7u64;
    for n in 1usize..12 {
        for _round in 0..8 {
            let names: Vec<String> = (0..n).map(|i| format!("c{i}")).collect();
            // Edge `(a, b)` means `b` depends on `a`; only `a < b` is kept, so the graph is
            // acyclic by construction.
            let mut deps: Vec<Vec<usize>> = vec![Vec::new(); n];
            let pairs = (next_rand(&mut state) as usize) % (n * n + 1);
            for _ in 0..pairs {
                let a = (next_rand(&mut state) as usize) % n;
                let b = (next_rand(&mut state) as usize) % n;
                if a < b {
                    deps[b].push(a);
                }
            }
            let mut insertion: Vec<usize> = (0..n).collect();
            let keys: Vec<u64> = (0..n).map(|_| next_rand(&mut state)).collect();
            insertion.sort_by_key(|&i| keys[i]);

            let mut builder = CommandGraphBuilder::new();
            for &i in &insertion {
                let dep_ids = deps[i].iter().map(|&j| id(&names[j])).collect();
                builder.add(block(&names[i]), dep_ids);
            }
            let graph = builder.build().expect("acyclic graph should build");

            let all_ids: Vec<CommandId> = names.iter().map(|s| id(s)).collect();
            assert_topo(&order(graph.queue_for(&all_ids).unwrap()), &deps, &names);
            assert_topo(&order(graph.into_iter()), &deps, &names);
        }
    }
}

/// `a` is `b` with some entries left out, the rest in order.
fn is_subsequence(a: &[String], b: &[String]) -> bool {
    let mut rest = b.iter();
    a.iter().all(|x| rest.any(|y| y == x))
}

#[test]
fn smaller_request_queue_is_subsequence_of_larger() {
    let specs: &[(&str, &[&str])] = &[
        ("fmt", &[]),
        ("lint", &["fmt"]),
        ("build", &["fmt"]),
        ("test", &["build"]),
        ("docs", &["build", "lint"]),
    ];
    let g = graph(specs);
    let small = order(g.queue_for(&[id("test")]).unwrap());
    let large = order(g.queue_for(&[id("docs"), id("test")]).unwrap());
    assert_eq!(small.len(), 3);
    assert_eq!(large.len(), 5);
    assert!(is_subsequence(&small, &large));
}

#[test]
fn registration_order_does_not_change_the_outcome() {
    let forward: &[(&str, &[&str])] = &[
        ("a", &[]),
        ("b", &["a"]),
        ("c", &["a", "b"]),
        ("d", &["c"]),
    ];
    let shuffled: &[(&str, &[&str])] = &[
        ("d", &["c"]),
        ("b", &["a"]),
        ("a", &[]),
        ("c", &["a", "b"]),
    ];
    let one = graph(forward);
    let two = graph(shuffled);
    assert_eq!(one.edge_count(), two.edge_count());
    let mut ids_one = order(one.into_iter());
    let mut ids_two = order(two.into_iter());
    for ids in [&ids_one, &ids_two] {
        assert!(pos(ids, "a") < pos(ids, "b"));
        assert!(pos(ids, "b") < pos(ids, "c"));
        assert!(pos(ids, "c") < pos(ids, "d"));
    }
    ids_one.sort();
    ids_two.sort();
    assert_eq!(ids_one, ids_two);

    let cyclic: &[(&str, &[&str])] = &[("a", &["b"]), ("b", &["a"])];
    let cyclic_swapped: &[(&str, &[&str])] = &[("b", &["a"]), ("a", &["b"])];
    assert!(build(cyclic).is_err());
    assert!(build(cyclic_swapped).is_err());
}

#[test]
fn running_a_built_graph_runs_each_command_once_after_its_deps() {
    let specs: &[(&str, &[&str])] = &[
        ("deploy", &["test", "build"]),
        ("test", &["build"]),
        ("build", &[]),
    ];
    let ids = order(graph(specs).into_iter());
    assert_eq!(ids.len(), 3);
    assert_eq!(ids, ["build", "test", "deploy"]);
}
