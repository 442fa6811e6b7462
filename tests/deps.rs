use dodo::deps::DependencyGraph;
use dodo::error::{Error, UserError};
use dodo::target::{Target, Task};

fn task(cmd: &str) -> Task {
    Task {
        command: cmd.to_string(),
        working_dir: None,
    }
}

fn target(id: &str, deps: &[&str]) -> Target {
    Target {
        identifier: id.to_string(),
        deps: deps.iter().map(|d| d.to_string()).collect(),
        tasks: vec![task(id)],
        working_dir: None,
    }
}

fn bare_target(id: &str, deps: &[&str]) -> Target {
    Target {
        identifier: id.to_string(),
        deps: deps.iter().map(|d| d.to_string()).collect(),
        tasks: vec![],
        working_dir: None,
    }
}

fn ix(graph: &DependencyGraph, id: &str) -> usize {
    graph.index_of(&id.to_string()).unwrap()
}

fn marks(graph: &DependencyGraph, ids: &[&str]) -> Vec<bool> {
    let mut m = vec![false; graph.node_count()];
    for id in ids {
        m[ix(graph, id)] = true;
    }
    m
}

fn identifiers(targets: &[Target]) -> Vec<String> {
    targets.iter().map(|t| t.identifier.clone()).collect()
}

#[test]
fn test_get_task_sequence() {
    // the dependency graph:
    //
    //     a1      a2'
    //    /       /  \
    //   /       /    \
    // b1      b2      b3
    //        /       /
    //       /       /
    //     l1*     l2
    //
    // a2 is the target (')
    // l1 is marked as obsolete (*)
    // b2's and a2's tasks must be executed (in that order)
    let targets = vec![
        target("a1", &["b1"]),
        target("a2", &["b2", "b3"]),
        target("b2", &["l1"]),
        target("b3", &["l2"]),
    ];
    let graph = DependencyGraph::construct(targets).unwrap();

    let mut depth_map = vec![None; graph.node_count()];
    depth_map[ix(&graph, "a2")] = Some(0);
    depth_map[ix(&graph, "b2")] = Some(1);
    depth_map[ix(&graph, "b3")] = Some(1);
    depth_map[ix(&graph, "l1")] = Some(2);
    depth_map[ix(&graph, "l2")] = Some(2);

    let obsolete_leaf_nodes = marks(&graph, &["l1"]);
    let obsolete_targets = graph.find_obsolete_targets(&obsolete_leaf_nodes);
    let target_sequence = graph.sequence(&depth_map, &obsolete_targets).unwrap();
    let expected_target_sequence: Vec<String> = vec!["b2".into(), "a2".into()];

    assert_eq!(identifiers(&target_sequence), expected_target_sequence);
}

#[test]
fn test_find_obsolete_targets() {
    // the dependency graph:
    //
    //     a1      a2
    //    /  \       \
    //   /    \       \
    // b1      b2      b3
    //        /       /
    //       /       /
    //     l1*     l2*
    //
    // l1 and l2 are marked as obsolete
    // the function should find b2, a1, b3 & a2
    // but not b1
    let targets = vec![
        bare_target("a1", &["b1", "b2"]),
        bare_target("a2", &["b3"]),
        bare_target("b2", &["l1"]),
        bare_target("b3", &["l2"]),
    ];
    let graph = DependencyGraph::construct(targets).unwrap();
    let obsolete_leaf_nodes = marks(&graph, &["l1", "l2"]);

    let found_targets = graph.find_obsolete_targets(&obsolete_leaf_nodes);
    let expected_targets = marks(&graph, &["a1", "a2", "b2", "b3"]);

    assert_eq!(found_targets, expected_targets);
}

#[test]
fn test_generate_depth_map() {
    // depth is the length of the longest path from
    // the target node to the dependency; node i is target "i"
    let edges: &[(usize, usize)] = &[
        (0, 3), (0, 4),
        (1, 3), (1, 4), (1, 6),
        (2, 3), (2, 4),
        (3, 5), (3, 6), (3, 7),
        (4, 5), (4, 6), (4, 7),
        (7, 8),
        (8, 9),
    ];
    let names: Vec<String> = (0..10).map(|i| i.to_string()).collect();
    let targets: Vec<Target> = (0..10)
        .map(|i| Target {
            identifier: names[i].clone(),
            deps: edges
                .iter()
                .filter(|(a, _)| *a == i)
                .map(|(_, b)| names[*b].clone())
                .collect(),
            tasks: vec![],
            working_dir: None,
        })
        .collect();
    let graph = DependencyGraph::construct(targets).unwrap();
    for i in 0..10 {
        assert_eq!(ix(&graph, &names[i]), i);
    }

    let target = 1; // target
    let depth_map = graph.generate_depth_map(target);

    assert!(depth_map[0].is_none());
    assert!(depth_map[2].is_none());

    assert_eq!(depth_map[1], Some(0));
    assert_eq!(depth_map[3], Some(1));
    assert_eq!(depth_map[4], Some(1));
    assert_eq!(depth_map[5], Some(2));
    assert_eq!(depth_map[6], Some(2));
    assert_eq!(depth_map[7], Some(2));
    assert_eq!(depth_map[8], Some(3));
    assert_eq!(depth_map[9], Some(4));
}

#[test]
fn construct_places_targets_then_files() {
    let targets = vec![
        target("app", &["lib.o", "main.c"]),
        target("lib.o", &["lib.c", "lib.h"]),
        target("main.c", &[]),
    ];
    let graph = DependencyGraph::construct(targets).unwrap();
    assert_eq!(graph.node_count(), 5);
    assert_eq!(ix(&graph, "app"), 0);
    assert_eq!(ix(&graph, "lib.o"), 1);
    assert_eq!(ix(&graph, "main.c"), 2);
    assert_eq!(ix(&graph, "lib.c"), 3);
    assert_eq!(ix(&graph, "lib.h"), 4);
    assert_eq!(graph.index_of(&"missing".to_string()), None);
}

#[test]
fn construct_shares_a_file_named_twice() {
    let targets = vec![target("a", &["x", "x"]), target("b", &["x"])];
    let graph = DependencyGraph::construct(targets).unwrap();
    assert_eq!(graph.node_count(), 3);
    assert_eq!(ix(&graph, "x"), 2);
}

#[test]
fn construct_of_no_targets_is_empty() {
    let graph = DependencyGraph::construct(vec![]).unwrap();
    assert_eq!(graph.node_count(), 0);
}

#[test]
fn construct_rejects_duplicate_target() {
    let targets = vec![target("a", &["b"]), target("b", &[]), target("a", &[])];
    let r = DependencyGraph::construct(targets);
    assert!(matches!(r, Err(Error::UserError(UserError::DuplicateTarget))));
}

#[test]
fn construct_reports_duplicate_before_cycle() {
    let targets = vec![target("a", &["a"]), target("a", &[])];
    let r = DependencyGraph::construct(targets);
    assert!(matches!(r, Err(Error::UserError(UserError::DuplicateTarget))));
}

#[test]
fn construct_rejects_self_dependency() {
    let r = DependencyGraph::construct(vec![target("a", &["a"])]);
    assert!(matches!(r, Err(Error::UserError(UserError::DependencyCycle))));
}

#[test]
fn construct_rejects_two_target_cycle() {
    let r = DependencyGraph::construct(vec![target("a", &["b"]), target("b", &["a"])]);
    assert!(matches!(r, Err(Error::UserError(UserError::DependencyCycle))));
}

#[test]
fn construct_rejects_long_cycle() {
    let targets = vec![
        target("a", &["b", "f"]),
        target("b", &["c"]),
        target("c", &["d"]),
        target("d", &["a"]),
    ];
    let r = DependencyGraph::construct(targets);
    assert!(matches!(r, Err(Error::UserError(UserError::DependencyCycle))));
}

#[test]
fn construct_accepts_diamond() {
    let targets = vec![
        target("top", &["left", "right"]),
        target("left", &["base"]),
        target("right", &["base"]),
        target("base", &["src"]),
    ];
    assert!(DependencyGraph::construct(targets).is_ok());
}

#[test]
fn depth_map_takes_longest_path() {
    // top needs base directly and through mid
    let targets = vec![
        target("top", &["base", "mid"]),
        target("mid", &["base"]),
        target("base", &[]),
    ];
    let graph = DependencyGraph::construct(targets).unwrap();
    let depth_map = graph.generate_depth_map(ix(&graph, "top"));
    assert_eq!(depth_map, vec![Some(0), Some(1), Some(2)]);
}

#[test]
fn depth_grows_along_every_edge_below_root() {
    let targets = vec![
        target("a", &["b", "c", "d"]),
        target("b", &["c"]),
        target("c", &["d", "f"]),
        target("e", &["a"]),
    ];
    let graph = DependencyGraph::construct(targets).unwrap();
    let root = ix(&graph, "a");
    let depth_map = graph.generate_depth_map(root);
    assert_eq!(depth_map[root], Some(0));
    assert_eq!(depth_map[ix(&graph, "e")], None);
    let edges = [("a", "b"), ("a", "c"), ("a", "d"), ("b", "c"), ("c", "d"), ("c", "f")];
    for (x, y) in edges {
        let dx = depth_map[ix(&graph, x)].unwrap();
        let dy = depth_map[ix(&graph, y)].unwrap();
        assert!(dy > dx, "{} -> {}", x, y);
    }
}

#[test]
fn obsolete_targets_grow_with_more_changes() {
    let targets = vec![
        target("a", &["x"]),
        target("b", &["y"]),
        target("c", &["a", "b"]),
    ];
    let graph = DependencyGraph::construct(targets).unwrap();
    let some = graph.find_obsolete_targets(&marks(&graph, &["x"]));
    let more = graph.find_obsolete_targets(&marks(&graph, &["x", "y"]));
    assert_eq!(some, marks(&graph, &["a", "c"]));
    assert_eq!(more, marks(&graph, &["a", "b", "c"]));
    for i in 0..graph.node_count() {
        assert!(!some[i] || more[i]);
    }
}

#[test]
fn obsolete_target_seed_counts_itself() {
    let targets = vec![target("a", &["b"]), target("b", &[]), target("c", &[])];
    let graph = DependencyGraph::construct(targets).unwrap();
    let found = graph.find_obsolete_targets(&marks(&graph, &["b"]));
    assert_eq!(found, marks(&graph, &["a", "b"]));
}

#[test]
fn leaf_nodes_are_sinks() {
    let targets = vec![target("a", &["b", "f"]), target("b", &[]), target("c", &["a"])];
    let graph = DependencyGraph::construct(targets).unwrap();
    let leaves = graph.find_obsolete_leaf_nodes().unwrap();
    assert_eq!(leaves, marks(&graph, &["b", "f"]));
}

#[test]
fn sequence_puts_dependencies_first() {
    let targets = vec![
        target("a", &["b", "c"]),
        target("b", &["c", "f"]),
        target("c", &["g"]),
        target("d", &["a"]),
    ];
    let graph = DependencyGraph::construct(targets).unwrap();
    let seq = graph.get_target_sequence("a".to_string()).unwrap();
    assert_eq!(identifiers(&seq), vec!["c", "b", "a"]);
}

#[test]
fn sequence_orders_equal_depths_by_index() {
    let targets = vec![
        target("top", &["q", "p"]),
        target("p", &["x"]),
        target("q", &["y"]),
    ];
    let graph = DependencyGraph::construct(targets).unwrap();
    let seq = graph.get_target_sequence("top".to_string()).unwrap();
    assert_eq!(identifiers(&seq), vec!["p", "q", "top"]);
}

#[test]
fn sequence_rejects_a_plain_file() {
    let targets = vec![target("a", &["f"])];
    let graph = DependencyGraph::construct(targets).unwrap();
    let depth_map = graph.generate_depth_map(0);
    let r = graph.sequence(&depth_map, &marks(&graph, &["a", "f"]));
    assert!(matches!(r, Err(Error::Internal { .. })));
}

#[test]
fn sequence_keeps_whole_targets() {
    let targets = vec![Target {
        identifier: "out".to_string(),
        deps: vec!["in".to_string()],
        tasks: vec![
            Task {
                command: "cc in".to_string(),
                working_dir: Some("src".to_string()),
            },
            task("strip out"),
        ],
        working_dir: Some("build".to_string()),
    }];
    let graph = DependencyGraph::construct(targets).unwrap();
    let seq = graph.get_target_sequence("out".to_string()).unwrap();
    assert_eq!(seq.len(), 1);
    assert_eq!(seq[0].identifier, "out");
    assert_eq!(seq[0].deps, vec!["in".to_string()]);
    assert_eq!(seq[0].working_dir(), Some("build"));
    assert_eq!(seq[0].tasks[0].working_dir(), Some("src"));
    assert_eq!(seq[0].tasks[1], task("strip out"));
}

#[test]
fn sequence_for_a_plain_file_is_empty() {
    let graph = DependencyGraph::construct(vec![target("a", &["f"])]).unwrap();
    let seq = graph.get_target_sequence("f".to_string()).unwrap();
    assert!(seq.is_empty());
}

#[test]
fn unknown_root_is_no_such_target() {
    let graph = DependencyGraph::construct(vec![target("a", &["b"])]).unwrap();
    match graph.get_target_sequence("zzz".to_string()) {
        Err(Error::UserError(UserError::NoSuchTarget(id))) => assert_eq!(id, "zzz"),
        other => panic!("unexpected result: {:?}", other),
    }
}
