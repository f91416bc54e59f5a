use static_ldd::DepEntry;
use static_ldd::DepMap;
use static_ldd::FileSyms;
use static_ldd::needed_libraries;
use static_ldd::mapper::build_dependency_map;

fn file(id: u64, defined: &[&str], needed: &[&str]) -> FileSyms {
    FileSyms {
        id,
        defined: defined.iter().map(|s| s.to_string()).collect(),
        needed: needed.iter().map(|s| s.to_string()).collect(),
    }
}

fn rows(m: &DepMap) -> Vec<(u64, Vec<u64>)> {
    m.entries.iter().map(|e| (e.id, e.deps.clone())).collect()
}

fn graph(edges: &[(u64, &[u64])]) -> DepMap {
    DepMap {
        entries: edges
            .iter()
            .map(|(id, deps)| DepEntry { id: *id, deps: deps.to_vec() })
            .collect(),
    }
}

#[test]
fn one_definer_one_needer() {
    // file A (1) defines foo and needs nothing; B (2) needs foo
    let files = vec![file(1, &["foo"], &[]), file(2, &[], &["foo"])];
    let m = build_dependency_map(&files);
    assert_eq!(rows(&m), vec![(1, vec![]), (2, vec![1])]);
    let order = needed_libraries(&m, &vec![2]);
    assert_eq!(order, vec![1, 2]);
}

#[test]
fn empty_needs_empty_deps() {
    let files = vec![file(7, &["a", "b"], &[]), file(9, &["c"], &[])];
    let m = build_dependency_map(&files);
    assert_eq!(rows(&m), vec![(7, vec![]), (9, vec![])]);
}

#[test]
fn sole_definer_is_the_sole_dependency() {
    // disjoint defined sets; "x" lives in exactly one other file
    let files = vec![
        file(1, &["x"], &[]),
        file(2, &["y"], &["x"]),
        file(3, &["z"], &[]),
    ];
    let m = build_dependency_map(&files);
    assert_eq!(rows(&m), vec![(1, vec![]), (2, vec![1]), (3, vec![])]);
}

#[test]
fn ambiguous_symbol_keeps_all_definers() {
    // X (1) and Y (2) both define dup; Z (3) needs dup
    let files = vec![
        file(1, &["dup"], &[]),
        file(2, &["dup"], &[]),
        file(3, &[], &["dup"]),
    ];
    let m = build_dependency_map(&files);
    assert_eq!(rows(&m), vec![(1, vec![]), (2, vec![]), (3, vec![1, 2])]);
}

#[test]
fn candidates_skipped_once_one_is_committed() {
    // after dup commits both definers, a symbol defined by one of them
    // adds nothing new
    let files = vec![
        file(1, &["dup"], &[]),
        file(2, &["dup", "extra"], &[]),
        file(3, &[], &["dup", "extra"]),
    ];
    let m = build_dependency_map(&files);
    assert_eq!(rows(&m), vec![(1, vec![]), (2, vec![]), (3, vec![1, 2])]);
}

#[test]
fn unresolved_symbols_are_ignored() {
    let files = vec![file(4, &[], &["nowhere"])];
    let m = build_dependency_map(&files);
    assert_eq!(rows(&m), vec![(4, vec![])]);
}

#[test]
fn build_twice_same_result() {
    let files = vec![
        file(5, &["s1"], &["s2"]),
        file(3, &["s2"], &["s1", "s3"]),
        file(8, &["s3"], &[]),
    ];
    let m1 = build_dependency_map(&files);
    let m2 = build_dependency_map(&files);
    assert_eq!(rows(&m1), rows(&m2));
    assert_eq!(rows(&m1), vec![(3, vec![5, 8]), (5, vec![3]), (8, vec![])]);
}

#[test]
fn acyclic_order_puts_dependencies_first() {
    let m = graph(&[(1, &[2, 3]), (2, &[3]), (3, &[])]);
    let order = needed_libraries(&m, &vec![1]);
    assert_eq!(order, vec![3, 2, 1]);
    for (k, a) in order.iter().enumerate() {
        if let Some(e) = m.entries.iter().find(|e| e.id == *a) {
            for b in &e.deps {
                let j = order.iter().position(|x| x == b).unwrap();
                assert!(j < k);
            }
        }
    }
}

#[test]
fn cycle_terminates_each_node_once() {
    // A (1) and B (2) need each other
    let m = graph(&[(1, &[2]), (2, &[1])]);
    let order = needed_libraries(&m, &vec![1]);
    assert_eq!(order.len(), 2);
    assert!(order.contains(&1));
    assert!(order.contains(&2));
    let mut sorted = order.clone();
    sorted.sort();
    sorted.dedup();
    assert_eq!(sorted.len(), 2);
}

#[test]
fn unreachable_nodes_are_left_out() {
    let m = graph(&[(1, &[2]), (2, &[]), (9, &[2])]);
    let order = needed_libraries(&m, &vec![1]);
    assert_eq!(order, vec![2, 1]);
    assert!(!order.contains(&9));
}

#[test]
fn root_missing_from_graph_is_a_leaf() {
    let m = graph(&[(1, &[2]), (2, &[])]);
    let order = needed_libraries(&m, &vec![5]);
    assert_eq!(order, vec![5]);
}

#[test]
fn repeated_roots_emit_once() {
    let m = graph(&[(1, &[]), (2, &[1])]);
    let order = needed_libraries(&m, &vec![2, 2, 1]);
    assert_eq!(order, vec![1, 2]);
}

#[test]
fn order_twice_same_result() {
    let m = graph(&[(1, &[2, 3]), (2, &[3]), (3, &[1]), (9, &[])]);
    let roots = vec![1, 9];
    let first = needed_libraries(&m, &roots);
    let second = needed_libraries(&m, &roots);
    assert_eq!(first, second);
}

#[test]
fn no_roots_no_output() {
    let m = graph(&[(1, &[])]);
    let order = needed_libraries(&m, &vec![]);
    assert!(order.is_empty());
}

#[test]
fn full_pipeline_on_symbol_sets() {
    // a diamond: 10 needs from 11 and 12, both need from 13
    let files = vec![
        file(10, &[], &["left", "right"]),
        file(11, &["left"], &["base"]),
        file(12, &["right"], &["base"]),
        file(13, &["base"], &[]),
    ];
    let m = build_dependency_map(&files);
    assert_eq!(
        rows(&m),
        vec![(10, vec![11, 12]), (11, vec![13]), (12, vec![13]), (13, vec![])]
    );
    let order = needed_libraries(&m, &vec![10]);
    assert_eq!(order, vec![13, 11, 12, 10]);
}
