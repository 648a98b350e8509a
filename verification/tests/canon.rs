use graph_analyser::canon::canonicalize;
use graph_analyser::cycles::cycle_to_ids;
use graph_analyser::edges::Edge;
use graph_analyser::order::min_index;

fn ids(input: &[&str]) -> Vec<String> {
    input.iter().map(|s| s.to_string()).collect()
}

#[test]
fn canonicalize_rotates_smallest_first() {
    assert_eq!(canonicalize(&ids(&["b", "c", "a"])), ids(&["a", "b", "c"]));
}

#[test]
fn canonicalize_is_idempotent() {
    let once = canonicalize(&ids(&["r2", "r3", "r1"]));
    let twice = canonicalize(&once);
    assert_eq!(twice, once);
}

#[test]
fn canonicalize_is_rotation_invariant() {
    let a = canonicalize(&ids(&["r1", "r2", "r3"]));
    let b = canonicalize(&ids(&["r2", "r3", "r1"]));
    let c = canonicalize(&ids(&["r3", "r1", "r2"]));
    assert_eq!(a, b);
    assert_eq!(b, c);
    assert_eq!(a, ids(&["r1", "r2", "r3"]));
}

#[test]
fn canonicalize_rotates_never_reverses() {
    assert_eq!(canonicalize(&ids(&["c", "b", "a"])), ids(&["a", "c", "b"]));
}

#[test]
fn canonicalize_keeps_singleton() {
    assert_eq!(canonicalize(&ids(&["only"])), ids(&["only"]));
}

#[test]
fn canonicalize_keeps_empty() {
    assert_eq!(canonicalize(&ids(&[])), ids(&[]));
}

#[test]
fn canonicalize_ties_keep_first_occurrence() {
    // With a repeated smallest identifier, the rotation starts at its first
    // occurrence.
    assert_eq!(
        canonicalize(&ids(&["b", "a", "c", "a"])),
        ids(&["a", "c", "a", "b"])
    );
}

#[test]
fn min_index_finds_smallest() {
    assert_eq!(min_index(&ids(&["b", "a", "c"])), 1);
}

#[test]
fn min_index_first_occurrence_wins() {
    assert_eq!(min_index(&ids(&["b", "a", "a"])), 1);
}

#[test]
fn cycle_to_ids_translates_pairs() {
    let edges = vec![
        Edge { id: "r1".to_string(), src: 0, dst: 1 },
        Edge { id: "r2".to_string(), src: 1, dst: 0 },
    ];
    let got = cycle_to_ids(&edges, &vec![0, 1]).unwrap();
    assert_eq!(got, ids(&["r1", "r2"]));
}

#[test]
fn cycle_to_ids_last_duplicate_wins() {
    let edges = vec![
        Edge { id: "old".to_string(), src: 0, dst: 1 },
        Edge { id: "new".to_string(), src: 0, dst: 1 },
        Edge { id: "back".to_string(), src: 1, dst: 0 },
    ];
    let got = cycle_to_ids(&edges, &vec![0, 1]).unwrap();
    assert_eq!(got, ids(&["new", "back"]));
}

#[test]
fn cycle_to_ids_missing_pair_fails() {
    let edges = vec![Edge { id: "r1".to_string(), src: 0, dst: 1 }];
    let err = cycle_to_ids(&edges, &vec![1, 0]).unwrap_err();
    assert_eq!(err.src, 1);
    assert_eq!(err.dst, 0);
    assert_eq!(err.message(), "Edge not found in relationship map".to_string());
}
