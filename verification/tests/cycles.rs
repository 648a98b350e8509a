use graph_analyser::find_cycles;

fn rels(input: &[(&str, &str, &str)]) -> Vec<(String, String, String)> {
    input
        .iter()
        .map(|(r, s, d)| (r.to_string(), s.to_string(), d.to_string()))
        .collect()
}

fn sorted(mut cycles: Vec<Vec<String>>) -> Vec<Vec<String>> {
    cycles.sort();
    cycles
}

fn expect(input: &[&[&str]]) -> Vec<Vec<String>> {
    let mut out: Vec<Vec<String>> = input
        .iter()
        .map(|c| c.iter().map(|s| s.to_string()).collect())
        .collect();
    out.sort();
    out
}

#[test]
fn empty_input_yields_no_cycles() {
    let got = find_cycles(vec![]).unwrap();
    assert!(got.is_empty());
}

#[test]
fn acyclic_chain_yields_no_cycles() {
    let got = find_cycles(rels(&[("r1", "A", "B"), ("r2", "B", "C")])).unwrap();
    assert!(got.is_empty());
}

#[test]
fn triangle_yields_one_canonical_cycle() {
    let got = find_cycles(rels(&[("r1", "A", "B"), ("r2", "B", "C"), ("r3", "C", "A")])).unwrap();
    assert_eq!(sorted(got), expect(&[&["r1", "r2", "r3"]]));
}

#[test]
fn triangle_canonical_start_is_smallest_identifier() {
    // The same triangle declared from another starting edge still begins at
    // the smallest identifier.
    let got = find_cycles(rels(&[("r3", "C", "A"), ("r2", "B", "C"), ("r1", "A", "B")])).unwrap();
    assert_eq!(sorted(got), expect(&[&["r1", "r2", "r3"]]));
}

#[test]
fn two_opposite_pairs_yield_two_cycles() {
    let got = find_cycles(rels(&[
        ("r1", "A", "B"),
        ("r2", "B", "A"),
        ("r3", "B", "C"),
        ("r4", "C", "B"),
    ]))
    .unwrap();
    assert_eq!(sorted(got), expect(&[&["r1", "r2"], &["r3", "r4"]]));
}

#[test]
fn self_loop_and_two_cycle() {
    let got =
        find_cycles(rels(&[("r1", "A", "A"), ("r2", "A", "B"), ("r3", "B", "A")])).unwrap();
    assert_eq!(sorted(got), expect(&[&["r1"], &["r2", "r3"]]));
}

#[test]
fn each_self_loop_edge_yields_one_cycle() {
    let got = find_cycles(rels(&[("r1", "A", "A"), ("r2", "A", "A")])).unwrap();
    assert_eq!(sorted(got), expect(&[&["r1"], &["r2"]]));
}

#[test]
fn self_loop_reported_independently_of_larger_cycles() {
    let got = find_cycles(rels(&[
        ("s", "A", "A"),
        ("r1", "A", "B"),
        ("r2", "B", "C"),
        ("r3", "C", "A"),
    ]))
    .unwrap();
    assert_eq!(sorted(got), expect(&[&["r1", "r2", "r3"], &["s"]]));
}

#[test]
fn two_cycles_sharing_a_node() {
    let got = find_cycles(rels(&[
        ("r1", "A", "B"),
        ("r2", "B", "A"),
        ("r3", "B", "C"),
        ("r4", "C", "A"),
    ]))
    .unwrap();
    assert_eq!(sorted(got), expect(&[&["r1", "r2"], &["r1", "r3", "r4"]]));
}

#[test]
fn opposite_edges_form_one_two_element_cycle() {
    // Direction is never collapsed: the pair of opposite edges is one
    // two-element cycle, not two cycles.
    let got = find_cycles(rels(&[("r1", "A", "B"), ("r2", "B", "A")])).unwrap();
    assert_eq!(sorted(got), expect(&[&["r1", "r2"]]));
}

#[test]
fn duplicate_ordered_pair_keeps_last_identifier() {
    // Two edges over the same ordered pair collapse to the most recently
    // supplied identifier in the translation.
    let got =
        find_cycles(rels(&[("m1", "A", "B"), ("m2", "A", "B"), ("q", "B", "A")])).unwrap();
    assert_eq!(sorted(got), expect(&[&["m2", "q"]]));
}

#[test]
fn dense_graph_finds_all_cycles() {
    // Complete directed graph on three nodes: 2 three-cycles, 3 two-cycles.
    let got = find_cycles(rels(&[
        ("ab", "A", "B"),
        ("ba", "B", "A"),
        ("bc", "B", "C"),
        ("cb", "C", "B"),
        ("ca", "C", "A"),
        ("ac", "A", "C"),
    ]))
    .unwrap();
    assert_eq!(
        sorted(got),
        expect(&[
            &["ab", "ba"],
            &["bc", "cb"],
            &["ac", "ca"],
            &["ab", "bc", "ca"],
            &["ac", "cb", "ba"],
        ])
    );
}
