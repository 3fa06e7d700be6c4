use std::collections::HashMap;

use cfg_blocks::ControlFlowGraph;
use cfg_blocks::TableOracle;
use cfg_blocks::aggregate;
use cfg_blocks::build_simple_cfg;
use cfg_blocks::disjoint_find;

fn oracle(entries: &[(u64, &[(u64, u64)])]) -> TableOracle {
    let mut d = TableOracle::new();
    for (addr, succs) in entries {
        d.set_next(*addr, succs.to_vec());
    }
    d
}

fn node_weights(g: &ControlFlowGraph) -> Vec<Vec<u64>> {
    let mut out = Vec::new();
    for id in g.node_ids() {
        out.push(g.node_addrs(id).unwrap());
    }
    out
}

fn sorted_edges(g: &ControlFlowGraph) -> Vec<(usize, usize, u64)> {
    let mut e = g.edge_triples();
    e.sort();
    e
}

fn id_of(g: &ControlFlowGraph, addrs: &[u64]) -> usize {
    for id in g.node_ids() {
        if g.node_addrs(id).unwrap() == addrs {
            return id;
        }
    }
    panic!("no node holds {:?}", addrs);
}

#[test]
fn build_terminal_no_successors() {
    let d = oracle(&[(7, &[])]);
    let g = build_simple_cfg(&d, 7);
    assert_eq!(node_weights(&g), vec![vec![7]]);
    assert_eq!(g.edge_triples().len(), 0);
}

#[test]
fn build_unrecorded_entry_is_terminal() {
    let d = oracle(&[]);
    let g = build_simple_cfg(&d, 42);
    assert_eq!(node_weights(&g), vec![vec![42]]);
    assert_eq!(g.edge_triples().len(), 0);
}

#[test]
fn build_self_loop_single_node() {
    let d = oracle(&[(5, &[(5, 77)])]);
    let g = build_simple_cfg(&d, 5);
    let ids = g.node_ids();
    assert_eq!(ids.len(), 1);
    let a = ids[0];
    assert_eq!(g.node_addrs(a).unwrap(), vec![5]);
    assert_eq!(g.edge_triples(), vec![(a, a, 77)]);
}

#[test]
fn build_edge_overwrite_keeps_last_tag() {
    let d = oracle(&[(1, &[(2, 5), (2, 9)]), (2, &[])]);
    let g = build_simple_cfg(&d, 1);
    assert_eq!(g.node_ids().len(), 2);
    let i = id_of(&g, &[1]);
    let j = id_of(&g, &[2]);
    assert_eq!(g.edge_triples(), vec![(i, j, 9)]);
}

#[test]
fn build_coverage_and_no_duplicate_addresses() {
    // 1 -> 2 and 1 -> 3, 2 -> 3: address 3 is reached twice but gets one node;
    // address 99 is recorded but unreachable and gets none
    let d = oracle(&[
        (1, &[(2, 0), (3, 0)]),
        (2, &[(3, 1)]),
        (3, &[]),
        (99, &[(1, 0)]),
    ]);
    let g = build_simple_cfg(&d, 1);
    let mut seen = node_weights(&g);
    seen.sort();
    assert_eq!(seen, vec![vec![1], vec![2], vec![3]]);
    assert_eq!(g.edge_triples().len(), 3);
}

#[test]
fn build_diamond_four_nodes_four_edges() {
    let d = oracle(&[
        (1, &[(2, 10), (3, 11)]),
        (2, &[(4, 12)]),
        (3, &[(4, 13)]),
        (4, &[]),
    ]);
    let g = build_simple_cfg(&d, 1);
    assert_eq!(g.node_ids().len(), 4);
    let a = id_of(&g, &[1]);
    let b = id_of(&g, &[2]);
    let c = id_of(&g, &[3]);
    let dd = id_of(&g, &[4]);
    let mut expect = vec![(a, b, 10), (a, c, 11), (b, dd, 12), (c, dd, 13)];
    expect.sort();
    assert_eq!(sorted_edges(&g), expect);
}

#[test]
fn aggregate_diamond_does_not_merge() {
    let d = oracle(&[
        (1, &[(2, 10), (3, 11)]),
        (2, &[(4, 12)]),
        (3, &[(4, 13)]),
        (4, &[]),
    ]);
    let mut g = build_simple_cfg(&d, 1);
    let edges_before = sorted_edges(&g);
    aggregate(&mut g);
    assert_eq!(g.node_ids().len(), 4);
    assert_eq!(sorted_edges(&g), edges_before);
}

#[test]
fn aggregate_linear_chain_merges_to_one_block() {
    let d = oracle(&[(1, &[(2, 0)]), (2, &[(3, 0)]), (3, &[(4, 0)]), (4, &[])]);
    let mut g = build_simple_cfg(&d, 1);
    assert_eq!(g.node_ids().len(), 4);
    aggregate(&mut g);
    assert_eq!(node_weights(&g), vec![vec![1, 2, 3, 4]]);
    assert_eq!(g.edge_triples().len(), 0);
}

#[test]
fn aggregate_self_merge_guard() {
    // the entry is its own sole predecessor: the merge must be skipped, not
    // crash or duplicate the address
    let d = oracle(&[(1, &[(1, 3)])]);
    let mut g = build_simple_cfg(&d, 1);
    aggregate(&mut g);
    let ids = g.node_ids();
    assert_eq!(ids.len(), 1);
    let a = ids[0];
    assert_eq!(g.node_addrs(a).unwrap(), vec![1]);
    assert_eq!(g.edge_triples(), vec![(a, a, 3)]);
}

#[test]
fn aggregate_twice_equals_once_on_chain() {
    let d = oracle(&[(1, &[(2, 0)]), (2, &[(3, 0)]), (3, &[])]);
    let mut g = build_simple_cfg(&d, 1);
    aggregate(&mut g);
    let nodes_once: Vec<(usize, Vec<u64>)> =
        g.node_ids().into_iter().map(|i| (i, g.node_addrs(i).unwrap())).collect();
    let edges_once = sorted_edges(&g);
    aggregate(&mut g);
    let nodes_twice: Vec<(usize, Vec<u64>)> =
        g.node_ids().into_iter().map(|i| (i, g.node_addrs(i).unwrap())).collect();
    assert_eq!(nodes_once, nodes_twice);
    assert_eq!(edges_once, sorted_edges(&g));
}

#[test]
fn aggregate_absorbs_through_representative_snapshot() {
    // 1 -> 2, 2 -> {3, 4}: node 2 merges into 1 first, and 3 and 4 then check
    // the snapshot out-degree of the representative 1 (which is one), so both
    // are absorbed as well -- eligibility reads the representative's original
    // out-edges, not the merged block's
    let d = oracle(&[(1, &[(2, 0)]), (2, &[(3, 0), (4, 0)]), (3, &[]), (4, &[])]);
    let mut g = build_simple_cfg(&d, 1);
    assert_eq!(g.node_ids().len(), 4);
    aggregate(&mut g);
    assert_eq!(node_weights(&g), vec![vec![1, 2, 3, 4]]);
    assert_eq!(g.edge_triples().len(), 0);
}

#[test]
fn aggregate_keeps_entry_edge_of_unmerged_head() {
    // 1 -> {2, 3}, 2 -> 4, 3 -> 4, 4 -> 5: only 5 can merge, into 4; the
    // diamond stays, and removing 5 drops the edge 4 -> 5
    let d = oracle(&[
        (1, &[(2, 1), (3, 2)]),
        (2, &[(4, 3)]),
        (3, &[(4, 4)]),
        (4, &[(5, 5)]),
        (5, &[]),
    ]);
    let mut g = build_simple_cfg(&d, 1);
    assert_eq!(g.node_ids().len(), 5);
    aggregate(&mut g);
    let mut seen = node_weights(&g);
    seen.sort();
    assert_eq!(seen, vec![vec![1], vec![2], vec![3], vec![4, 5]]);
    assert_eq!(g.edge_triples().len(), 4);
}

#[test]
fn aggregate_second_pass_can_merge_further() {
    // 0 -> {1, 3}, 1 -> 2, 2 -> 4, 3 -> 4: the first pass merges 2 into 1 and
    // thereby drops the edge 2 -> 4, leaving 4 with the sole predecessor 3;
    // only a second pass merges 4 into 3.  Eligibility reads the frozen
    // pre-pass snapshot, so one pass is not always a fixed point: that is why
    // the no-op guarantee is stated for settled graphs only.
    let d = oracle(&[
        (0, &[(1, 0), (3, 0)]),
        (1, &[(2, 0)]),
        (2, &[(4, 0)]),
        (3, &[(4, 0)]),
        (4, &[]),
    ]);
    let mut g = build_simple_cfg(&d, 0);
    assert_eq!(g.node_ids().len(), 5);
    aggregate(&mut g);
    let mut once = node_weights(&g);
    once.sort();
    assert_eq!(once, vec![vec![0], vec![1, 2], vec![3], vec![4]]);
    assert_eq!(g.edge_triples().len(), 3);
    aggregate(&mut g);
    let mut twice = node_weights(&g);
    twice.sort();
    assert_eq!(twice, vec![vec![0], vec![1, 2], vec![3, 4]]);
    assert_eq!(g.edge_triples().len(), 2);
}

#[test]
fn disjoint_find_returns_root_and_compresses() {
    let mut forest: HashMap<usize, usize> = HashMap::new();
    forest.insert(3, 3);
    forest.insert(2, 3);
    forest.insert(1, 2);
    let r = disjoint_find(&mut forest, 1);
    assert_eq!(r, 3);
    assert_eq!(forest[&1], 3);
    assert_eq!(forest[&2], 3);
    assert_eq!(disjoint_find(&mut forest, 3), 3);
}
