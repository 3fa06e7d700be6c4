//! The basic-block aggregator: one pass over the nodes in id order, merging
//! each node that has exactly one predecessor into that predecessor's current
//! representative, when the representative's snapshot out-degree is one.
//!
//! Eligibility consults only the pre-pass snapshot of predecessor and
//! successor lists; the union-find forest resolves representatives, so chains
//! longer than two collapse in the single pass.

use std::collections::HashMap;
use vstd::prelude::*;

use crate::graph::ControlFlowGraph;
use crate::graph::edges_without;
use crate::uf::disjoint_find;
use crate::uf::lemma_uf_link_root;
use crate::uf::lemma_uf_link_wf;
use crate::uf::lemma_uf_root_props;
use crate::uf::lemma_uf_wf_intro;
use crate::uf::uf_root;
use crate::uf::uf_wf;

verus! {

/// The ids with an edge into `v`.
pub open spec fn pred_set(edges: Map<(usize, usize), u64>, v: usize) -> Set<usize> {
    Set::new(|p: usize| edges.dom().contains((p, v)))
}

/// The ids with an edge out of `v`.
pub open spec fn succ_set(edges: Map<(usize, usize), u64>, v: usize) -> Set<usize> {
    Set::new(|q: usize| edges.dom().contains((v, q)))
}

/// The identity forest over `s`: every id is its own representative.
pub open spec fn ident_forest(s: Set<usize>) -> Map<usize, usize> {
    Map::new(|x: usize| s.contains(x), |x: usize| x)
}

/// The representative that `v` would merge into: its sole snapshot
/// predecessor, resolved through the current representative map.
pub open spec fn merge_rep(
    edges0: Map<(usize, usize), u64>,
    root: Map<usize, usize>,
    v: usize,
) -> usize {
    root[choose|p: usize| pred_set(edges0, v) == set![p]]
}

/// Eligibility of `v`, judged against the snapshot `edges0` and the current
/// representative map: exactly one snapshot predecessor, whose representative
/// has exactly one snapshot successor and is not `v` itself (the self-merge
/// guard).
pub open spec fn merges(edges0: Map<(usize, usize), u64>, root: Map<usize, usize>, v: usize) -> bool {
    &&& exists|p: usize| pred_set(edges0, v) == set![p]
    &&& (exists|w: usize| succ_set(edges0, merge_rep(edges0, root, v)) == set![w])
    &&& merge_rep(edges0, root, v) != v
}

/// One aggregation step on the state (nodes, edges, representative map): if
/// `v` is eligible, it is removed, its address list is appended to its
/// representative's, its edges are dropped, and ids represented by `v` are
/// redirected.
pub open spec fn agg_step(
    st: (Map<usize, Seq<u64>>, Map<(usize, usize), u64>, Map<usize, usize>),
    edges0: Map<(usize, usize), u64>,
    v: usize,
) -> (Map<usize, Seq<u64>>, Map<(usize, usize), u64>, Map<usize, usize>) {
    if merges(edges0, st.2, v) {
        let r = merge_rep(edges0, st.2, v);
        (
            st.0.remove(v).insert(r, st.0[r] + st.0[v]),
            edges_without(st.1, v),
            Map::new(
                |x: usize| st.2.dom().contains(x),
                |x: usize|
                    if st.2[x] == v {
                        r
                    } else {
                        st.2[x]
                    },
            ),
        )
    } else {
        st
    }
}

/// The aggregation state after the first `i` nodes of `ids` were considered,
/// starting from the built graph (`nodes0`, `edges0`) and the identity forest.
pub open spec fn agg_iter(
    nodes0: Map<usize, Seq<u64>>,
    edges0: Map<(usize, usize), u64>,
    ids: Seq<usize>,
    i: int,
) -> (Map<usize, Seq<u64>>, Map<(usize, usize), u64>, Map<usize, usize>)
    decreases i,
{
    if i <= 0 {
        (nodes0, edges0, ident_forest(nodes0.dom()))
    } else {
        agg_step(agg_iter(nodes0, edges0, ids, i - 1), edges0, ids[i - 1])
    }
}

/// What aggregation leaves of a graph: the node and edge contents after the
/// single pass over `ids`, the increasing enumeration of the node ids.
pub open spec fn spec_aggregate(
    nodes0: Map<usize, Seq<u64>>,
    edges0: Map<(usize, usize), u64>,
    ids: Seq<usize>,
) -> (Map<usize, Seq<u64>>, Map<(usize, usize), u64>) {
    let st = agg_iter(nodes0, edges0, ids, ids.len() as int);
    (st.0, st.1)
}

/// `ids` enumerates `s` in strictly increasing order.
pub open spec fn is_id_enum(s: Set<usize>, ids: Seq<usize>) -> bool {
    &&& forall|i: int, j: int| 0 <= i < j < ids.len() ==> ids[i] < ids[j]
    &&& forall|x: usize| #[trigger] ids.contains(x) <==> s.contains(x)
}

/// The current representative of every id in the forest, fully resolved.
pub open spec fn roots_of(m: Map<usize, usize>) -> Map<usize, usize> {
    Map::new(|x: usize| m.dom().contains(x), |x: usize| uf_root(m, x))
}

/// A graph nothing more can be merged in: no node is eligible against its own
/// snapshot with the identity forest.
pub open spec fn settled(nodes: Map<usize, Seq<u64>>, edges: Map<(usize, usize), u64>) -> bool {
    forall|v: usize| #[trigger]
        nodes.dom().contains(v) ==> !merges(edges, ident_forest(nodes.dom()), v)
}

/// There is only one strictly increasing enumeration of a set of ids.
pub proof fn lemma_id_enum_unique(s: Set<usize>, a: Seq<usize>, b: Seq<usize>)
    requires
        is_id_enum(s, a),
        is_id_enum(s, b),
    ensures
        a == b,
    decreases a.len(),
{
    if a.len() == 0 {
        if b.len() > 0 {
            assert(b.contains(b[0]));
            assert(a.contains(b[0]));
        }
        assert(a =~= b);
    } else {
        assert(a.contains(a[0]));
        assert(b.contains(a[0]));
        assert(b.contains(b[0]));
        assert(a.contains(b[0]));
        let ja = choose|j: int| 0 <= j < a.len() && a[j] == b[0];
        let jb = choose|j: int| 0 <= j < b.len() && b[j] == a[0];
        assert(a[0] <= a[ja] && b[0] <= b[jb]);
        assert(a[0] == b[0]);
        let a1 = a.drop_first();
        let b1 = b.drop_first();
        let s1 = s.remove(a[0]);
        assert forall|x: usize| #[trigger] a1.contains(x) implies s1.contains(x) by {
            let i = choose|i: int| 0 <= i < a1.len() && a1[i] == x;
            assert(a[i + 1] == x);
            assert(a.contains(x));
            assert(a[0] < a[i + 1]);
        }
        assert forall|x: usize| s1.contains(x) implies #[trigger] a1.contains(x) by {
            assert(a.contains(x));
            let i = choose|i: int| 0 <= i < a.len() && a[i] == x;
            assert(i != 0);
            assert(a1[i - 1] == x);
        }
        assert forall|x: usize| #[trigger] b1.contains(x) implies s1.contains(x) by {
            let i = choose|i: int| 0 <= i < b1.len() && b1[i] == x;
            assert(b[i + 1] == x);
            assert(b.contains(x));
            assert(b[0] < b[i + 1]);
        }
        assert forall|x: usize| s1.contains(x) implies #[trigger] b1.contains(x) by {
            assert(b.contains(x));
            let i = choose|i: int| 0 <= i < b.len() && b[i] == x;
            assert(i != 0);
            assert(b1[i - 1] == x);
        }
        assert(is_id_enum(s1, a1));
        assert(is_id_enum(s1, b1));
        lemma_id_enum_unique(s1, a1, b1);
        assert(a =~= b) by {
            assert(a.len() == b.len());
            assert forall|i: int| 0 < i < a.len() implies a[i] == b[i] by {
                assert(a1[i - 1] == b1[i - 1]);
            }
        }
    }
}

/// On a settled graph every step of the pass declines, so the state never
/// leaves (`nodes0`, `edges0`, identity).
proof fn lemma_agg_iter_settled(
    nodes0: Map<usize, Seq<u64>>,
    edges0: Map<(usize, usize), u64>,
    ids: Seq<usize>,
    i: int,
)
    requires
        settled(nodes0, edges0),
        is_id_enum(nodes0.dom(), ids),
        0 <= i <= ids.len(),
    ensures
        agg_iter(nodes0, edges0, ids, i) == (nodes0, edges0, ident_forest(nodes0.dom())),
    decreases i,
{
    if i > 0 {
        lemma_agg_iter_settled(nodes0, edges0, ids, i - 1);
        let v = ids[i - 1];
        assert(ids.contains(v));
        assert(nodes0.dom().contains(v));
        assert(!merges(edges0, ident_forest(nodes0.dom()), v));
    }
}

/// Merge linear chains of the graph into maximal basic blocks, in place.
///
/// First the predecessor and successor lists of every node are snapshotted
/// and the union-find forest is set to the identity; then the nodes are
/// walked in increasing id order, and each eligible node is removed and its
/// address list appended to its representative's.  The result is exactly the
/// single pass that `spec_aggregate` describes over the snapshot.
#[verifier::loop_isolation(false)]
#[verifier::rlimit(60)]
pub fn aggregate(g: &mut ControlFlowGraph)
    requires
        old(g).wf(),
    ensures
        final(g).wf(),
        forall|ids: Seq<usize>| #[trigger]
            is_id_enum(old(g).nodes().dom(), ids) ==> (final(g).nodes(), final(g).edges())
                == spec_aggregate(old(g).nodes(), old(g).edges(), ids),
{
    let ghost nodes0 = g.nodes();
    let ghost edges0 = g.edges();
    let ids = g.node_ids();
    let ghost idseq = ids@;

    let mut preds_map: HashMap<usize, Vec<usize>> = HashMap::new();
    let mut succs_map: HashMap<usize, Vec<usize>> = HashMap::new();
    let mut forest: HashMap<usize, usize> = HashMap::new();

    for k in 0..ids.len()
        invariant
            forest@.dom().finite(),
            forall|v: usize| #[trigger]
                forest@.dom().contains(v) <==> idseq.take(k as int).contains(v),
            forall|v: usize| #[trigger] forest@.dom().contains(v) ==> forest@[v] == v,
            preds_map@.dom() == forest@.dom(),
            succs_map@.dom() == forest@.dom(),
            forall|v: usize| #[trigger]
                preds_map@.dom().contains(v) ==> preds_map@[v]@.no_duplicates() && (forall|
                    p: usize,
                |
                    #[trigger] preds_map@[v]@.contains(p) <==> edges0.dom().contains((p, v))),
            forall|v: usize| #[trigger]
                succs_map@.dom().contains(v) ==> succs_map@[v]@.no_duplicates() && (forall|
                    q: usize,
                |
                    #[trigger] succs_map@[v]@.contains(q) <==> edges0.dom().contains((v, q))),
    {
        let v = ids[k];
        let pv = g.in_neighbors(v);
        let sv = g.out_neighbors(v);
        let ghost fdom_pre = forest@.dom();
        preds_map.insert(v, pv);
        succs_map.insert(v, sv);
        forest.insert(v, v);
        proof {
            assert forall|x: usize| #[trigger]
                forest@.dom().contains(x) implies idseq.take(k + 1).contains(x) by {
                if x == v {
                    assert(idseq.take(k + 1)[k as int] == x);
                } else {
                    assert(fdom_pre.contains(x));
                    let i = choose|i: int|
                        0 <= i < idseq.take(k as int).len() && idseq.take(k as int)[i] == x;
                    assert(idseq.take(k + 1)[i] == x);
                }
            }
            assert forall|x: usize|
                idseq.take(k + 1).contains(x) implies #[trigger] forest@.dom().contains(x) by {
                let i = choose|i: int| 0 <= i < idseq.take(k + 1).len() && #[trigger] idseq.take(k + 1)[i] == x;
                if i < k as int {
                    assert(idseq.take(k as int)[i] == x);
                    assert(idseq.take(k as int).contains(x));
                } else {
                    assert(x == idseq[k as int]);
                }
            }
            assert(preds_map@.dom() =~= forest@.dom());
            assert(succs_map@.dom() =~= forest@.dom());
        }
    }

    proof {
        assert(idseq.take(idseq.len() as int) =~= idseq);
        assert(forest@.dom() =~= nodes0.dom());
        lemma_uf_wf_intro(forest@);
        assert forall|x: usize| #[trigger] forest@.dom().contains(x) implies uf_root(forest@, x)
            == x by {
            assert(forest@[x] == x);
        }
        assert(roots_of(forest@) =~= ident_forest(nodes0.dom()));
        assert(agg_iter(nodes0, edges0, idseq, 0) == (
            nodes0,
            edges0,
            ident_forest(nodes0.dom()),
        ));
    }

    for k in 0..ids.len()
        invariant
            uf_wf(forest@),
            forest@.dom() == nodes0.dom(),
            forall|y: usize| #[trigger]
                forest@.dom().contains(y) && forest@[y] != y ==> idseq.take(k as int).contains(y),
            g.nodes() == agg_iter(nodes0, edges0, idseq, k as int).0,
            g.edges() == agg_iter(nodes0, edges0, idseq, k as int).1,
            roots_of(forest@) == agg_iter(nodes0, edges0, idseq, k as int).2,
            forall|j: int| k as int <= j < idseq.len() ==> g.nodes().dom().contains(#[trigger] idseq[j]),
            forall|y: usize| #[trigger]
                forest@.dom().contains(y) ==> g.nodes().dom().contains(uf_root(forest@, y)),
            g.wf(),
    {
        let v = ids[k];
        let ghost st = agg_iter(nodes0, edges0, idseq, k as int);
        proof {
            assert(idseq[k as int] == v);
            assert(idseq.contains(v));
            assert(nodes0.dom().contains(v));
            assert(agg_iter(nodes0, edges0, idseq, k + 1) == agg_step(st, edges0, v));
        }
        let ins = preds_map.get(&v).unwrap();
        if ins.len() == 1 {
            let p = ins[0];
            proof {
                assert(preds_map@[v]@[0] == p);
                assert(preds_map@[v]@.contains(p));
                assert(edges0.dom().contains((p, v)));
                assert(nodes0.dom().contains(p));
                assert forall|q: usize| #[trigger]
                    pred_set(edges0, v).contains(q) implies set![p].contains(q) by {
                    assert(edges0.dom().contains((q, v)));
                    assert(preds_map@[v]@.contains(q));
                    let i = choose|i: int|
                        0 <= i < preds_map@[v]@.len() && preds_map@[v]@[i] == q;
                    assert(i == 0);
                }
                assert(pred_set(edges0, v).contains(p));
                assert(pred_set(edges0, v) =~= set![p]);
            }
            let ghost f0 = forest@;
            let r = disjoint_find(&mut forest, p);
            proof {
                // compression changes no representative and creates no new
                // non-root
                assert(roots_of(forest@) =~= roots_of(f0));
                assert forall|y: usize| #[trigger]
                    forest@.dom().contains(y) && forest@[y] != y implies idseq.take(
                    k as int,
                ).contains(y) by {
                    if f0[y] == y {
                        assert(forest@[y] == r);
                        assert(r != y);
                        assert(uf_root(f0, y) == y);
                        assert(forest@[r] == r);
                        assert(uf_root(forest@, r) == r);
                        assert(uf_root(forest@, y) == r);
                        assert(uf_root(forest@, y) == uf_root(f0, y));
                    }
                }
                assert(st.2[p] == uf_root(f0, p));
                assert(r == st.2[p]);
                lemma_uf_root_props(f0, p);
                assert(succs_map@.dom().contains(r));
            }
            let outs = succs_map.get(&r).unwrap();
            if outs.len() == 1 && r != v {
                proof {
                    let w0 = outs@[0];
                    assert(succs_map@[r]@.contains(w0));
                    assert forall|q: usize| #[trigger]
                        succ_set(edges0, r).contains(q) implies set![w0].contains(q) by {
                        assert(edges0.dom().contains((r, q)));
                        assert(succs_map@[r]@.contains(q));
                        let i = choose|i: int|
                            0 <= i < succs_map@[r]@.len() && succs_map@[r]@[i] == q;
                        assert(i == 0);
                    }
                    assert(succ_set(edges0, r).contains(w0));
                    assert(succ_set(edges0, r) =~= set![w0]);
                    // v is eligible, and its representative is r
                    assert(pred_set(edges0, v) == set![p]);
                    let p2 = choose|q: usize| pred_set(edges0, v) == set![q];
                    assert(set![p2].contains(p2));
                    assert(p2 == p);
                    assert(merge_rep(edges0, st.2, v) == r);
                    assert(merges(edges0, st.2, v));
                }
                let ghost f1 = forest@;
                forest.insert(v, r);
                let w = g.remove_node(v);
                g.append_node(r, w);
                proof {
                    // v was still a root: non-roots are processed ids, all
                    // smaller than v
                    assert(!idseq.take(k as int).contains(v)) by {
                        if idseq.take(k as int).contains(v) {
                            let j = choose|j: int|
                                0 <= j < idseq.take(k as int).len() && idseq.take(k as int)[j]
                                    == v;
                            assert(idseq[j] == idseq[k as int]);
                        }
                    }
                    assert(f1[v] == v);
                    assert(f1[r] == r);
                    assert forall|y: usize| #[trigger]
                        f1.dom().contains(y) && f1[y] == v && y != v implies y < v by {
                        assert(idseq.take(k as int).contains(y));
                        let j = choose|j: int|
                            0 <= j < idseq.take(k as int).len() && idseq.take(k as int)[j] == y;
                        assert(idseq[j] == y && idseq[k as int] == v);
                    }
                    lemma_uf_link_wf(f1, v, r);
                    assert(forest@ == f1.insert(v, r));
                    assert forall|y: usize| #[trigger] forest@.dom().contains(y) implies uf_root(
                        forest@,
                        y,
                    ) == (if uf_root(f1, y) == v {
                        r
                    } else {
                        uf_root(f1, y)
                    }) by {
                        lemma_uf_link_root(f1, v, r, y);
                    }
                    assert(roots_of(forest@) =~= agg_step(st, edges0, v).2);
                    // the graph now matches the next fold state
                    assert(st.0.remove(v)[r] == st.0[r]);
                    assert(g.nodes() =~= agg_step(st, edges0, v).0);
                    assert(g.edges() == agg_step(st, edges0, v).1);
                    // survivors, live roots, well-formedness
                    assert forall|y: usize| #[trigger]
                        forest@.dom().contains(y) && forest@[y] != y implies idseq.take(
                        k + 1,
                    ).contains(y) by {
                        if y == v {
                            assert(idseq.take(k + 1)[k as int] == v);
                        } else {
                            assert(f1[y] != y);
                            assert(idseq.take(k as int).contains(y));
                            let j = choose|j: int|
                                0 <= j < idseq.take(k as int).len() && idseq.take(k as int)[j]
                                    == y;
                            assert(idseq.take(k + 1)[j] == y);
                        }
                    }
                    assert forall|j: int|
                        k + 1 <= j < idseq.len() implies g.nodes().dom().contains(
                        #[trigger] idseq[j],
                    ) by {
                        assert(idseq[j] != v);
                        assert(st.0.dom().contains(idseq[j]));
                    }
                    assert forall|y: usize| #[trigger]
                        forest@.dom().contains(y) implies g.nodes().dom().contains(
                        uf_root(forest@, y),
                    ) by {
                        if uf_root(f1, y) == v {
                            assert(uf_root(forest@, y) == r);
                        } else {
                            assert(uf_root(forest@, y) == uf_root(f1, y));
                            assert(st.0.dom().contains(uf_root(f1, y)));
                        }
                    }
                }
            } else {
                proof {
                    if merges(edges0, st.2, v) {
                        assert(pred_set(edges0, v) == set![p]);
                        let p2 = choose|q: usize| pred_set(edges0, v) == set![q];
                        assert(set![p2].contains(p2));
                        assert(p2 == p);
                        assert(merge_rep(edges0, st.2, v) == r);
                        assert(r != v);
                        let w0 = choose|w: usize| succ_set(edges0, r) == set![w];
                        succs_map@[r]@.unique_seq_to_set();
                        assert(succs_map@[r]@.to_set() =~= succ_set(edges0, r));
                        assert(set![w0].contains(w0));
                        assert(set![w0].len() == 1);
                        assert(succs_map@[r]@.len() == 1);
                    }
                    assert(agg_iter(nodes0, edges0, idseq, k + 1) == st);
                    assert(roots_of(forest@) == st.2) by {
                        assert(roots_of(forest@) =~= roots_of(f0));
                    }
                    assert forall|y: usize| #[trigger]
                        forest@.dom().contains(y) && forest@[y] != y implies idseq.take(
                        k + 1,
                    ).contains(y) by {
                        assert(idseq.take(k as int).contains(y));
                        let j = choose|j: int|
                            0 <= j < idseq.take(k as int).len() && idseq.take(k as int)[j] == y;
                        assert(idseq.take(k + 1)[j] == y);
                    }
                    assert forall|y: usize| #[trigger]
                        forest@.dom().contains(y) implies g.nodes().dom().contains(
                        uf_root(forest@, y),
                    ) by {
                        assert(uf_root(forest@, y) == uf_root(f0, y));
                    }
                }
            }
        } else {
            proof {
                if merges(edges0, st.2, v) {
                    let p2 = choose|q: usize| pred_set(edges0, v) == set![q];
                    preds_map@[v]@.unique_seq_to_set();
                    assert(preds_map@[v]@.to_set() =~= pred_set(edges0, v));
                    assert(set![p2].contains(p2));
                    assert(set![p2].len() == 1);
                    assert(preds_map@[v]@.len() == 1);
                }
                assert(agg_iter(nodes0, edges0, idseq, k + 1) == st);
                assert forall|y: usize| #[trigger]
                    forest@.dom().contains(y) && forest@[y] != y implies idseq.take(
                    k + 1,
                ).contains(y) by {
                    assert(idseq.take(k as int).contains(y));
                    let j = choose|j: int|
                        0 <= j < idseq.take(k as int).len() && idseq.take(k as int)[j] == y;
                    assert(idseq.take(k + 1)[j] == y);
                }
            }
        }
    }

    proof {
        assert(idseq.take(idseq.len() as int) =~= idseq);
        assert((g.nodes(), g.edges()) == spec_aggregate(nodes0, edges0, idseq));
        assert(is_id_enum(nodes0.dom(), idseq));
        assert forall|ids2: Seq<usize>| #[trigger]
            is_id_enum(nodes0.dom(), ids2) implies (g.nodes(), g.edges()) == spec_aggregate(
            nodes0,
            edges0,
            ids2,
        ) by {
            lemma_id_enum_unique(nodes0.dom(), ids2, idseq);
        }
    }
}

/// Aggregating a settled graph is a no-op.  Together with the aggregator's
/// contract this is idempotence on settled graphs; a first pass can leave a
/// graph unsettled, so idempotence does not hold of every graph.
pub proof fn lemma_aggregate_settled(
    nodes0: Map<usize, Seq<u64>>,
    edges0: Map<(usize, usize), u64>,
    ids: Seq<usize>,
)
    requires
        settled(nodes0, edges0),
        is_id_enum(nodes0.dom(), ids),
    ensures
        spec_aggregate(nodes0, edges0, ids) == (nodes0, edges0),
{
    lemma_agg_iter_settled(nodes0, edges0, ids, ids.len() as int);
}

} // verus!
