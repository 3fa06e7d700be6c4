//! The worklist CFG builder: one node per reachable instruction address.

use std::collections::HashMap;
use vstd::prelude::*;

use crate::disasm::Disassembler;
use crate::disasm::finite_closure;
use crate::disasm::last_tag;
use crate::disasm::lemma_reachable_in_closed;
use crate::disasm::lemma_reaches_self;
use crate::disasm::lemma_reaches_step;
use crate::disasm::lists_target;
use crate::disasm::reaches;
use crate::disasm::step;
use crate::disasm::step_closed;
use crate::graph::ControlFlowGraph;

verus! {

/// The address index is a bijection between indexed addresses and the live
/// nodes, each node holding exactly its one address.
spec fn index_bijection(g: ControlFlowGraph, idx: Map<u64, usize>) -> bool {
    &&& forall|x: u64| #[trigger]
        idx.dom().contains(x) ==> g.nodes().dom().contains(idx[x]) && g.nodes()[idx[x]] == seq![x]
    &&& forall|id: usize| #[trigger]
        g.nodes().dom().contains(id) ==> g.nodes()[id].len() == 1 && idx.dom().contains(
            g.nodes()[id].first(),
        ) && idx[g.nodes()[id].first()] == id
}

/// Address `x` has been fully expanded: each of its successors is indexed and
/// the corresponding out-edge is in the graph.
spec fn expanded<D: Disassembler>(d: D, g: ControlFlowGraph, idx: Map<u64, usize>, x: u64) -> bool {
    forall|k: int|
        0 <= k < d.spec_next(x).len() ==> {
            let b = (#[trigger] d.spec_next(x)[k]).0;
            idx.dom().contains(b) && g.edges().dom().contains((idx[x], idx[b]))
        }
}

/// Edge `e` joins live nodes, its target is listed in `l`, and its tag is the
/// tag of the last entry of `l` for that target.
spec fn edge_matches(g: ControlFlowGraph, e: (usize, usize), l: Seq<(u64, u64)>) -> bool {
    &&& g.nodes().dom().contains(e.0)
    &&& g.nodes().dom().contains(e.1)
    &&& lists_target(l, g.nodes()[e.1].first())
    &&& g.edges()[e] == last_tag(l, g.nodes()[e.1].first())
}

/// The part of the builder's loop invariant that inner and outer loop share.
spec fn core_inv<D: Disassembler>(
    d: D,
    entry: u64,
    s: Set<u64>,
    g: ControlFlowGraph,
    idx: Map<u64, usize>,
    stk: Seq<u64>,
) -> bool {
    &&& idx.dom().contains(entry)
    &&& idx.dom().finite()
    &&& g.nodes().dom().finite()
    &&& idx.dom().len() <= s.len()
    &&& forall|x: u64| #[trigger] idx.dom().contains(x) ==> s.contains(x) && reaches(d, entry, x)
    &&& index_bijection(g, idx)
    &&& forall|i: int| 0 <= i < stk.len() ==> idx.dom().contains(#[trigger] stk[i])
    &&& stk.no_duplicates()
}

/// Build the control-flow graph of the code reachable from `entry` under the
/// oracle `disasm`: one node per reachable address, holding exactly that
/// address, and one edge per ordered node pair that the oracle connects,
/// tagged by the last oracle entry for that successor.
///
/// The precondition asks for exactly what termination needs: a finite
/// step-closed address set around `entry`; on it the worklist provably
/// empties.
#[verifier::loop_isolation(false)]
pub fn build_simple_cfg<D: Disassembler>(disasm: &D, entry: u64) -> (g: ControlFlowGraph)
    requires
        finite_closure(*disasm, entry),
    ensures
        g.wf(),
        g.nodes().dom().finite(),
        forall|id: usize| #[trigger]
            g.nodes().dom().contains(id) ==> g.nodes()[id].len() == 1 && reaches(
                *disasm,
                entry,
                g.nodes()[id].first(),
            ),
        forall|a: u64| #[trigger]
            reaches(*disasm, entry, a) ==> exists|id: usize|
                #[trigger] g.nodes().dom().contains(id) && g.nodes()[id] == seq![a],
        forall|i: usize, j: usize|
            g.nodes().dom().contains(i) && g.nodes().dom().contains(j) && #[trigger] g.nodes()[i]
                == #[trigger] g.nodes()[j] ==> i == j,
        forall|i: usize, j: usize| #[trigger]
            g.edges().dom().contains((i, j)) <==> (g.nodes().dom().contains(i)
                && g.nodes().dom().contains(j) && step(
                *disasm,
                g.nodes()[i].first(),
                g.nodes()[j].first(),
            )),
        forall|i: usize, j: usize| #[trigger]
            g.edges().dom().contains((i, j)) ==> g.edges()[(i, j)] == last_tag(
                disasm.spec_next(g.nodes()[i].first()),
                g.nodes()[j].first(),
            ),
{
    let ghost d = *disasm;
    let ghost s = choose|s: Set<u64>|
        s.finite() && s.contains(entry) && #[trigger] step_closed(d, s);
    proof {
        lemma_reaches_self(d, entry);
    }

    let mut g = ControlFlowGraph::empty();
    let mut index: HashMap<u64, usize> = HashMap::new();
    let mut stack: Vec<u64> = Vec::new();

    let mut w0: Vec<u64> = Vec::new();
    w0.push(entry);
    let entry_id = g.add_node(w0);
    index.insert(entry, entry_id);
    stack.push(entry);

    proof {
        assert(w0@ =~= seq![entry]);
        assert(index@.dom() =~= Set::empty().insert(entry));
        vstd::set_lib::lemma_len_subset(index@.dom(), s);
        assert(stack@[0] == entry);
        assert(stack@.contains(entry));
    }

    while stack.len() > 0
        invariant
            core_inv(d, entry, s, g, index@, stack@),
            forall|x: u64| #[trigger]
                index@.dom().contains(x) && !stack@.contains(x) ==> expanded(d, g, index@, x),
            forall|e: (usize, usize)| #[trigger]
                g.edges().dom().contains(e) ==> edge_matches(
                    g,
                    e,
                    d.spec_next(g.nodes()[e.0].first()),
                ) && !stack@.contains(g.nodes()[e.0].first()),
        decreases s.len() + stack@.len() - index@.dom().len(),
    {
        let ghost stk_pre = stack@;
        let a = stack.pop().unwrap();
        proof {
            assert(stk_pre.last() == a);
            assert(!stack@.contains(a)) by {
                if stack@.contains(a) {
                    let i = choose|i: int| 0 <= i < stack@.len() && stack@[i] == a;
                    assert(stk_pre[i] == stk_pre[stk_pre.len() - 1]);
                }
            }
        }
        let ia = *index.get(&a).unwrap();
        let nexts = disasm.next_address(a);
        let ghost m0 = s.len() + stack@.len() - index@.dom().len();

        proof {
            // no edge leaves `a`'s node yet: its source address would have to
            // be off the stack, but `a` was just on it
            assert forall|e: (usize, usize)| #[trigger]
                g.edges().dom().contains(e) implies e.0 != ia by {
                if e.0 == ia {
                    assert(g.nodes()[ia] == seq![a]);
                    assert(g.nodes()[e.0].first() == a);
                    assert(stk_pre.contains(a));
                }
            }
            // what was expanded stays expanded: off the new stack and not `a`
            // means off the old stack
            assert forall|x: u64|
                index@.dom().contains(x) && !stack@.contains(x) && x != a implies expanded(
                d,
                g,
                index@,
                x,
            ) by {
                if stk_pre.contains(x) {
                    let i = choose|i: int| 0 <= i < stk_pre.len() && stk_pre[i] == x;
                    if i < stk_pre.len() - 1 {
                        assert(stack@[i] == x);
                        assert(stack@.contains(x));
                    } else {
                        assert(x == a);
                    }
                }
            }
        }

        for k in 0..nexts.len()
            invariant
                core_inv(d, entry, s, g, index@, stack@),
                index@.dom().contains(a),
                index@[a] == ia,
                !stack@.contains(a),
                nexts@ == d.spec_next(a),
                s.len() + stack@.len() - index@.dom().len() == m0,
                forall|x: u64| #[trigger]
                    index@.dom().contains(x) && !stack@.contains(x) && x != a ==> expanded(
                        d,
                        g,
                        index@,
                        x,
                    ),
                forall|kk: int|
                    0 <= kk < k ==> {
                        let b = (#[trigger] nexts@[kk]).0;
                        index@.dom().contains(b) && g.edges().dom().contains((ia, index@[b]))
                    },
                forall|e: (usize, usize)| #[trigger]
                    g.edges().dom().contains(e) ==> if e.0 == ia {
                        edge_matches(g, e, nexts@.take(k as int))
                    } else {
                        edge_matches(g, e, d.spec_next(g.nodes()[e.0].first())) && !stack@.contains(
                            g.nodes()[e.0].first(),
                        )
                    },
        {
            let ghost idx0 = index@;
            let ghost stk0 = stack@;
            let ghost g0 = g;
            let (b, t) = nexts[k];
            proof {
                assert(d.spec_next(a)[k as int].0 == b);
                assert(step(d, a, b));
                lemma_reaches_step(d, entry, a, b);
            }
            let ib: usize;
            if index.contains_key(&b) {
                ib = *index.get(&b).unwrap();
            } else {
                let mut wb: Vec<u64> = Vec::new();
                wb.push(b);
                proof {
                    assert(wb@ =~= seq![b]);
                }
                ib = g.add_node(wb);
                let ghost idom_pre = index@.dom();
                index.insert(b, ib);
                stack.push(b);
                proof {
                    assert(s.contains(b));
                    assert(index@.dom() =~= idom_pre.insert(b));
                    vstd::set_lib::lemma_len_subset(index@.dom(), s);
                }
            }
            let ghost g_pre = g;
            g.update_edge(ia, ib, t);
            proof {
                assert(nexts@.take(k + 1).drop_last() =~= nexts@.take(k as int));
                assert(nexts@.take(k + 1).last() == nexts@[k as int]);
                assert(g.nodes()[ib] == seq![b]);
                assert forall|e: (usize, usize)| #[trigger]
                    g.edges().dom().contains(e) && e.0 == ia implies edge_matches(
                    g,
                    e,
                    nexts@.take(k + 1),
                ) by {
                    if e.1 == ib {
                        assert(g.edges()[e] == t);
                        assert(last_tag(nexts@.take(k + 1), b) == t);
                        assert(lists_target(nexts@.take(k + 1), b)) by {
                            assert(nexts@.take(k + 1)[k as int] == nexts@[k as int]);
                        }
                    } else {
                        assert(g_pre.edges().dom().contains(e));
                        assert(edge_matches(g_pre, e, nexts@.take(k as int)));
                        let bt = g.nodes()[e.1].first();
                        assert(bt != b) by {
                            if bt == b {
                                assert(index@[bt] == e.1);
                                assert(index@[b] == ib);
                            }
                        }
                        assert(last_tag(nexts@.take(k + 1), bt) == last_tag(
                            nexts@.take(k as int),
                            bt,
                        ));
                        assert(lists_target(nexts@.take(k + 1), bt)) by {
                            let kk = choose|kk: int|
                                0 <= kk < nexts@.take(k as int).len() && (#[trigger] nexts@.take(
                                    k as int,
                                )[kk]).0 == bt;
                            assert(nexts@.take(k + 1)[kk].0 == bt);
                        }
                    }
                }
                // expansion of already-processed addresses survives the growth
                // of index, stack and edge map
                if stack@.len() > stk0.len() {
                    assert(stack@ == stk0.push(b));
                    assert(stack@.last() == b);
                    assert(stack@.contains(b));
                }
                assert forall|x: u64|
                    index@.dom().contains(x) && !stack@.contains(x) && x != a implies expanded(
                    d,
                    g,
                    index@,
                    x,
                ) by {
                    assert(x != b || !stack@.contains(b));
                    assert(idx0.dom().contains(x));
                    assert(!stk0.contains(x)) by {
                        if stk0.contains(x) {
                            let i = choose|i: int| 0 <= i < stk0.len() && stk0[i] == x;
                            assert(stack@[i] == x);
                        }
                    }
                    assert(expanded(d, g0, idx0, x));
                    assert forall|k2: int| 0 <= k2 < d.spec_next(x).len() implies {
                        let b2 = (#[trigger] d.spec_next(x)[k2]).0;
                        index@.dom().contains(b2) && g.edges().dom().contains(
                            (index@[x], index@[b2]),
                        )
                    } by {
                        let b2 = (d.spec_next(x)[k2]).0;
                        assert(idx0.dom().contains(b2) && g0.edges().dom().contains(
                            (idx0[x], idx0[b2]),
                        ));
                        assert(index@[x] == idx0[x] && index@[b2] == idx0[b2]);
                    }
                }
            }
        }
        proof {
            assert(nexts@.take(nexts@.len() as int) =~= nexts@);
            assert(expanded(d, g, index@, a));
        }
    }

    proof {
        let idom = index@.dom();
        assert(step_closed(d, idom)) by {
            assert forall|x: u64, b: u64| #![trigger idom.contains(x), step(d, x, b)]
                idom.contains(x) && step(d, x, b) implies idom.contains(b) by {
                let k = choose|k: int|
                    0 <= k < d.spec_next(x).len() && (#[trigger] d.spec_next(x)[k]).0 == b;
                assert(expanded(d, g, index@, x));
                assert((d.spec_next(x)[k]).0 == b);
            }
        }
        assert forall|a: u64| #[trigger] reaches(d, entry, a) implies exists|id: usize|
            #[trigger] g.nodes().dom().contains(id) && g.nodes()[id] == seq![a] by {
            lemma_reachable_in_closed(d, idom, entry, a);
            assert(g.nodes().dom().contains(index@[a]) && g.nodes()[index@[a]] == seq![a]);
        }
        assert forall|i: usize, j: usize| #[trigger]
            g.edges().dom().contains((i, j)) implies (g.nodes().dom().contains(i)
            && g.nodes().dom().contains(j) && step(
            d,
            g.nodes()[i].first(),
            g.nodes()[j].first(),
        )) by {
            assert(edge_matches(g, (i, j), d.spec_next(g.nodes()[i].first())));
        }
        assert forall|i: usize, j: usize|
            g.nodes().dom().contains(i) && g.nodes().dom().contains(j) && step(
                d,
                g.nodes()[i].first(),
                g.nodes()[j].first(),
            ) implies #[trigger] g.edges().dom().contains((i, j)) by {
            let x = g.nodes()[i].first();
            let bt = g.nodes()[j].first();
            assert(index@.dom().contains(x) && index@[x] == i);
            assert(expanded(d, g, index@, x));
            let k = choose|k: int|
                0 <= k < d.spec_next(x).len() && (#[trigger] d.spec_next(x)[k]).0 == bt;
            assert(index@[bt] == j);
        }
    }
    g
}

} // verus!
