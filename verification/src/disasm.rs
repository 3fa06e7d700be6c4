//! The address-successor oracle that drives graph construction.

use std::collections::HashMap;
use vstd::prelude::*;

verus! {

/// An address-successor oracle: for one instruction address it names the
/// immediate control-flow successors, in order, each with the tag of the edge
/// that reaches it (branch taken, fallthrough, ...).  Implementors state their
/// successor relation as `spec_next` and prove `next_address` against it.
pub trait Disassembler: Sized {
    /// The successor list of `addr`, as the implementor defines it.
    spec fn spec_next(&self, addr: u64) -> Seq<(u64, u64)>;

    /// The executable successor lookup, faithful to `spec_next`.
    fn next_address(&self, addr: u64) -> (r: Vec<(u64, u64)>)
        ensures
            r@ == self.spec_next(addr),
    ;
}

/// `b` occurs as a target in the successor list `l`.
pub open spec fn lists_target(l: Seq<(u64, u64)>, b: u64) -> bool {
    exists|k: int| 0 <= k < l.len() && (#[trigger] l[k]).0 == b
}

/// The tag of the last entry of `l` whose target is `b` (the builder lets
/// later duplicate entries overwrite earlier ones).
pub open spec fn last_tag(l: Seq<(u64, u64)>, b: u64) -> u64
    decreases l.len(),
{
    if l.len() == 0 {
        0
    } else if l.last().0 == b {
        l.last().1
    } else {
        last_tag(l.drop_last(), b)
    }
}

/// One oracle step: `b` occurs among the successors of `a`.
pub open spec fn step<D: Disassembler>(d: D, a: u64, b: u64) -> bool {
    lists_target(d.spec_next(a), b)
}

/// `p` is a non-empty walk in which each address steps to the next.
pub open spec fn is_path<D: Disassembler>(d: D, p: Seq<u64>) -> bool {
    p.len() >= 1 && forall|i: int| 0 <= i < p.len() - 1 ==> step(d, #[trigger] p[i], p[i + 1])
}

/// `dst` can be reached from `src` by following oracle steps.
pub open spec fn reaches<D: Disassembler>(d: D, src: u64, dst: u64) -> bool {
    exists|p: Seq<u64>| is_path(d, p) && p.first() == src && p.last() == dst
}

/// `s` is closed under oracle steps.
pub open spec fn step_closed<D: Disassembler>(d: D, s: Set<u64>) -> bool {
    forall|a: u64, b: u64| #![trigger s.contains(a), step(d, a, b)]
        s.contains(a) && step(d, a, b) ==> s.contains(b)
}

/// The addresses reachable from `entry` form a finite set.  This is the
/// builder's termination precondition: some finite step-closed set holds
/// `entry`, and with it every reachable address.
pub open spec fn finite_closure<D: Disassembler>(d: D, entry: u64) -> bool {
    exists|s: Set<u64>| s.finite() && s.contains(entry) && #[trigger] step_closed(d, s)
}

/// A table-driven oracle: each address maps to its recorded successor list,
/// and an unrecorded address has none (a terminal instruction).  Because its
/// table is finite, any entry address has a finite reachable closure.
pub struct TableOracle {
    table: HashMap<u64, Vec<(u64, u64)>>,
}

impl TableOracle {
    /// The recorded successor lists.
    pub closed spec fn entries(&self) -> Map<u64, Seq<(u64, u64)>> {
        Map::new(|a: u64| self.table@.dom().contains(a), |a: u64| self.table@[a]@)
    }

    /// An oracle with no recorded addresses.
    pub fn new() -> (r: TableOracle)
        ensures
            r.entries() == Map::<u64, Seq<(u64, u64)>>::empty(),
    {
        let r = TableOracle { table: HashMap::new() };
        proof {
            assert(r.entries() =~= Map::<u64, Seq<(u64, u64)>>::empty());
        }
        r
    }

    /// Record the successor list of `addr`, replacing any earlier one.
    pub fn set_next(&mut self, addr: u64, succs: Vec<(u64, u64)>)
        ensures
            final(self).entries() == old(self).entries().insert(addr, succs@),
    {
        let ghost pre = self.entries();
        self.table.insert(addr, succs);
        proof {
            assert(self.entries() =~= pre.insert(addr, succs@));
        }
    }
}

impl Disassembler for TableOracle {
    closed spec fn spec_next(&self, addr: u64) -> Seq<(u64, u64)> {
        if self.entries().dom().contains(addr) {
            self.entries()[addr]
        } else {
            Seq::empty()
        }
    }

    fn next_address(&self, addr: u64) -> (r: Vec<(u64, u64)>)
        ensures
            r@ == self.spec_next(addr),
    {
        match self.table.get(&addr) {
            Some(v) => {
                let mut out: Vec<(u64, u64)> = Vec::new();
                let mut i: usize = 0;
                while i < v.len()
                    invariant
                        i <= v.len(),
                        out@ == v@.take(i as int),
                    decreases v.len() - i,
                {
                    out.push(v[i]);
                    i = i + 1;
                    proof {
                        assert(v@.take(i as int).drop_last() =~= v@.take(i - 1));
                        assert(out@ =~= v@.take(i as int));
                    }
                }
                proof {
                    assert(v@.take(v@.len() as int) =~= v@);
                }
                out
            },
            None => Vec::new(),
        }
    }
}

/// Every address is reachable from itself.
pub proof fn lemma_reaches_self<D: Disassembler>(d: D, a: u64)
    ensures
        reaches(d, a, a),
{
    let p = seq![a];
    assert(is_path(d, p) && p.first() == a && p.last() == a);
}

/// Reachability extends along one oracle step.
pub proof fn lemma_reaches_step<D: Disassembler>(d: D, src: u64, a: u64, b: u64)
    requires
        reaches(d, src, a),
        step(d, a, b),
    ensures
        reaches(d, src, b),
{
    let p = choose|p: Seq<u64>| is_path(d, p) && p.first() == src && p.last() == a;
    let q = p.push(b);
    assert forall|i: int| 0 <= i < q.len() - 1 implies step(d, #[trigger] q[i], q[i + 1]) by {
        if i < p.len() - 1 {
            assert(q[i] == p[i] && q[i + 1] == p[i + 1]);
        } else {
            assert(q[i] == p.last() && q[i + 1] == b);
        }
    }
    assert(is_path(d, q) && q.first() == src && q.last() == b);
}

/// A step-closed set that holds the first address of a path holds them all.
pub proof fn lemma_path_in_closed<D: Disassembler>(d: D, s: Set<u64>, p: Seq<u64>)
    requires
        step_closed(d, s),
        is_path(d, p),
        s.contains(p.first()),
    ensures
        s.contains(p.last()),
    decreases p.len(),
{
    if p.len() > 1 {
        let q = p.subrange(1, p.len() as int);
        assert(step(d, p[0], p[1]));
        assert(s.contains(p[1]));
        assert forall|i: int| 0 <= i < q.len() - 1 implies step(d, #[trigger] q[i], q[i + 1]) by {
            assert(q[i] == p[i + 1] && q[i + 1] == p[i + 2]);
            assert(step(d, p[i + 1], p[i + 2]));
        }
        assert(is_path(d, q) && q.first() == p[1]);
        lemma_path_in_closed(d, s, q);
        assert(q.last() == p.last());
    }
}

/// Everything reachable from `entry` lies inside any step-closed set that
/// holds `entry`.
pub proof fn lemma_reachable_in_closed<D: Disassembler>(d: D, s: Set<u64>, entry: u64, a: u64)
    requires
        step_closed(d, s),
        s.contains(entry),
        reaches(d, entry, a),
    ensures
        s.contains(a),
{
    let p = choose|p: Seq<u64>| is_path(d, p) && p.first() == entry && p.last() == a;
    lemma_path_in_closed(d, s, p);
}

} // verus!
