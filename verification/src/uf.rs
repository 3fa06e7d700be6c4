//! The disjoint-set (union-find) forest that the block aggregator uses to
//! resolve a node's current representative.
//!
//! The forest is a map from node id to parent id; roots are their own parent.
//! The aggregator links a root `v` only to another root and only while every
//! id that points at `v` is smaller than `v`, so along any parent chain the
//! ids grow until a node whose parent is a root.  `uf_wf` states exactly that,
//! and it is what makes `find` terminate.  It is kept opaque: its chained
//! quantifiers are instantiated only through the pointwise lemmas below.

use std::collections::HashMap;
use vstd::prelude::*;

verus! {

/// Well-formed forest: finite, closed under parents, and every non-root's
/// parent is either itself a root or a larger id.
#[verifier::opaque]
pub open spec fn uf_wf(m: Map<usize, usize>) -> bool {
    &&& m.dom().finite()
    &&& forall|x: usize| #[trigger] m.dom().contains(x) ==> m.dom().contains(m[x])
    &&& forall|x: usize| #[trigger]
        m.dom().contains(x) && m[x] != x ==> m[m[x]] == m[x] || m[x] > x
}

/// Pointwise consequence of `uf_wf` at `x`.
pub proof fn lemma_uf_wf_at(m: Map<usize, usize>, x: usize)
    requires
        uf_wf(m),
        m.dom().contains(x),
    ensures
        m.dom().contains(m[x]),
        m[x] != x ==> m[m[x]] == m[x] || m[x] > x,
{
    reveal(uf_wf);
}

/// A well-formed forest has a finite domain.
pub proof fn lemma_uf_wf_finite(m: Map<usize, usize>)
    requires
        uf_wf(m),
    ensures
        m.dom().finite(),
{
    reveal(uf_wf);
}

/// Introduction form of `uf_wf`, for callers that have proved the three
/// conjuncts pointwise and must not expose the chained quantifiers of another
/// forest in scope (the aggregator, for its freshly built identity forest).
pub proof fn lemma_uf_wf_intro(m: Map<usize, usize>)
    requires
        m.dom().finite(),
        forall|x: usize| #[trigger] m.dom().contains(x) ==> m.dom().contains(m[x]),
        forall|x: usize| #[trigger]
            m.dom().contains(x) && m[x] != x ==> m[m[x]] == m[x] || m[x] > x,
    ensures
        uf_wf(m),
{
    reveal(uf_wf);
}

/// First component of the termination measure of a parent chain: 0 at a root,
/// 1 when the parent is a root, 2 otherwise.
pub open spec fn uf_flag(m: Map<usize, usize>, x: usize) -> int {
    if m[x] == x {
        0
    } else if m[m[x]] == m[x] {
        1
    } else {
        2
    }
}

/// Second component: how many ids at or above `x` the forest holds.  Chains of
/// non-roots climb strictly, so this shrinks along them.
pub open spec fn uf_above(m: Map<usize, usize>, x: usize) -> nat {
    m.dom().filter(|z: usize| z >= x).len()
}

/// Climbing from `x` to a strictly larger `y` strictly shrinks `uf_above`.
proof fn lemma_uf_above_strict(m: Map<usize, usize>, x: usize, y: usize)
    requires
        uf_wf(m),
        m.dom().contains(x),
        y > x,
    ensures
        uf_above(m, y) < uf_above(m, x),
{
    lemma_uf_wf_finite(m);
    let av = m.dom().filter(|z: usize| z >= x);
    let bv = m.dom().filter(|z: usize| z >= y);
    m.dom().lemma_len_filter(|z: usize| z >= x);
    m.dom().lemma_len_filter(|z: usize| z >= y);
    assert(av.contains(x));
    assert(bv.subset_of(av.remove(x)));
    assert(av.remove(x).len() == av.len() - 1);
    vstd::set_lib::lemma_len_subset(bv, av.remove(x));
}

/// The representative of `x`: follow parents to a root.
pub open spec fn uf_root(m: Map<usize, usize>, x: usize) -> usize
    decreases uf_flag(m, x), uf_above(m, x),
        when uf_wf(m) && m.dom().contains(x)
        via uf_root_decreases
{
    if m[x] == x {
        x
    } else {
        uf_root(m, m[x])
    }
}

#[via_fn]
proof fn uf_root_decreases(m: Map<usize, usize>, x: usize) {
    if uf_wf(m) && m.dom().contains(x) && m[x] != x {
        let y = m[x];
        lemma_uf_wf_at(m, x);
        if m[y] != y {
            assert(y > x);
            lemma_uf_above_strict(m, x, y);
        }
    }
}

/// The representative is a root of the forest.
pub proof fn lemma_uf_root_props(m: Map<usize, usize>, x: usize)
    requires
        uf_wf(m),
        m.dom().contains(x),
    ensures
        m.dom().contains(uf_root(m, x)),
        m[uf_root(m, x)] == uf_root(m, x),
    decreases uf_flag(m, x), uf_above(m, x),
{
    if m[x] != x {
        let y = m[x];
        lemma_uf_wf_at(m, x);
        if m[y] != y {
            assert(y > x);
            lemma_uf_above_strict(m, x, y);
        }
        lemma_uf_root_props(m, y);
    }
}

/// Path compression keeps the forest well-formed: pointing a non-root straight
/// at its representative.
proof fn lemma_uf_compress_wf(m: Map<usize, usize>, x: usize)
    requires
        uf_wf(m),
        m.dom().contains(x),
        m[x] != x,
    ensures
        uf_wf(m.insert(x, uf_root(m, x))),
        m.insert(x, uf_root(m, x)).dom() == m.dom(),
{
    let r = uf_root(m, x);
    lemma_uf_root_props(m, x);
    lemma_uf_wf_at(m, x);
    lemma_uf_wf_finite(m);
    let m2 = m.insert(x, r);
    assert(m2.dom() =~= m.dom());
    assert(r != x);
    assert forall|z: usize| #[trigger] m2.dom().contains(z) implies m2.dom().contains(m2[z]) by {
        lemma_uf_wf_at(m, z);
        if z != x {
            assert(m2[z] == m[z]);
        } else {
            assert(m2[x] == r);
        }
    }
    assert forall|z: usize| #[trigger]
        m2.dom().contains(z) && m2[z] != z implies m2[m2[z]] == m2[z] || m2[z] > z by {
        lemma_uf_wf_at(m, z);
        if z == x {
            assert(m2[x] == r && m2[r] == m[r]);
        } else {
            assert(m2[z] == m[z]);
            if m[m[z]] == m[z] {
                assert(m[z] != x);
                assert(m2[m[z]] == m[m[z]]);
            }
        }
    }
    lemma_uf_wf_intro(m2);
}

/// Path compression changes no representative.
proof fn lemma_uf_compress_root(m: Map<usize, usize>, x: usize, y: usize)
    requires
        uf_wf(m),
        m.dom().contains(x),
        m[x] != x,
        m.dom().contains(y),
    ensures
        uf_root(m.insert(x, uf_root(m, x)), y) == uf_root(m, y),
    decreases uf_flag(m, y), uf_above(m, y),
{
    let r = uf_root(m, x);
    let m2 = m.insert(x, r);
    lemma_uf_root_props(m, x);
    lemma_uf_compress_wf(m, x);
    if y == x {
        assert(m2[x] == r && r != x);
        assert(m2[r] == r);
        assert(uf_root(m2, r) == r);
    } else if m[y] == y {
        assert(m2[y] == y);
    } else {
        let z = m[y];
        lemma_uf_wf_at(m, y);
        if m[z] != z {
            assert(z > y);
            lemma_uf_above_strict(m, y, z);
        }
        lemma_uf_compress_root(m, x, z);
        assert(m2[y] == z);
    }
}

/// Linking the root `v` under another root `r` keeps the forest well-formed,
/// provided every id that points at `v` is smaller than `v` (as in the
/// aggregator, which links ids in increasing order).
pub proof fn lemma_uf_link_wf(m: Map<usize, usize>, v: usize, r: usize)
    requires
        uf_wf(m),
        m.dom().contains(v),
        m.dom().contains(r),
        m[v] == v,
        m[r] == r,
        r != v,
        forall|y: usize| #[trigger] m.dom().contains(y) && m[y] == v && y != v ==> y < v,
    ensures
        uf_wf(m.insert(v, r)),
        m.insert(v, r).dom() == m.dom(),
{
    lemma_uf_wf_finite(m);
    let m2 = m.insert(v, r);
    assert(m2.dom() =~= m.dom());
    assert forall|z: usize| #[trigger] m2.dom().contains(z) implies m2.dom().contains(m2[z]) by {
        lemma_uf_wf_at(m, z);
        if z != v {
            assert(m2[z] == m[z]);
        } else {
            assert(m2[v] == r);
        }
    }
    assert forall|z: usize| #[trigger]
        m2.dom().contains(z) && m2[z] != z implies m2[m2[z]] == m2[z] || m2[z] > z by {
        lemma_uf_wf_at(m, z);
        if z == v {
            assert(m2[v] == r && m2[r] == m[r]);
        } else {
            assert(m2[z] == m[z]);
            if m[z] == v {
                assert(z < v);
            } else if m[m[z]] == m[z] {
                assert(m2[m[z]] == m[m[z]]);
            }
        }
    }
    lemma_uf_wf_intro(m2);
}

/// Linking the root `v` under the root `r` redirects exactly the ids whose
/// representative was `v`.
pub proof fn lemma_uf_link_root(m: Map<usize, usize>, v: usize, r: usize, y: usize)
    requires
        uf_wf(m),
        m.dom().contains(v),
        m.dom().contains(r),
        m[v] == v,
        m[r] == r,
        r != v,
        forall|z: usize| #[trigger] m.dom().contains(z) && m[z] == v && z != v ==> z < v,
        m.dom().contains(y),
    ensures
        uf_root(m.insert(v, r), y) == if uf_root(m, y) == v {
            r
        } else {
            uf_root(m, y)
        },
    decreases uf_flag(m, y), uf_above(m, y),
{
    let m2 = m.insert(v, r);
    lemma_uf_link_wf(m, v, r);
    if y == v {
        assert(m2[v] == r && m2[r] == r);
        assert(uf_root(m2, r) == r);
    } else if m[y] == y {
        assert(m2[y] == y);
    } else {
        let z = m[y];
        lemma_uf_wf_at(m, y);
        if m[z] != z {
            assert(z > y);
            lemma_uf_above_strict(m, y, z);
        }
        lemma_uf_link_root(m, v, r, z);
        assert(m2[y] == z);
    }
}

/// Find the representative of `idx` in the forest, compressing the path so
/// that every id visited points straight at the root afterwards.  The forest's
/// domain and every id's representative are unchanged.
pub fn disjoint_find(forest: &mut HashMap<usize, usize>, idx: usize) -> (r: usize)
    requires
        uf_wf(old(forest)@),
        old(forest)@.dom().contains(idx),
    ensures
        uf_wf(final(forest)@),
        final(forest)@.dom() == old(forest)@.dom(),
        forall|y: usize| #[trigger] old(forest)@.dom().contains(y)
            ==> uf_root(final(forest)@, y) == uf_root(old(forest)@, y),
        forall|y: usize| #[trigger] old(forest)@.dom().contains(y)
            ==> final(forest)@[y] == old(forest)@[y] || final(forest)@[y] == r,
        r == uf_root(old(forest)@, idx),
        final(forest)@.dom().contains(r),
        final(forest)@[r] == r,
    decreases uf_flag(old(forest)@, idx), uf_above(old(forest)@, idx),
{
    let ghost m0 = forest@;
    let p = *forest.get(&idx).unwrap();
    if p == idx {
        proof {
            lemma_uf_root_props(m0, idx);
        }
        idx
    } else {
        proof {
            lemma_uf_wf_at(m0, idx);
            if m0[p] != p {
                assert(p > idx);
                lemma_uf_above_strict(m0, idx, p);
            }
        }
        let r = disjoint_find(forest, p);
        let ghost m1 = forest@;
        forest.insert(idx, r);
        proof {
            assert(r == uf_root(m0, p));
            assert(r == uf_root(m0, idx));
            if m1[idx] == r {
                assert(forest@ =~= m1);
            } else {
                assert(m1[idx] == m0[idx]);
                assert(m1[idx] != idx);
                assert(uf_root(m1, idx) == uf_root(m0, idx));
                lemma_uf_compress_wf(m1, idx);
                assert(forest@ == m1.insert(idx, uf_root(m1, idx)));
                assert forall|y: usize| #[trigger] m0.dom().contains(y) implies uf_root(
                    forest@,
                    y,
                ) == uf_root(m1, y) by {
                    lemma_uf_compress_root(m1, idx, y);
                }
                lemma_uf_root_props(m1, idx);
            }
            assert(forest@.dom() =~= m0.dom());
        }
        r
    }
}

} // verus!
