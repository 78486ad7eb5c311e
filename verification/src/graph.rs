//! Dependency resolution over the module graph.
//!
//! A module names its dependencies; the graph is the module mapping together
//! with those name edges. Resolution computes reflexive-transitive closures
//! of seed sets with a three-state depth-first walk that fails on a missing
//! module or on a dependency cycle instead of looping.

use vstd::prelude::*;

use crate::errors::Error;
use crate::module::Module;
use crate::strmap::{distinct_keys, StrMap};
use crate::text::{lemma_seq_str_le_total, lemma_seq_str_le_trans, seq_str_le, str_le};

verus! {

/// The module named `a` declares a dependency on the name `b`.
pub open spec fn dep_edge(g: Map<Seq<char>, Module>, a: Seq<char>, b: Seq<char>) -> bool {
    g.contains_key(a) && exists|i: int|
        0 <= i < g[a].depends@.len() && #[trigger] g[a].depends@[i]@ == b
}

/// `p` is a walk along `depends` edges (a single name is a trivial walk).
pub open spec fn is_dep_path(g: Map<Seq<char>, Module>, p: Seq<Seq<char>>) -> bool {
    p.len() >= 1 && forall|i: int| 0 <= i < p.len() - 1 ==> dep_edge(g, #[trigger] p[i], p[i + 1])
}

/// The name `b` is reachable from `a` over `depends` edges, reflexively.
pub open spec fn reaches(g: Map<Seq<char>, Module>, a: Seq<char>, b: Seq<char>) -> bool {
    exists|p: Seq<Seq<char>>| #[trigger] is_dep_path(g, p) && p.first() == a && p.last() == b
}

/// The name `x` is reachable from some seed.
pub open spec fn reaches_any(
    g: Map<Seq<char>, Module>,
    seeds: Seq<Seq<char>>,
    x: Seq<char>,
) -> bool {
    exists|i: int| 0 <= i < seeds.len() && reaches(g, #[trigger] seeds[i], x)
}

/// The name `x` lies on a dependency cycle.
pub open spec fn on_cycle(g: Map<Seq<char>, Module>, x: Seq<char>) -> bool {
    exists|d: Seq<char>| #[trigger] dep_edge(g, x, d) && reaches(g, d, x)
}

/// Resolution from `seeds` is well-defined: every reachable name exists in
/// the module mapping and none lies on a cycle.
pub open spec fn closure_ok(g: Map<Seq<char>, Module>, seeds: Seq<Seq<char>>) -> bool {
    forall|x: Seq<char>|
        #[trigger] reaches_any(g, seeds, x) ==> g.contains_key(x) && !on_cycle(g, x)
}

/// Reachability is reflexive.
pub proof fn lemma_reach_refl(g: Map<Seq<char>, Module>, a: Seq<char>)
    ensures
        reaches(g, a, a),
{
    let p = seq![a];
    assert(is_dep_path(g, p));
    assert(p.first() == a && p.last() == a);
}

/// An edge is a reach.
pub proof fn lemma_reach_step(g: Map<Seq<char>, Module>, a: Seq<char>, b: Seq<char>)
    requires
        dep_edge(g, a, b),
    ensures
        reaches(g, a, b),
{
    let p = seq![a, b];
    assert(p.len() == 2 && p[0] == a && p[1] == b);
    assert(is_dep_path(g, p));
    assert(p.first() == a && p.last() == b);
}

/// Reachability is transitive.
pub proof fn lemma_reach_trans(g: Map<Seq<char>, Module>, a: Seq<char>, b: Seq<char>, c: Seq<char>)
    requires
        reaches(g, a, b),
        reaches(g, b, c),
    ensures
        reaches(g, a, c),
{
    let p1 = choose|p: Seq<Seq<char>>| is_dep_path(g, p) && p.first() == a && p.last() == b;
    let p2 = choose|p: Seq<Seq<char>>| is_dep_path(g, p) && p.first() == b && p.last() == c;
    if p2.len() == 1 {
        assert(reaches(g, a, c));
    } else {
        let p = p1 + p2.skip(1);
        assert(p.len() == p1.len() + p2.len() - 1);
        assert forall|i: int| 0 <= i < p.len() - 1 implies dep_edge(g, #[trigger] p[i], p[i + 1]) by {
            if i < p1.len() - 1 {
                assert(p[i] == p1[i] && p[i + 1] == p1[i + 1]);
            } else if i == p1.len() - 1 {
                assert(p[i] == p1.last());
                assert(p1.last() == p2.first());
                assert(p[i + 1] == p2.skip(1)[0]);
                assert(p2.skip(1)[0] == p2[1]);
                assert(dep_edge(g, p2[0], p2[1]));
            } else {
                let j = i - p1.len();
                assert(p[i] == p2.skip(1)[j]);
                assert(p2.skip(1)[j] == p2[j + 1]);
                assert(p[i + 1] == p2.skip(1)[j + 1]);
                assert(p2.skip(1)[j + 1] == p2[j + 2]);
                assert(dep_edge(g, p2[j + 1], p2[j + 2]));
            }
        }
        assert(is_dep_path(g, p));
        assert(p.first() == a);
        assert(p.last() == p2.skip(1).last());
        assert(p2.skip(1).last() == p2.last());
    }
}

/// A reach extended by one edge.
pub proof fn lemma_reach_edge_right(
    g: Map<Seq<char>, Module>,
    a: Seq<char>,
    b: Seq<char>,
    c: Seq<char>,
)
    requires
        reaches(g, a, b),
        dep_edge(g, b, c),
    ensures
        reaches(g, a, c),
{
    lemma_reach_step(g, b, c);
    lemma_reach_trans(g, a, b, c);
}

/// A nontrivial reach starts with an edge.
pub proof fn lemma_reach_unfold(g: Map<Seq<char>, Module>, a: Seq<char>, x: Seq<char>)
    requires
        reaches(g, a, x),
        x != a,
    ensures
        exists|b: Seq<char>| #[trigger] dep_edge(g, a, b) && reaches(g, b, x),
{
    let p = choose|p: Seq<Seq<char>>| is_dep_path(g, p) && p.first() == a && p.last() == x;
    assert(p.len() >= 2);
    let b = p[1];
    assert(dep_edge(g, p[0], p[1]));
    let q = p.skip(1);
    assert forall|i: int| 0 <= i < q.len() - 1 implies dep_edge(g, #[trigger] q[i], q[i + 1]) by {
        assert(q[i] == p[i + 1] && q[i + 1] == p[i + 2]);
        assert(dep_edge(g, p[i + 1], p[i + 2]));
    }
    assert(is_dep_path(g, q));
    assert(q.first() == b);
    assert(q.last() == x);
    assert(dep_edge(g, a, b) && reaches(g, b, x));
}

/// A set that holds the start of a walk and is closed under `depends` edges
/// holds its end.
pub proof fn lemma_path_in_closed(g: Map<Seq<char>, Module>, s: Set<Seq<char>>, p: Seq<Seq<char>>)
    requires
        is_dep_path(g, p),
        s.contains(p.first()),
        forall|y: Seq<char>, b: Seq<char>|
            s.contains(y) && #[trigger] dep_edge(g, y, b) ==> s.contains(b),
    ensures
        s.contains(p.last()),
    decreases p.len(),
{
    if p.len() > 1 {
        assert(dep_edge(g, p[0], p[1]));
        assert(s.contains(p[1]));
        let q = p.skip(1);
        assert forall|i: int| 0 <= i < q.len() - 1 implies dep_edge(g, #[trigger] q[i], q[i + 1]) by {
            assert(q[i] == p[i + 1] && q[i + 1] == p[i + 2]);
            assert(dep_edge(g, p[i + 1], p[i + 2]));
        }
        assert(is_dep_path(g, q));
        assert(q.first() == p[1]);
        lemma_path_in_closed(g, s, q);
        assert(q.last() == p.last());
    }
}

/// The views of a list of names.
pub open spec fn ov_of(out: Seq<String>) -> Seq<Seq<char>> {
    out.map_values(|s: String| s@)
}

/// The name `d` stands somewhere before position `k` of the order.
pub open spec fn before_in(ov: Seq<Seq<char>>, d: Seq<char>, k: int) -> bool {
    exists|j: int| 0 <= j < k && #[trigger] ov[j] == d
}

/// Names in nondecreasing lexicographic order.
pub open spec fn sorted_ov(ov: Seq<Seq<char>>) -> bool {
    forall|i: int, j: int|
        0 <= i < j < ov.len() ==> seq_str_le(#[trigger] ov[i], #[trigger] ov[j])
}

/// Sorts distinct names lexicographically, for reproducible generated
/// output; the set of names is kept.
fn sort_names(v: Vec<String>) -> (r: Vec<String>)
    requires
        distinct_keys(ov_of(v@)),
    ensures
        distinct_keys(ov_of(r@)),
        sorted_ov(ov_of(r@)),
        forall|x: Seq<char>| #[trigger] ov_of(r@).contains(x) ==> ov_of(v@).contains(x),
        forall|x: Seq<char>| #[trigger] ov_of(v@).contains(x) ==> ov_of(r@).contains(x),
{
    let n = v.len();
    let mut out: Vec<String> = Vec::new();
    let mut i: usize = 0;
    while i < n
        invariant
            n == v@.len(),
            0 <= i <= n,
            distinct_keys(ov_of(v@)),
            distinct_keys(ov_of(out@)),
            sorted_ov(ov_of(out@)),
            out@.len() == i,
            forall|x: Seq<char>|
                #[trigger] ov_of(out@).contains(x) ==> before_in(ov_of(v@), x, i as int),
            forall|k: int| 0 <= k < i ==> ov_of(out@).contains(#[trigger] ov_of(v@)[k]),
        decreases n - i,
    {
        let x: &String = &v[i];
        proof {
            assert(ov_of(v@)[i as int] == x@);
        }
        let m = out.len();
        let mut p: usize = 0;
        while p < m && str_le(&out[p], x)
            invariant
                n == v@.len(),
                0 <= i < n,
                distinct_keys(ov_of(v@)),
                distinct_keys(ov_of(out@)),
                sorted_ov(ov_of(out@)),
                m == out@.len(),
                out@.len() == i,
                0 <= p <= m,
                x@ == ov_of(v@)[i as int],
                forall|x2: Seq<char>|
                    #[trigger] ov_of(out@).contains(x2) ==> before_in(ov_of(v@), x2, i as int),
                forall|k: int| 0 <= k < i ==> ov_of(out@).contains(#[trigger] ov_of(v@)[k]),
                forall|k: int| 0 <= k < p ==> seq_str_le(#[trigger] ov_of(out@)[k], x@),
            decreases m - p,
        {
            proof {
                assert(ov_of(out@)[p as int] == out@[p as int]@);
            }
            p = p + 1;
        }
        let ghost opre = ov_of(out@);
        out.insert(p, x.clone());
        proof {
            let ghost onew = ov_of(out@);
            opre.insert_ensures(p as int, x@);
            assert(onew =~= opre.insert(p as int, x@)) by {
                assert forall|k: int| 0 <= k < onew.len() implies onew[k] == opre.insert(
                    p as int,
                    x@,
                )[k] by {
                    assert(onew[k] == out@[k]@);
                }
            }
            // the inserted name is new
            assert forall|k: int| 0 <= k < opre.len() implies opre[k] != x@ by {
                assert(opre.contains(opre[k]));
                assert(before_in(ov_of(v@), opre[k], i as int));
                let k0 = choose|k0: int| 0 <= k0 < i && ov_of(v@)[k0] == opre[k];
                assert(ov_of(v@)[k0] != ov_of(v@)[i as int]);
            }
            assert forall|a: int, b: int| 0 <= a < b < onew.len() implies onew[a] != onew[b] by {
                let a0 = if a < p { a } else { a - 1 };
                let b0 = if b < p { b } else { b - 1 };
                if a == p {
                    assert(onew[b] == opre[b0]);
                } else if b == p {
                    assert(onew[a] == opre[a0]);
                } else {
                    assert(onew[a] == opre[a0] && onew[b] == opre[b0]);
                }
            }
            // sortedness around the insertion point
            if p < opre.len() {
                assert(!seq_str_le(opre[p as int], x@));
                lemma_seq_str_le_total(opre[p as int], x@);
                assert(seq_str_le(x@, opre[p as int]));
            }
            assert forall|a: int, b: int|
                0 <= a < b < onew.len() implies seq_str_le(onew[a], onew[b]) by {
                let a0 = if a < p { a } else { a - 1 };
                let b0 = if b < p { b } else { b - 1 };
                if a == p {
                    assert(onew[b] == opre[b0]);
                    assert(seq_str_le(x@, opre[p as int]));
                    if b0 > p {
                        assert(seq_str_le(opre[p as int], opre[b0]));
                        lemma_seq_str_le_trans(x@, opre[p as int], opre[b0]);
                    }
                } else if b == p {
                    assert(onew[a] == opre[a0]);
                    assert(seq_str_le(opre[a0], x@));
                } else {
                    assert(onew[a] == opre[a0] && onew[b] == opre[b0]);
                }
            }
            // membership
            assert(onew[p as int] == x@);
            assert(onew.contains(x@));
            assert forall|x2: Seq<char>|
                #[trigger] onew.contains(x2) implies before_in(ov_of(v@), x2, i + 1) by {
                let k = choose|k: int| 0 <= k < onew.len() && onew[k] == x2;
                if k == p {
                    assert(ov_of(v@)[i as int] == x2);
                } else {
                    let k0 = if k < p { k } else { k - 1 };
                    assert(opre[k0] == x2);
                    assert(opre.contains(x2));
                    assert(before_in(ov_of(v@), x2, i as int));
                    let j = choose|j: int| 0 <= j < i && ov_of(v@)[j] == x2;
                    assert(0 <= j < i + 1 && ov_of(v@)[j] == x2);
                }
            }
            assert forall|k: int| 0 <= k < i + 1 implies onew.contains(
                #[trigger] ov_of(v@)[k],
            ) by {
                if k < i {
                    assert(opre.contains(ov_of(v@)[k]));
                    let q = choose|q: int| 0 <= q < opre.len() && opre[q] == ov_of(v@)[k];
                    if q < p {
                        assert(onew[q] == ov_of(v@)[k]);
                    } else {
                        assert(onew[q + 1] == ov_of(v@)[k]);
                    }
                } else {
                    assert(onew[p as int] == ov_of(v@)[k]);
                }
            }
        }
        i = i + 1;
    }
    proof {
        assert forall|x: Seq<char>| #[trigger] ov_of(out@).contains(x) implies ov_of(
            v@,
        ).contains(x) by {
            assert(before_in(ov_of(v@), x, n as int));
            let k = choose|k: int| 0 <= k < n && ov_of(v@)[k] == x;
        }
        assert forall|x: Seq<char>| #[trigger] ov_of(v@).contains(x) implies ov_of(
            out@,
        ).contains(x) by {
            let k = choose|k: int| 0 <= k < ov_of(v@).len() && ov_of(v@)[k] == x;
        }
    }
    out
}

/// A finish order: distinct names, every one a module, and every dependency
/// of a name standing strictly earlier in the order.
pub open spec fn ranked(g: Map<Seq<char>, Module>, ov: Seq<Seq<char>>) -> bool {
    &&& distinct_keys(ov)
    &&& forall|k: int| 0 <= k < ov.len() ==> g.contains_key(#[trigger] ov[k])
    &&& forall|k: int, i: int|
        #![trigger g[ov[k]].depends@[i]]
        0 <= k < ov.len() && 0 <= i < g[ov[k]].depends@.len() ==> before_in(
            ov,
            g[ov[k]].depends@[i]@,
            k,
        )
}

/// A finish order stays one when a new name is appended whose dependencies
/// all stand in it already.
pub proof fn lemma_ranked_push(g: Map<Seq<char>, Module>, ov: Seq<Seq<char>>, x: Seq<char>)
    requires
        ranked(g, ov),
        !ov.contains(x),
        g.contains_key(x),
        forall|i: int| 0 <= i < g[x].depends@.len() ==> ov.contains(#[trigger] g[x].depends@[i]@),
    ensures
        ranked(g, ov.push(x)),
{
    let ovp = ov.push(x);
    assert forall|p: int, q: int| 0 <= p < q < ovp.len() implies ovp[p] != ovp[q] by {
        if q == ovp.len() - 1 {
            assert(ovp[p] == ov[p]);
            assert(ov.contains(ov[p]));
        } else {
            assert(ovp[p] == ov[p] && ovp[q] == ov[q]);
        }
    }
    assert forall|k: int| 0 <= k < ovp.len() implies g.contains_key(#[trigger] ovp[k]) by {
        if k < ov.len() {
            assert(ovp[k] == ov[k]);
        } else {
            assert(ovp[k] == x);
        }
    }
    assert forall|k: int, i: int|
        #![trigger g[ovp[k]].depends@[i]]
        0 <= k < ovp.len() && 0 <= i < g[ovp[k]].depends@.len() implies before_in(
        ovp,
        g[ovp[k]].depends@[i]@,
        k,
    ) by {
        if k < ov.len() {
            assert(ovp[k] == ov[k]);
            assert(g[ov[k]].depends@[i]@ == g[ovp[k]].depends@[i]@);
            assert(before_in(ov, g[ov[k]].depends@[i]@, k));
            let j = choose|j: int| 0 <= j < k && ov[j] == g[ov[k]].depends@[i]@;
            assert(ovp[j] == ov[j]);
        } else {
            assert(ovp[k] == x);
            assert(ov.contains(g[x].depends@[i]@));
            let j = choose|j: int| 0 <= j < ov.len() && ov[j] == g[x].depends@[i]@;
            assert(ovp[j] == ov[j]);
        }
    }
    assert(ranked(g, ovp));
}

/// The unique position of `x` in a distinct order.
pub open spec fn pos_of(ov: Seq<Seq<char>>, x: Seq<char>) -> int {
    choose|j: int| 0 <= j < ov.len() && ov[j] == x
}

/// `pos_of` is the one index of `x` when the order is distinct.
pub proof fn lemma_pos_of(ov: Seq<Seq<char>>, x: Seq<char>)
    requires
        distinct_keys(ov),
        ov.contains(x),
    ensures
        0 <= pos_of(ov, x) < ov.len(),
        ov[pos_of(ov, x)] == x,
        forall|j: int| 0 <= j < ov.len() && ov[j] == x ==> j == pos_of(ov, x),
{
    let j0 = choose|j: int| 0 <= j < ov.len() && ov[j] == x;
    assert(ov[j0] == x);
}

/// Along a walk inside a finish order, positions never increase, and fall
/// strictly over at least one edge.
pub proof fn lemma_ranked_path(g: Map<Seq<char>, Module>, ov: Seq<Seq<char>>, p: Seq<Seq<char>>)
    requires
        ranked(g, ov),
        is_dep_path(g, p),
        ov.contains(p.first()),
    ensures
        ov.contains(p.last()),
        pos_of(ov, p.last()) <= pos_of(ov, p.first()),
        p.len() >= 2 ==> pos_of(ov, p.last()) < pos_of(ov, p.first()),
    decreases p.len(),
{
    lemma_pos_of(ov, p.first());
    if p.len() >= 2 {
        let k = pos_of(ov, p.first());
        assert(dep_edge(g, p[0], p[1]));
        let i = choose|i: int| 0 <= i < g[p[0]].depends@.len() && g[p[0]].depends@[i]@ == p[1];
        assert(ov[k] == p[0]);
        assert(before_in(ov, g[ov[k]].depends@[i]@, k));
        let j = choose|j: int| 0 <= j < k && ov[j] == g[ov[k]].depends@[i]@;
        assert(ov[j] == p[1]);
        assert(ov.contains(p[1]));
        lemma_pos_of(ov, p[1]);
        assert(pos_of(ov, p[1]) == j);
        let q = p.skip(1);
        assert forall|t: int| 0 <= t < q.len() - 1 implies dep_edge(g, #[trigger] q[t], q[t + 1]) by {
            assert(q[t] == p[t + 1] && q[t + 1] == p[t + 2]);
            assert(dep_edge(g, p[t + 1], p[t + 2]));
        }
        assert(is_dep_path(g, q));
        assert(q.first() == p[1]);
        lemma_ranked_path(g, ov, q);
        assert(q.last() == p.last());
    }
}

/// No name of a finish order lies on a dependency cycle.
pub proof fn lemma_ranked_no_cycle(g: Map<Seq<char>, Module>, ov: Seq<Seq<char>>, x: Seq<char>)
    requires
        ranked(g, ov),
        ov.contains(x),
    ensures
        !on_cycle(g, x),
{
    if on_cycle(g, x) {
        let d = choose|d: Seq<char>| dep_edge(g, x, d) && reaches(g, d, x);
        lemma_pos_of(ov, x);
        let k = pos_of(ov, x);
        let i = choose|i: int| 0 <= i < g[x].depends@.len() && g[x].depends@[i]@ == d;
        assert(ov[k] == x);
        assert(before_in(ov, g[ov[k]].depends@[i]@, k));
        let j = choose|j: int| 0 <= j < k && ov[j] == g[ov[k]].depends@[i]@;
        assert(ov[j] == d);
        assert(ov.contains(d));
        lemma_pos_of(ov, d);
        assert(pos_of(ov, d) == j);
        let p = choose|p: Seq<Seq<char>>| is_dep_path(g, p) && p.first() == d && p.last() == x;
        lemma_ranked_path(g, ov, p);
        assert(pos_of(ov, x) <= j);
        assert(false);
    }
}

/// How many entries of a colour list are still unvisited.
pub open spec fn count_white(cs: Seq<u8>) -> nat
    decreases cs.len(),
{
    if cs.len() == 0 {
        0
    } else {
        count_white(cs.drop_last()) + if cs.last() == 0 {
            1nat
        } else {
            0nat
        }
    }
}

/// Marking entries can only lower the unvisited count.
pub proof fn lemma_count_white_le(c1: Seq<u8>, c2: Seq<u8>)
    requires
        c1.len() == c2.len(),
        forall|i: int| 0 <= i < c2.len() && c2[i] == 0 ==> c1[i] == 0,
    ensures
        count_white(c2) <= count_white(c1),
    decreases c1.len(),
{
    if c1.len() > 0 {
        assert(forall|i: int|
            0 <= i < c2.drop_last().len() && c2.drop_last()[i] == 0 ==> c1.drop_last()[i] == 0);
        lemma_count_white_le(c1.drop_last(), c2.drop_last());
    }
}

/// Marking one unvisited entry strictly lowers the unvisited count.
pub proof fn lemma_count_white_update(cs: Seq<u8>, i: int, v: u8)
    requires
        0 <= i < cs.len(),
        cs[i] == 0,
        v != 0,
    ensures
        count_white(cs.update(i, v)) < count_white(cs),
    decreases cs.len(),
{
    let cu = cs.update(i, v);
    if i == cs.len() - 1 {
        assert(cu.drop_last() =~= cs.drop_last());
        assert(cu.last() == v && cs.last() == cs[i]);
    } else {
        assert(cu.drop_last() =~= cs.drop_last().update(i, v));
        assert(cu.last() == cs.last());
        lemma_count_white_update(cs.drop_last(), i, v);
    }
}

/// The module named `x` has been finished (coloured 2) by the walk.
pub open spec fn finished_in(m: &StrMap<Module>, colors: Seq<u8>, x: Seq<char>) -> bool {
    exists|i: int| 0 <= i < m.keys().len() && #[trigger] m.keys()[i] == x && colors[i] == 2
}

/// The invariant of the depth-first walk: the colour of every module, and
/// the names finished so far in a valid finish order.
pub open spec fn dfs_inv(m: &StrMap<Module>, colors: Seq<u8>, out: Seq<String>) -> bool {
    &&& colors.len() == m.keys().len()
    &&& forall|i: int| 0 <= i < colors.len() ==> #[trigger] colors[i] <= 2
    &&& forall|k: int|
        0 <= k < ov_of(out).len() ==> finished_in(m, colors, #[trigger] ov_of(out)[k])
    &&& forall|i: int|
        0 <= i < m.keys().len() && colors[i] == 2 ==> ov_of(out).contains(#[trigger] m.keys()[i])
    &&& ranked(m@, ov_of(out))
}

fn set_color(colors: &mut Vec<u8>, i: usize, c: u8)
    requires
        i < old(colors)@.len(),
    ensures
        final(colors)@ == old(colors)@.update(i as int, c),
{
    let r = &mut colors[i];
    *r = c;
}

/// One depth-first visit: finishes the module at entry `idx` and everything
/// reachable from it, or fails on a missing dependency or a cycle.
#[verifier::rlimit(80)]
fn visit(m: &StrMap<Module>, idx: usize, colors: &mut Vec<u8>, out: &mut Vec<String>) -> (r: Result<
    (),
    Error,
>)
    requires
        m.wf(),
        idx < m.keys().len(),
        dfs_inv(m, old(colors)@, old(out)@),
        old(colors)@[idx as int] == 0,
        forall|i: int|
            0 <= i < old(colors)@.len() && old(colors)@[i] == 1 ==> reaches(
                m@,
                m.keys()[i],
                m.keys()[idx as int],
            ),
    ensures
        dfs_inv(m, final(colors)@, final(out)@),
        final(colors)@.len() == old(colors)@.len(),
        forall|i: int| 0 <= i < final(colors)@.len() ==> final(colors)@[i] >= old(colors)@[i],
        final(out)@.len() >= old(out)@.len(),
        forall|k: int| 0 <= k < old(out)@.len() ==> final(out)@[k] == old(out)@[k],
        r is Ok ==> final(colors)@[idx as int] == 2,
        r is Ok ==> forall|i: int|
            0 <= i < final(colors)@.len() ==> ((final(colors)@[i] == 1) <==> (old(colors)@[i]
                == 1)),
        r is Ok ==> forall|i: int|
            0 <= i < final(colors)@.len() && final(colors)@[i] == 2 && old(colors)@[i] != 2
                ==> reaches(m@, m.keys()[idx as int], m.keys()[i]),
        (match r {
            Ok(_) => true,
            Err(e) => match e {
                Error::NoSuchModule(nm) => !m@.contains_key(nm@) && reaches(
                    m@,
                    m.keys()[idx as int],
                    nm@,
                ),
                Error::DependencyCycle => exists|x: Seq<char>|
                    reaches(m@, m.keys()[idx as int], x) && on_cycle(m@, x),
                _ => false,
            },
        }),
    decreases count_white(old(colors)@),
{
    let ghost g = m@;
    let ghost km = m.keys();
    let ghost w0 = count_white(old(colors)@);
    proof {
        m.lemma_view();
        lemma_count_white_update(old(colors)@, idx as int, 1);
    }
    set_color(colors, idx, 1);
    let mo: &Module = m.val_at(idx);
    let nd = mo.depends.len();
    proof {
        assert(g[km[idx as int]] == *mo);
        assert forall|k: int|
            #![trigger ov_of(out@)[k]]
            0 <= k < ov_of(out@).len() implies finished_in(m, colors@, ov_of(out@)[k]) by {
            assert(finished_in(m, old(colors)@, ov_of(out@)[k]));
            let i = choose|i: int|
                0 <= i < m.keys().len() && m.keys()[i] == ov_of(out@)[k] && old(colors)@[i] == 2;
            assert(m.keys()[i] == ov_of(out@)[k] && colors@[i] == 2);
        }
        assert(dfs_inv(m, colors@, out@));
    }
    let mut di: usize = 0;
    while di < nd
        invariant
            m.wf(),
            g == m@,
            km == m.keys(),
            idx < km.len(),
            *mo == m.vals()[idx as int],
            g[km[idx as int]] == *mo,
            nd == mo.depends@.len(),
            0 <= di <= nd,
            w0 == count_white(old(colors)@),
            old(colors)@[idx as int] == 0,
            colors@.len() == old(colors)@.len(),
            dfs_inv(m, colors@, out@),
            colors@[idx as int] == 1,
            count_white(colors@) < w0,
            forall|i: int| 0 <= i < colors@.len() && i != idx ==> colors@[i] >= old(colors)@[i],
            forall|i: int|
                0 <= i < colors@.len() ==> ((colors@[i] == 1) <==> (old(colors)@[i] == 1 || i
                    == idx)),
            forall|i: int|
                0 <= i < colors@.len() && colors@[i] == 2 && old(colors)@[i] != 2 ==> reaches(
                    g,
                    km[idx as int],
                    km[i],
                ),
            forall|i: int|
                0 <= i < colors@.len() && old(colors)@[i] == 1 ==> reaches(
                    g,
                    km[i],
                    km[idx as int],
                ),
            forall|k: int| 0 <= k < di ==> finished_in(m, colors@, #[trigger] mo.depends@[k]@),
            out@.len() >= old(out)@.len(),
            forall|k: int| 0 <= k < old(out)@.len() ==> out@[k] == old(out)@[k],
        decreases nd - di,
    {
        proof {
            m.lemma_view();
        }
        let depname: &String = &mo.depends[di];
        match m.index_of(depname) {
            None => {
                proof {
                    assert(g[km[idx as int]].depends@[di as int]@ == depname@);
                    assert(dep_edge(g, km[idx as int], depname@));
                    lemma_reach_step(g, km[idx as int], depname@);
                    if g.contains_key(depname@) {
                        let i = choose|i: int| 0 <= i < km.len() && km[i] == depname@;
                        assert(false);
                    }
                }
                return Err(Error::NoSuchModule(depname.clone()));
            },
            Some(j) => {
                let c: u8 = colors[j];
                if c == 1 {
                    proof {
                        assert(g[km[idx as int]].depends@[di as int]@ == km[j as int]);
                        assert(dep_edge(g, km[idx as int], km[j as int]));
                        if j != idx {
                            assert(old(colors)@[j as int] == 1);
                        }
                        lemma_reach_refl(g, km[idx as int]);
                        if j == idx {
                            assert(reaches(g, km[j as int], km[idx as int]));
                        }
                        assert(on_cycle(g, km[idx as int]));
                    }
                    return Err(Error::DependencyCycle);
                } else if c == 0 {
                    proof {
                        assert(g[km[idx as int]].depends@[di as int]@ == km[j as int]);
                        assert(dep_edge(g, km[idx as int], km[j as int]));
                        lemma_reach_step(g, km[idx as int], km[j as int]);
                        assert forall|i: int|
                            0 <= i < colors@.len() && colors@[i] == 1 implies reaches(
                            g,
                            km[i],
                            km[j as int],
                        ) by {
                            if i == idx {
                                assert(reaches(g, km[idx as int], km[j as int]));
                            } else {
                                assert(old(colors)@[i] == 1);
                                lemma_reach_edge_right(g, km[i], km[idx as int], km[j as int]);
                            }
                        }
                    }
                    let ghost cpre = colors@;
                    let ghost opre = out@;
                    let r = visit(m, j, colors, out);
                    proof {
                        lemma_count_white_le(cpre, colors@);
                    }
                    match r {
                        Err(e) => {
                            proof {
                                lemma_reach_step(g, km[idx as int], km[j as int]);
                                match &e {
                                    Error::NoSuchModule(nm) => {
                                        lemma_reach_trans(g, km[idx as int], km[j as int], nm@);
                                    },
                                    Error::DependencyCycle => {
                                        let x = choose|x: Seq<char>|
                                            reaches(g, km[j as int], x) && on_cycle(g, x);
                                        lemma_reach_trans(g, km[idx as int], km[j as int], x);
                                    },
                                    _ => {},
                                }
                            }
                            return Err(e);
                        },
                        Ok(_) => {
                            proof {
                                assert forall|i: int|
                                    0 <= i < colors@.len() && colors@[i] == 2 && old(colors)@[i]
                                        != 2 implies reaches(g, km[idx as int], km[i]) by {
                                    if cpre[i] == 2 {
                                    } else {
                                        lemma_reach_step(g, km[idx as int], km[j as int]);
                                        lemma_reach_trans(g, km[idx as int], km[j as int], km[i]);
                                    }
                                }
                                assert forall|k: int|
                                    0 <= k < di + 1 implies finished_in(
                                    m,
                                    colors@,
                                    #[trigger] mo.depends@[k]@,
                                ) by {
                                    if k < di {
                                        let jx = choose|jx: int|
                                            0 <= jx < km.len() && km[jx] == mo.depends@[k]@
                                                && cpre[jx] == 2;
                                        assert(colors@[jx] >= cpre[jx] && colors@[jx] <= 2);
                                        assert(m.keys()[jx] == mo.depends@[k]@ && colors@[jx]
                                            == 2);
                                    } else {
                                        assert(m.keys()[j as int] == mo.depends@[di as int]@
                                            && colors@[j as int] == 2);
                                    }
                                }
                            }
                        },
                    }
                } else {
                    proof {
                        assert(colors@[j as int] == 2);
                        assert forall|k: int|
                            0 <= k < di + 1 implies finished_in(
                            m,
                            colors@,
                            #[trigger] mo.depends@[k]@,
                        ) by {
                            if k == di {
                                assert(m.keys()[j as int] == mo.depends@[di as int]@
                                    && colors@[j as int] == 2);
                            }
                        }
                    }
                }
            },
        }
        di = di + 1;
    }
    let name: String = m.key_at(idx).clone();
    let ghost ovpre = ov_of(out@);
    let ghost cpre = colors@;
    out.push(name);
    set_color(colors, idx, 2);
    proof {
        m.lemma_view();
        assert(ov_of(out@) =~= ovpre.push(km[idx as int]));
        let ov = ov_of(out@);
        // The finished name was grey, so it cannot already stand in the order.
        assert forall|k: int| 0 <= k < ovpre.len() implies ovpre[k] != km[idx as int] by {
            assert(finished_in(m, cpre, ovpre[k]));
            let i = choose|i: int| 0 <= i < km.len() && km[i] == ovpre[k] && cpre[i] == 2;
            if km[i] == km[idx as int] {
                assert(i == idx);
            }
        }
        assert(!ovpre.contains(km[idx as int]));
        assert(g[km[idx as int]] == *mo);
        assert forall|i: int|
            0 <= i < g[km[idx as int]].depends@.len() implies ovpre.contains(
            #[trigger] g[km[idx as int]].depends@[i]@,
        ) by {
            assert(finished_in(m, cpre, mo.depends@[i]@));
            let jj = choose|j: int| 0 <= j < km.len() && km[j] == mo.depends@[i]@ && cpre[j] == 2;
            assert(ovpre.contains(km[jj]));
        }
        lemma_ranked_push(g, ovpre, km[idx as int]);
        assert(ov == ovpre.push(km[idx as int]));
        assert(ranked(g, ov));
        assert forall|k: int| #![trigger ov[k]] 0 <= k < ov.len() implies finished_in(
            m,
            colors@,
            ov[k],
        ) by {
            if k < ovpre.len() {
                assert(finished_in(m, cpre, ovpre[k]));
                let i = choose|i: int| 0 <= i < km.len() && km[i] == ovpre[k] && cpre[i] == 2;
                assert(m.keys()[i] == ov[k] && colors@[i] == 2);
            } else {
                assert(m.keys()[idx as int] == ov[k] && colors@[idx as int] == 2);
            }
        }
        assert forall|i: int|
            0 <= i < km.len() && colors@[i] == 2 implies ov.contains(#[trigger] km[i]) by {
            if i != idx {
                assert(cpre[i] == 2);
                assert(ovpre.contains(km[i]));
                let k = choose|k: int| 0 <= k < ovpre.len() && ovpre[k] == km[i];
                assert(ov[k] == km[i]);
            } else {
                assert(ov[ov.len() - 1] == km[i]);
            }
        }
        assert(dfs_inv(m, colors@, out@));
        lemma_reach_refl(g, km[idx as int]);
    }
    Ok(())
}

/// The reflexive-transitive closure of `seeds` over `depends` edges: every
/// reachable module name exactly once, or the typed failure that names a
/// missing module or reports a cycle.
pub fn close_over(m: &StrMap<Module>, seeds: &Vec<String>) -> (r: Result<Vec<String>, Error>)
    requires
        m.wf(),
    ensures
        (match r {
            Ok(out) => {
                &&& closure_ok(m@, ov_of(seeds@))
                &&& distinct_keys(ov_of(out@))
                &&& sorted_ov(ov_of(out@))
                &&& forall|x: Seq<char>|
                    #[trigger] ov_of(out@).contains(x) ==> reaches_any(m@, ov_of(seeds@), x)
                &&& forall|x: Seq<char>|
                    #[trigger] reaches_any(m@, ov_of(seeds@), x) ==> ov_of(out@).contains(x)
            },
            Err(e) => {
                &&& !closure_ok(m@, ov_of(seeds@))
                &&& (match e {
                    Error::NoSuchModule(nm) => !m@.contains_key(nm@) && reaches_any(
                        m@,
                        ov_of(seeds@),
                        nm@,
                    ),
                    Error::DependencyCycle => exists|x: Seq<char>|
                        #[trigger] reaches_any(m@, ov_of(seeds@), x) && on_cycle(m@, x),
                    _ => false,
                })
            },
        }),
{
    let ghost g = m@;
    let ghost km = m.keys();
    let ghost sv = ov_of(seeds@);
    let n = m.len();
    let mut colors: Vec<u8> = Vec::new();
    let mut ci: usize = 0;
    while ci < n
        invariant
            0 <= ci <= n,
            colors@.len() == ci,
            forall|i: int| 0 <= i < ci ==> colors@[i] == 0,
        decreases n - ci,
    {
        colors.push(0);
        ci = ci + 1;
    }
    let mut out: Vec<String> = Vec::new();
    proof {
        m.lemma_view();
        assert(ov_of(out@) =~= Seq::<Seq<char>>::empty());
        assert(dfs_inv(m, colors@, out@));
    }
    let ns = seeds.len();
    let mut si: usize = 0;
    while si < ns
        invariant
            m.wf(),
            g == m@,
            km == m.keys(),
            sv == ov_of(seeds@),
            ns == seeds@.len(),
            0 <= si <= ns,
            colors@.len() == km.len(),
            dfs_inv(m, colors@, out@),
            forall|i: int| 0 <= i < colors@.len() ==> colors@[i] != 1,
            forall|k: int| 0 <= k < si ==> finished_in(m, colors@, #[trigger] sv[k]),
            forall|i: int|
                0 <= i < colors@.len() && colors@[i] == 2 ==> reaches_any(g, sv, km[i]),
        decreases ns - si,
    {
        proof {
            m.lemma_view();
        }
        let s: &String = &seeds[si];
        proof {
            assert(sv[si as int] == s@);
            lemma_reach_refl(g, s@);
        }
        match m.index_of(s) {
            None => {
                proof {
                    if g.contains_key(s@) {
                        let i = choose|i: int| 0 <= i < km.len() && km[i] == s@;
                        assert(false);
                    }
                    assert(reaches(g, sv[si as int], s@));
                    assert(reaches_any(g, sv, s@));
                }
                return Err(Error::NoSuchModule(s.clone()));
            },
            Some(j) => {
                let c: u8 = colors[j];
                if c == 0 {
                    let ghost cpre = colors@;
                    match visit(m, j, &mut colors, &mut out) {
                        Ok(_) => {
                            proof {
                                assert forall|i: int|
                                    0 <= i < colors@.len() && colors@[i] == 2 implies reaches_any(
                                    g,
                                    sv,
                                    km[i],
                                ) by {
                                    if cpre[i] != 2 {
                                        assert(reaches(g, km[j as int], km[i]));
                                        assert(km[j as int] == sv[si as int]);
                                    }
                                }
                                assert forall|k: int|
                                    0 <= k < si + 1 implies finished_in(
                                    m,
                                    colors@,
                                    #[trigger] sv[k],
                                ) by {
                                    if k < si {
                                        let jx = choose|jx: int|
                                            0 <= jx < km.len() && km[jx] == sv[k] && cpre[jx]
                                                == 2;
                                        assert(colors@[jx] >= cpre[jx] && colors@[jx] <= 2);
                                        assert(m.keys()[jx] == sv[k] && colors@[jx] == 2);
                                    } else {
                                        assert(m.keys()[j as int] == sv[si as int]
                                            && colors@[j as int] == 2);
                                    }
                                }
                            }
                        },
                        Err(e) => {
                            proof {
                                assert(km[j as int] == sv[si as int]);
                                match &e {
                                    Error::NoSuchModule(nm) => {
                                        assert(reaches(g, sv[si as int], nm@));
                                        assert(reaches_any(g, sv, nm@));
                                    },
                                    Error::DependencyCycle => {
                                        let x = choose|x: Seq<char>|
                                            reaches(g, km[j as int], x) && on_cycle(g, x);
                                        assert(reaches(g, sv[si as int], x));
                                        assert(reaches_any(g, sv, x));
                                    },
                                    _ => {},
                                }
                            }
                            return Err(e);
                        },
                    }
                } else {
                    proof {
                        assert(colors@[j as int] == 2);
                        assert forall|k: int|
                            0 <= k < si + 1 implies finished_in(m, colors@, #[trigger] sv[k]) by {
                            if k == si {
                                assert(m.keys()[j as int] == sv[si as int] && colors@[j as int]
                                    == 2);
                            }
                        }
                    }
                }
            },
        }
        si = si + 1;
    }
    proof {
        m.lemma_view();
        let ov = ov_of(out@);
        let bset = Set::new(|y: Seq<char>| ov.contains(y));
        assert forall|y: Seq<char>, b: Seq<char>|
            bset.contains(y) && #[trigger] dep_edge(g, y, b) implies bset.contains(b) by {
            let k = choose|k: int| 0 <= k < ov.len() && ov[k] == y;
            let i = choose|i: int| 0 <= i < g[y].depends@.len() && g[y].depends@[i]@ == b;
            assert(g[ov[k]].depends@[i]@ == b);
            assert(before_in(ov, g[ov[k]].depends@[i]@, k));
            let j = choose|j: int| 0 <= j < k && ov[j] == g[ov[k]].depends@[i]@;
            assert(ov[j] == b);
        }
        assert forall|x: Seq<char>| #[trigger] reaches_any(g, sv, x) implies ov.contains(x) by {
            let k = choose|k: int| 0 <= k < sv.len() && reaches(g, sv[k], x);
            assert(finished_in(m, colors@, sv[k]));
            let jj = choose|j: int| 0 <= j < km.len() && km[j] == sv[k] && colors@[j] == 2;
            assert(ov.contains(km[jj]));
            let p = choose|p: Seq<Seq<char>>|
                is_dep_path(g, p) && p.first() == sv[k] && p.last() == x;
            lemma_path_in_closed(g, bset, p);
        }
        assert forall|x: Seq<char>| #[trigger] ov.contains(x) implies reaches_any(g, sv, x) by {
            let k = choose|k: int| 0 <= k < ov.len() && ov[k] == x;
            assert(finished_in(m, colors@, ov[k]));
            let i = choose|i: int| 0 <= i < km.len() && km[i] == ov[k] && colors@[i] == 2;
        }
        assert forall|x: Seq<char>| #[trigger] reaches_any(g, sv, x) implies g.contains_key(x)
            && !on_cycle(g, x) by {
            assert(ov.contains(x));
            let k = choose|k: int| 0 <= k < ov.len() && ov[k] == x;
            lemma_ranked_no_cycle(g, ov, x);
        }
        assert(closure_ok(g, sv));
    }
    let ghost ovpre = ov_of(out@);
    let sorted = sort_names(out);
    proof {
        assert forall|x: Seq<char>|
            #[trigger] ov_of(sorted@).contains(x) implies reaches_any(g, sv, x) by {
            assert(ovpre.contains(x));
        }
        assert forall|x: Seq<char>|
            #[trigger] reaches_any(g, sv, x) implies ov_of(sorted@).contains(x) by {
            assert(ovpre.contains(x));
        }
    }
    Ok(sorted)
}

} // verus!
