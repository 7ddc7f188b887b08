//! Reachability in a dependency graph.
//!
//! A graph is a map from each node to the nodes it reads, in order. A node
//! that is read but is no key of the map reads nothing.
use vstd::prelude::*;

verus! {

/// `a` reads `b` directly.
pub open spec fn reads(g: Map<u64, Seq<u64>>, a: u64, b: u64) -> bool {
    g.dom().contains(a) && g[a].contains(b)
}

/// A walk along the edges, from its first node to its last.
pub open spec fn is_walk(g: Map<u64, Seq<u64>>, p: Seq<u64>) -> bool {
    &&& p.len() >= 1
    &&& forall|i: int, j: int|
        #![trigger p[i], p[j]]
        0 <= i && j == i + 1 && j < p.len() ==> reads(g, p[i], p[j])
}

/// Some walk leads from `a` to `b`. Every node reaches itself.
pub open spec fn reaches(g: Map<u64, Seq<u64>>, a: u64, b: u64) -> bool {
    exists|p: Seq<u64>| #[trigger] is_walk(g, p) && p[0] == a && p.last() == b
}

/// Some walk of at least one edge leads from `a` to `b`.
pub open spec fn reaches_by_edge(g: Map<u64, Seq<u64>>, a: u64, b: u64) -> bool {
    exists|m: u64| #[trigger] reads(g, a, m) && reaches(g, m, b)
}

/// `a` depends on itself.
pub open spec fn on_cycle(g: Map<u64, Seq<u64>>, a: u64) -> bool {
    reaches_by_edge(g, a, a)
}

/// No node depends on itself.
pub open spec fn acyclic(g: Map<u64, Seq<u64>>) -> bool {
    forall|a: u64| !#[trigger] on_cycle(g, a)
}

/// Some node that `start` reaches depends on itself.
pub open spec fn cycle_from(g: Map<u64, Seq<u64>>, start: u64) -> bool {
    exists|x: u64| #[trigger] reaches(g, start, x) && on_cycle(g, x)
}

/// Some of the roots reaches `x`.
pub open spec fn reached_from(g: Map<u64, Seq<u64>>, roots: Seq<u64>, x: u64) -> bool {
    exists|i: int| 0 <= i < roots.len() && reaches(g, #[trigger] roots[i], x)
}

/// A set that holds whatever its members read.
pub open spec fn closed_under(g: Map<u64, Seq<u64>>, s: Set<u64>) -> bool {
    forall|a: u64, b: u64| s.contains(a) && #[trigger] reads(g, a, b) ==> s.contains(b)
}

/// The graph cut down to a set of nodes.
pub open spec fn restrict(g: Map<u64, Seq<u64>>, s: Set<u64>) -> Map<u64, Seq<u64>> {
    Map::new(
        |a: u64| g.dom().contains(a) && s.contains(a),
        |a: u64| g[a].filter(|b: u64| s.contains(b)),
    )
}

/// Nodes listed so that each comes once, after everything it reads.
pub open spec fn dependencies_first(g: Map<u64, Seq<u64>>, order: Seq<u64>) -> bool {
    &&& order.no_duplicates()
    &&& forall|i: int, b: u64|
        #![trigger reads(g, order[i], b)]
        0 <= i < order.len() && reads(g, order[i], b) ==> exists|j: int|
            0 <= j < i && #[trigger] order[j] == b
}

/// What a node reads, in order; nothing for a node that is no key.
pub open spec fn children(g: Map<u64, Seq<u64>>, a: u64) -> Seq<u64> {
    if g.dom().contains(a) {
        g[a]
    } else {
        Seq::empty()
    }
}

/// Appends `id` to the order, after whatever it reads that is not in yet,
/// going at most `depth` edges down.
pub open spec fn post_order(g: Map<u64, Seq<u64>>, id: u64, order: Seq<u64>, depth: nat) -> Seq<
    u64,
>
    decreases depth, 0nat,
{
    if order.contains(id) || depth == 0 {
        order
    } else {
        post_order_all(g, children(g, id), order, (depth - 1) as nat).push(id)
    }
}

/// Appends each of `ids` in turn.
pub open spec fn post_order_all(
    g: Map<u64, Seq<u64>>,
    ids: Seq<u64>,
    order: Seq<u64>,
    depth: nat,
) -> Seq<u64>
    decreases depth, ids.len() + 1,
{
    if ids.len() == 0 {
        order
    } else {
        post_order(g, ids.last(), post_order_all(g, ids.drop_last(), order, depth), depth)
    }
}

/// The first node that a walk meets and that is no key of the graph. The walk
/// goes on with the last node of `stack`, and puts what a node reads, in order,
/// on top; what it has `seen` it passes over.
pub open spec fn next_unknown(g: Map<u64, Seq<u64>>, stack: Seq<u64>, seen: Set<u64>) -> Option<u64>
    decreases g.dom().difference(seen).len(), stack.len(),
    when g.dom().finite()
{
    if stack.len() == 0 {
        None
    } else {
        let (cur, rest) = (stack.last(), stack.drop_last());
        if seen.contains(cur) {
            next_unknown(g, rest, seen)
        } else if !g.dom().contains(cur) {
            Some(cur)
        } else {
            proof {
                assert(g.dom().difference(seen.insert(cur)) =~= g.dom().difference(seen).remove(
                    cur,
                ));
                assert(g.dom().difference(seen).contains(cur));
            }
            next_unknown(g, rest + g[cur], seen.insert(cur))
        }
    }
}

/// The first node that is no key of the graph on a walk from the roots, the
/// last of them first.
#[verifier::opaque]
pub open spec fn first_unknown(g: Map<u64, Seq<u64>>, roots: Seq<u64>) -> Option<u64> {
    next_unknown(g, roots, Set::empty())
}

/// Every node reaches itself.
pub proof fn lemma_reaches_self(g: Map<u64, Seq<u64>>, a: u64)
    ensures
        reaches(g, a, a),
{
    assert(is_walk(g, seq![a]));
    assert(seq![a].last() == a);
}

/// An edge followed by a walk is a walk.
pub proof fn lemma_reads_then_reaches(g: Map<u64, Seq<u64>>, a: u64, b: u64, c: u64)
    requires
        reads(g, a, b),
        reaches(g, b, c),
    ensures
        reaches(g, a, c),
        reaches_by_edge(g, a, c),
{
    let p = choose|p: Seq<u64>| #[trigger] is_walk(g, p) && p[0] == b && p.last() == c;
    let q = seq![a] + p;
    assert(is_walk(g, q)) by {
        assert forall|i: int, j: int|
            #![trigger q[i], q[j]]
            0 <= i && j == i + 1 && j < q.len() implies reads(g, q[i], q[j]) by {
            if i > 0 {
                assert(q[i] == p[i - 1]);
                assert(q[j] == p[j - 1]);
            }
        }
    }
    assert(q[0] == a);
    assert(q.last() == c);
}

/// Walks join.
pub proof fn lemma_reaches_joins(g: Map<u64, Seq<u64>>, a: u64, b: u64, c: u64)
    requires
        reaches(g, a, b),
        reaches(g, b, c),
    ensures
        reaches(g, a, c),
{
    let p = choose|p: Seq<u64>| #[trigger] is_walk(g, p) && p[0] == a && p.last() == b;
    lemma_walk_then_reaches(g, p, c);
}

/// A walk followed by reachability.
proof fn lemma_walk_then_reaches(g: Map<u64, Seq<u64>>, p: Seq<u64>, c: u64)
    requires
        is_walk(g, p),
        reaches(g, p.last(), c),
    ensures
        reaches(g, p[0], c),
    decreases p.len(),
{
    if p.len() > 1 {
        let q = p.subrange(1, p.len() as int);
        assert(is_walk(g, q)) by {
            assert forall|i: int, j: int|
                #![trigger q[i], q[j]]
                0 <= i && j == i + 1 && j < q.len() implies reads(g, q[i], q[j]) by {
                assert(q[i] == p[i + 1]);
                assert(q[j] == p[j + 1]);
            }
        }
        assert(q.last() == p.last());
        lemma_walk_then_reaches(g, q, c);
        assert(reads(g, p[0], p[1]));
        lemma_reads_then_reaches(g, p[0], p[1], c);
    }
}

/// A walk followed by an edge.
pub proof fn lemma_reaches_then_reads(g: Map<u64, Seq<u64>>, a: u64, b: u64, c: u64)
    requires
        reaches(g, a, b),
        reads(g, b, c),
    ensures
        reaches(g, a, c),
        reaches_by_edge(g, a, c),
{
    lemma_reaches_self(g, c);
    lemma_reads_then_reaches(g, b, c, c);
    lemma_reaches_joins(g, a, b, c);
    let p = choose|p: Seq<u64>| #[trigger] is_walk(g, p) && p[0] == a && p.last() == b;
    if p.len() > 1 {
        let q = p.subrange(1, p.len() as int);
        assert(is_walk(g, q)) by {
            assert forall|i: int, j: int|
                #![trigger q[i], q[j]]
                0 <= i && j == i + 1 && j < q.len() implies reads(g, q[i], q[j]) by {
                assert(q[i] == p[i + 1]);
                assert(q[j] == p[j + 1]);
            }
        }
        assert(q.last() == b);
        assert(reaches(g, p[1], b)) by {
            assert(q[0] == p[1]);
        }
        lemma_reaches_joins(g, p[1], b, c);
        assert(reads(g, a, p[1]));
    }
}

/// A walk starts with an edge or does not move.
pub proof fn lemma_reaches_first_step(g: Map<u64, Seq<u64>>, a: u64, b: u64)
    requires
        reaches(g, a, b),
    ensures
        a == b || reaches_by_edge(g, a, b),
{
    let p = choose|p: Seq<u64>| #[trigger] is_walk(g, p) && p[0] == a && p.last() == b;
    if p.len() > 1 {
        let q = p.subrange(1, p.len() as int);
        assert(is_walk(g, q)) by {
            assert forall|i: int, j: int|
                #![trigger q[i], q[j]]
                0 <= i && j == i + 1 && j < q.len() implies reads(g, q[i], q[j]) by {
                assert(q[i] == p[i + 1]);
                assert(q[j] == p[j + 1]);
            }
        }
        assert(q.last() == b && q[0] == p[1]);
        assert(reads(g, p[0], p[1]));
        assert(reaches(g, p[1], b));
    }
}

/// A walk never leaves a set that holds what its members read.
pub proof fn lemma_closed_keeps(g: Map<u64, Seq<u64>>, s: Set<u64>, a: u64, b: u64)
    requires
        closed_under(g, s),
        s.contains(a),
        reaches(g, a, b),
    ensures
        s.contains(b),
{
    let p = choose|p: Seq<u64>| #[trigger] is_walk(g, p) && p[0] == a && p.last() == b;
    lemma_walk_stays(g, s, p, p.len() - 1);
}

proof fn lemma_walk_stays(g: Map<u64, Seq<u64>>, s: Set<u64>, p: Seq<u64>, i: int)
    requires
        closed_under(g, s),
        is_walk(g, p),
        s.contains(p[0]),
        0 <= i < p.len(),
    ensures
        s.contains(p[i]),
    decreases i,
{
    if i > 0 {
        lemma_walk_stays(g, s, p, i - 1);
        assert(reads(g, p[i - 1], p[i]));
    }
}

/// Cutting a graph down keeps the edges between kept nodes.
pub proof fn lemma_restrict_reads(g: Map<u64, Seq<u64>>, s: Set<u64>, a: u64, b: u64)
    ensures
        reads(restrict(g, s), a, b) <==> reads(g, a, b) && s.contains(a) && s.contains(b),
{
    let keep = |x: u64| s.contains(x);
    if g.dom().contains(a) && s.contains(a) {
        if restrict(g, s)[a].contains(b) {
            lemma_filter_comes_from(g[a], keep, b);
        }
        if g[a].contains(b) && s.contains(b) {
            lemma_filter_keeps(g[a], keep, b);
        }
    }
}

/// Cut down to a set that holds what its members read, a graph leads from a
/// member wherever it led before.
pub proof fn lemma_restrict_closed(g: Map<u64, Seq<u64>>, s: Set<u64>, a: u64, b: u64)
    requires
        closed_under(g, s),
        s.contains(a),
    ensures
        reaches(restrict(g, s), a, b) <==> reaches(g, a, b),
        reaches_by_edge(restrict(g, s), a, b) <==> reaches_by_edge(g, a, b),
{
    lemma_restrict_closed_walks(g, s, a, b);
    if reaches_by_edge(g, a, b) {
        let m = choose|m: u64| #[trigger] reads(g, a, m) && reaches(g, m, b);
        lemma_restrict_reads(g, s, a, m);
        lemma_restrict_closed_walks(g, s, m, b);
        assert(reads(restrict(g, s), a, m));
    }
    if reaches_by_edge(restrict(g, s), a, b) {
        let m = choose|m: u64|
            #[trigger] reads(restrict(g, s), a, m) && reaches(restrict(g, s), m, b);
        lemma_restrict_reads(g, s, a, m);
        lemma_restrict_closed_walks(g, s, m, b);
        assert(reads(g, a, m));
    }
}

proof fn lemma_restrict_closed_walks(g: Map<u64, Seq<u64>>, s: Set<u64>, a: u64, b: u64)
    requires
        closed_under(g, s),
        s.contains(a),
    ensures
        reaches(restrict(g, s), a, b) <==> reaches(g, a, b),
{
    let h = restrict(g, s);
    if reaches(g, a, b) {
        let p = choose|p: Seq<u64>| #[trigger] is_walk(g, p) && p[0] == a && p.last() == b;
        assert(is_walk(h, p)) by {
            assert forall|i: int, j: int|
                #![trigger p[i], p[j]]
                0 <= i && j == i + 1 && j < p.len() implies reads(h, p[i], p[j]) by {
                lemma_walk_stays(g, s, p, i);
                lemma_walk_stays(g, s, p, j);
                lemma_restrict_reads(g, s, p[i], p[j]);
            }
        }
    }
    if reaches(h, a, b) {
        let p = choose|p: Seq<u64>| #[trigger] is_walk(h, p) && p[0] == a && p.last() == b;
        assert(is_walk(g, p)) by {
            assert forall|i: int, j: int|
                #![trigger p[i], p[j]]
                0 <= i && j == i + 1 && j < p.len() implies reads(g, p[i], p[j]) by {
                assert(reads(h, p[i], p[j]));
                lemma_restrict_reads(g, s, p[i], p[j]);
            }
        }
    }
}

proof fn lemma_filter_comes_from(s: Seq<u64>, keep: spec_fn(u64) -> bool, b: u64)
    requires
        s.filter(keep).contains(b),
    ensures
        s.contains(b),
        keep(b),
    decreases s.len(),
{
    reveal(Seq::filter);
    if s.len() > 0 {
        let f = s.filter(keep);
        let rest = s.drop_last().filter(keep);
        let i = choose|i: int| 0 <= i < f.len() && f[i] == b;
        if keep(s.last()) && i == f.len() - 1 {
            assert(s[s.len() - 1] == b);
        } else {
            assert(rest[i] == b);
            assert(rest.contains(b));
            lemma_filter_comes_from(s.drop_last(), keep, b);
            let j = choose|j: int| 0 <= j < s.drop_last().len() && s.drop_last()[j] == b;
            assert(s[j] == b);
        }
    }
}

proof fn lemma_filter_keeps(s: Seq<u64>, keep: spec_fn(u64) -> bool, b: u64)
    requires
        s.contains(b),
        keep(b),
    ensures
        s.filter(keep).contains(b),
    decreases s.len(),
{
    reveal(Seq::filter);
    let f = s.filter(keep);
    let i = choose|i: int| 0 <= i < s.len() && s[i] == b;
    if i == s.len() - 1 {
        assert(f.last() == b);
        assert(f[f.len() - 1] == b);
    } else {
        assert(s.drop_last()[i] == b);
        lemma_filter_keeps(s.drop_last(), keep, b);
        let rest = s.drop_last().filter(keep);
        let j = choose|j: int| 0 <= j < rest.len() && rest[j] == b;
        assert(f[j] == b);
    }
}

/// In a list with dependencies first, a node comes before whatever reaches it.
pub proof fn lemma_order_respects_reach(
    g: Map<u64, Seq<u64>>,
    order: Seq<u64>,
    i: int,
    b: u64,
)
    requires
        dependencies_first(g, order),
        0 <= i < order.len(),
        reaches_by_edge(g, order[i], b),
    ensures
        exists|j: int| 0 <= j < i && order[j] == b,
    decreases i,
{
    let m = choose|m: u64| #[trigger] reads(g, order[i], m) && reaches(g, m, b);
    assert(reads(g, order[i], m));
    let k = choose|k: int| 0 <= k < i && #[trigger] order[k] == m;
    lemma_reaches_first_step(g, m, b);
    if m != b {
        lemma_order_respects_reach(g, order, k, b);
        let j = choose|j: int| 0 <= j < k && order[j] == b;
        assert(0 <= j < i && order[j] == b);
    } else {
        assert(order[k] == b);
    }
}

/// No listed node depends on itself where dependencies come first.
pub proof fn lemma_order_excludes_cycles(g: Map<u64, Seq<u64>>, order: Seq<u64>, i: int)
    requires
        dependencies_first(g, order),
        0 <= i < order.len(),
    ensures
        !on_cycle(g, order[i]),
{
    if on_cycle(g, order[i]) {
        lemma_order_respects_reach(g, order, i, order[i]);
        let j = choose|j: int| 0 <= j < i && order[j] == order[i];
        assert(order[j] != order[i]);
    }
}

/// What a listed node reaches is listed, where dependencies come first.
pub proof fn lemma_order_is_closed(g: Map<u64, Seq<u64>>, order: Seq<u64>)
    requires
        dependencies_first(g, order),
    ensures
        closed_under(g, order.to_set()),
{
    assert forall|a: u64, b: u64| order.to_set().contains(a) && #[trigger] reads(g, a, b) implies
        order.to_set().contains(b) by {
        let i = choose|i: int| 0 <= i < order.len() && order[i] == a;
        assert(reads(g, order[i], b));
    }
}

/// Taking edges away adds no walk and no cycle.
pub proof fn lemma_fewer_edges(g: Map<u64, Seq<u64>>, h: Map<u64, Seq<u64>>)
    requires
        forall|a: u64, b: u64| #[trigger] reads(h, a, b) ==> reads(g, a, b),
    ensures
        forall|a: u64, b: u64| #[trigger] reaches(h, a, b) ==> reaches(g, a, b),
        acyclic(g) ==> acyclic(h),
{
    assert forall|a: u64, b: u64| #[trigger] reaches(h, a, b) implies reaches(g, a, b) by {
        let p = choose|p: Seq<u64>| #[trigger] is_walk(h, p) && p[0] == a && p.last() == b;
        assert(is_walk(g, p));
    }
    if acyclic(g) {
        assert forall|a: u64| !#[trigger] on_cycle(h, a) by {
            if on_cycle(h, a) {
                let m = choose|m: u64| #[trigger] reads(h, a, m) && reaches(h, m, a);
                assert(reads(g, a, m) && reaches(g, m, a));
                assert(on_cycle(g, a));
            }
        }
    }
}

/// The graphs agree on the edges of every node but `n`.
pub open spec fn agree_but_at(g: Map<u64, Seq<u64>>, h: Map<u64, Seq<u64>>, n: u64) -> bool {
    forall|a: u64, b: u64|
        #![trigger reads(g, a, b)]
        #![trigger reads(h, a, b)]
        a != n ==> (reads(g, a, b) <==> reads(h, a, b))
}

/// Graphs that agree but at `n` have the same nodes reaching `n`: the walk up
/// to its first visit of `n` is in both.
pub proof fn lemma_agree_reaching(
    g: Map<u64, Seq<u64>>,
    h: Map<u64, Seq<u64>>,
    n: u64,
    a: u64,
)
    requires
        agree_but_at(g, h, n),
        reaches(h, a, n),
    ensures
        reaches(g, a, n),
{
    let p = choose|p: Seq<u64>| #[trigger] is_walk(h, p) && p[0] == a && p.last() == n;
    lemma_agree_walk(g, h, n, p);
}

proof fn lemma_agree_walk(g: Map<u64, Seq<u64>>, h: Map<u64, Seq<u64>>, n: u64, p: Seq<u64>)
    requires
        agree_but_at(g, h, n),
        is_walk(h, p),
    ensures
        reaches(g, p[0], p.last()) || (reaches(h, p[0], n) && reaches(h, n, p.last())),
        p.last() == n ==> reaches(g, p[0], n),
    decreases p.len(),
{
    let a = p[0];
    let b = p.last();
    lemma_reaches_self(g, a);
    lemma_reaches_self(h, a);
    if p.len() == 1 {
    } else if a == n {
        assert(reaches(h, n, b));
    } else {
        let q = p.subrange(1, p.len() as int);
        assert(is_walk(h, q)) by {
            assert forall|i: int, j: int|
                #![trigger q[i], q[j]]
                0 <= i && j == i + 1 && j < q.len() implies reads(h, q[i], q[j]) by {
                assert(q[i] == p[i + 1]);
                assert(q[j] == p[j + 1]);
            }
        }
        assert(q[0] == p[1] && q.last() == b);
        lemma_agree_walk(g, h, n, q);
        assert(reads(h, a, p[1]));
        assert(reads(g, a, p[1]));
        if reaches(g, p[1], b) {
            lemma_reads_then_reaches(g, a, p[1], b);
        } else {
            lemma_reads_then_reaches(h, a, p[1], n);
        }
        if b == n {
            lemma_reads_then_reaches(g, a, p[1], n);
        }
    }
}

/// Where graphs agree but at `n`, a walk of the one is one of the other or
/// goes through `n`.
pub proof fn lemma_agree_or_through(
    g: Map<u64, Seq<u64>>,
    h: Map<u64, Seq<u64>>,
    n: u64,
    a: u64,
    b: u64,
)
    requires
        agree_but_at(g, h, n),
        reaches(h, a, b),
    ensures
        reaches(g, a, b) || (reaches(h, a, n) && reaches(h, n, b)),
{
    let p = choose|p: Seq<u64>| #[trigger] is_walk(h, p) && p[0] == a && p.last() == b;
    lemma_agree_walk(g, h, n, p);
}

/// Changing the edges of one node makes a cycle exactly where one of its new
/// edges leads to a node from which it could be reached before.
pub proof fn lemma_changed_node(g: Map<u64, Seq<u64>>, h: Map<u64, Seq<u64>>, n: u64)
    requires
        acyclic(g),
        agree_but_at(g, h, n),
    ensures
        cycle_from(h, n) <==> exists|m: u64| #[trigger] reads(h, n, m) && reaches(g, m, n),
        cycle_from(h, n) <==> !acyclic(h),
{
    if exists|m: u64| #[trigger] reads(h, n, m) && reaches(g, m, n) {
        let m = choose|m: u64| #[trigger] reads(h, n, m) && reaches(g, m, n);
        lemma_agree_reaching(h, g, n, m);
        lemma_reaches_self(h, n);
        assert(on_cycle(h, n));
    }
    assert forall|x: u64| #[trigger] on_cycle(h, x) implies cycle_from(h, n) && exists|m: u64|
        #[trigger]
        reads(h, n, m) && reaches(g, m, n) by {
        lemma_cycle_goes_through(g, h, n, x);
    }
    if cycle_from(h, n) {
        let x = choose|x: u64| #[trigger] reaches(h, n, x) && on_cycle(h, x);
        assert(on_cycle(h, x));
    }
}

proof fn lemma_cycle_goes_through(
    g: Map<u64, Seq<u64>>,
    h: Map<u64, Seq<u64>>,
    n: u64,
    x: u64,
)
    requires
        acyclic(g),
        agree_but_at(g, h, n),
        on_cycle(h, x),
    ensures
        cycle_from(h, n),
        exists|m: u64| #[trigger] reads(h, n, m) && reaches(g, m, n),
{
    let m = choose|m: u64| #[trigger] reads(h, x, m) && reaches(h, m, x);
    if x == n {
        lemma_reaches_self(h, n);
        lemma_agree_reaching(g, h, n, m);
        assert(reads(h, n, m) && reaches(g, m, n));
    } else {
        assert(reads(g, x, m));
        lemma_agree_or_through(g, h, n, m, x);
        if reaches(g, m, x) {
            assert(on_cycle(g, x));
            assert(false);
        }
        lemma_reaches_first_step(h, n, x);
        let k = choose|k: u64| #[trigger] reads(h, n, k) && reaches(h, k, x);
        lemma_reads_then_reaches(h, x, m, n);
        lemma_reaches_joins(h, k, x, n);
        lemma_agree_reaching(g, h, n, k);
        assert(reads(h, n, k) && reaches(g, k, n));
    }
}

/// Within a set that holds what its members read, cutting the graph down to
/// the set changes no member's edges.
pub proof fn lemma_restrict_children(g: Map<u64, Seq<u64>>, s: Set<u64>, a: u64)
    requires
        closed_under(g, s),
        s.contains(a),
    ensures
        children(restrict(g, s), a) == children(g, a),
{
    let keep = |b: u64| s.contains(b);
    if g.dom().contains(a) {
        assert forall|i: int| 0 <= i < g[a].len() implies keep(#[trigger] g[a][i]) by {
            assert(reads(g, a, g[a][i]));
        }
        lemma_filter_all(g[a], keep);
        assert(restrict(g, s)[a] == g[a].filter(keep));
    }
}

proof fn lemma_filter_all(s: Seq<u64>, keep: spec_fn(u64) -> bool)
    requires
        forall|i: int| 0 <= i < s.len() ==> keep(#[trigger] s[i]),
    ensures
        s.filter(keep) == s,
    decreases s.len(),
{
    reveal(Seq::filter);
    if s.len() > 0 {
        assert(keep(s[s.len() - 1]));
        assert forall|i: int| 0 <= i < s.drop_last().len() implies keep(
            #[trigger] s.drop_last()[i],
        ) by {
            assert(keep(s[i]));
        }
        lemma_filter_all(s.drop_last(), keep);
        assert(s.drop_last().push(s.last()) =~= s);
    }
}

/// The order in which nodes are listed does not depend on what lies outside a
/// set that holds what its members read.
pub proof fn lemma_restrict_post_order(
    g: Map<u64, Seq<u64>>,
    s: Set<u64>,
    ids: Seq<u64>,
    order: Seq<u64>,
    depth: nat,
)
    requires
        closed_under(g, s),
        forall|i: int| 0 <= i < ids.len() ==> s.contains(#[trigger] ids[i]),
    ensures
        post_order_all(restrict(g, s), ids, order, depth) == post_order_all(g, ids, order, depth),
    decreases depth, ids.len(),
{
    if ids.len() > 0 {
        lemma_restrict_post_order(g, s, ids.drop_last(), order, depth);
        let id = ids.last();
        assert(s.contains(ids[ids.len() - 1]));
        let before = post_order_all(g, ids.drop_last(), order, depth);
        if !before.contains(id) && depth > 0 {
            lemma_restrict_children(g, s, id);
            assert forall|i: int| 0 <= i < children(g, id).len() implies s.contains(
                #[trigger] children(g, id)[i],
            ) by {
                assert(reads(g, id, children(g, id)[i]));
            }
            lemma_restrict_post_order(g, s, children(g, id), before, (depth - 1) as nat);
        }
        let h = restrict(g, s);
        assert(post_order(h, id, before, depth) == post_order(g, id, before, depth)) by {
            reveal_with_fuel(post_order, 2);
        }
        reveal_with_fuel(post_order_all, 2);
    }
}

/// A walk that moves ends with an edge.
pub proof fn lemma_reaches_last_step(g: Map<u64, Seq<u64>>, a: u64, b: u64) -> (y: u64)
    requires
        reaches(g, a, b),
        a != b,
    ensures
        reaches(g, a, y),
        reads(g, y, b),
{
    let p = choose|p: Seq<u64>| #[trigger] is_walk(g, p) && p[0] == a && p.last() == b;
    let n = p.len() as int;
    let q = p.take(n - 1);
    assert(is_walk(g, q)) by {
        assert forall|i: int, j: int|
            #![trigger q[i], q[j]]
            0 <= i && j == i + 1 && j < q.len() implies reads(g, q[i], q[j]) by {
            assert(q[i] == p[i] && q[j] == p[j]);
        }
    }
    assert(q[0] == a && q.last() == p[n - 2]);
    assert(reads(g, p[n - 2], p[n - 1]));
    p[n - 2]
}

/// Cutting a graph down to its own nodes keeps its cycles: a node that is no
/// key reads nothing, so it is on none.
pub proof fn lemma_restrict_to_nodes(g: Map<u64, Seq<u64>>)
    ensures
        acyclic(restrict(g, g.dom())) <==> acyclic(g),
{
    let h = restrict(g, g.dom());
    assert forall|a: u64, b: u64| #[trigger] reads(h, a, b) implies reads(g, a, b) by {
        lemma_restrict_reads(g, g.dom(), a, b);
    }
    lemma_fewer_edges(g, h);
    if acyclic(h) {
        assert forall|x: u64| !#[trigger] on_cycle(g, x) by {
            if on_cycle(g, x) {
                let m = choose|m: u64| #[trigger] reads(g, x, m) && reaches(g, m, x);
                let p = choose|p: Seq<u64>| #[trigger] is_walk(g, p) && p[0] == m && p.last() == x;
                assert forall|i: int| 0 <= i < p.len() implies g.dom().contains(
                    #[trigger] p[i],
                ) by {
                    if i < p.len() - 1 {
                        assert(reads(g, p[i], p[i + 1]));
                    }
                }
                assert(is_walk(h, p)) by {
                    assert forall|i: int, j: int|
                        #![trigger p[i], p[j]]
                        0 <= i && j == i + 1 && j < p.len() implies reads(h, p[i], p[j]) by {
                        lemma_restrict_reads(g, g.dom(), p[i], p[j]);
                    }
                }
                assert(g.dom().contains(p[0]));
                lemma_restrict_reads(g, g.dom(), x, m);
                assert(reads(h, x, m) && reaches(h, m, x));
                assert(on_cycle(h, x));
            }
        }
    }
}

/// Whatever an order held before a node is appended stays in front, the node
/// itself comes last, and of several nodes the earlier ones are appended first:
/// what a list gives starts with what its first few give.
pub proof fn law_nodes_are_ordered_in_turn(
    g: Map<u64, Seq<u64>>,
    ids: Seq<u64>,
    order: Seq<u64>,
    depth: nat,
    k: int,
)
    requires
        0 <= k <= ids.len(),
    ensures
        order.is_prefix_of(post_order_all(g, ids.take(k), order, depth)),
        post_order_all(g, ids.take(k), order, depth).is_prefix_of(
            post_order_all(g, ids, order, depth),
        ),
    decreases depth, ids.len(),
{
    let part = post_order_all(g, ids.take(k), order, depth);
    let all = post_order_all(g, ids, order, depth);
    if k < ids.len() {
        let front = ids.drop_last();
        law_nodes_are_ordered_in_turn(g, front, order, depth, k);
        assert(front.take(k) =~= ids.take(k));
        let most = post_order_all(g, front, order, depth);
        lemma_node_extends(g, ids.last(), most, depth);
        lemma_prefix_joins(part, most, all);
    } else {
        assert(ids.take(k) =~= ids);
        assert(all.subrange(0, all.len() as int) =~= all);
        if ids.len() > 0 {
            let front = ids.drop_last();
            law_nodes_are_ordered_in_turn(g, front, order, depth, front.len() as int);
            assert(front.take(front.len() as int) =~= front);
            let most = post_order_all(g, front, order, depth);
            lemma_node_extends(g, ids.last(), most, depth);
            lemma_prefix_joins(order, most, all);
        }
    }
}

/// A node goes behind what was there and what it reads.
proof fn lemma_node_extends(g: Map<u64, Seq<u64>>, id: u64, order: Seq<u64>, depth: nat)
    ensures
        order.is_prefix_of(post_order(g, id, order, depth)),
    decreases depth, 0nat,
{
    let after = post_order(g, id, order, depth);
    if order.contains(id) || depth == 0 {
        assert(order.subrange(0, order.len() as int) =~= order);
    } else {
        let below = children(g, id);
        let d = (depth - 1) as nat;
        law_nodes_are_ordered_in_turn(g, below, order, d, below.len() as int);
        assert(below.take(below.len() as int) =~= below);
        let first = post_order_all(g, below, order, d);
        assert(after.subrange(0, first.len() as int) =~= first);
        lemma_prefix_joins(order, first, after);
    }
}

proof fn lemma_prefix_joins(a: Seq<u64>, b: Seq<u64>, c: Seq<u64>)
    requires
        a.is_prefix_of(b),
        b.is_prefix_of(c),
    ensures
        a.is_prefix_of(c),
{
    assert(c.subrange(0, a.len() as int) =~= b.subrange(0, a.len() as int));
}

/// A node that is appended to an order without it comes last, right behind what
/// its inputs, in order, add.
pub proof fn law_a_node_follows_its_inputs(
    g: Map<u64, Seq<u64>>,
    id: u64,
    order: Seq<u64>,
    depth: nat,
)
    ensures
        order.contains(id) ==> post_order(g, id, order, depth) == order,
        !order.contains(id) && depth > 0 ==> {
            let after = post_order(g, id, order, depth);
            &&& after.last() == id
            &&& g.dom().contains(id) ==> after.drop_last() == post_order_all(
                g,
                g[id],
                order,
                (depth - 1) as nat,
            )
            &&& !g.dom().contains(id) ==> after.drop_last() == order
        },
{
    if !order.contains(id) && depth > 0 {
        let after = post_order(g, id, order, depth);
        assert(after.drop_last() =~= post_order_all(g, children(g, id), order, (depth - 1) as nat));
    }
}

} // verus!
