//! Giving out slots along an order of layers.
use std::collections::HashMap;

use vstd::prelude::*;

use crate::edit::lemma_layer_reads;
use crate::graph::{has_layer, ids_ascend, place_of, Graph};
use crate::id::{raw_ids, LayerId};
use crate::reach::{dependencies_first, reads};

verus! {

/// The last of the first `k` places whose layer reads `x`, or -1.
pub open spec fn last_reader(g: Map<u64, Seq<u64>>, order: Seq<u64>, x: u64, k: int) -> int
    decreases k,
{
    if k <= 0 {
        -1
    } else if reads(g, order[k - 1], x) {
        k - 1
    } else {
        last_reader(g, order, x, k - 1)
    }
}

/// The step at which the layer at place `i` is needed last: its last reader's,
/// or the end of the order if it is a root.
pub open spec fn last_use(
    g: Map<u64, Seq<u64>>,
    order: Seq<u64>,
    roots: Seq<u64>,
    i: int,
) -> int {
    if roots.contains(order[i]) {
        order.len() as int
    } else {
        let l = last_reader(g, order, order[i], order.len() as int);
        if l > i {
            l
        } else {
            i
        }
    }
}

/// The places of the layers that are live at step `t`: computed by then, and
/// needed then or later.
pub open spec fn live_at(
    g: Map<u64, Seq<u64>>,
    order: Seq<u64>,
    roots: Seq<u64>,
    t: int,
) -> Set<int> {
    Set::new(|i: int| 0 <= i <= t && last_use(g, order, roots, i) >= t)
}

/// Every layer of the order has a slot, no two layers that are live at once
/// share one, and there are no more slots than there are layers live at once
/// at some step.
pub open spec fn valid_allocation(
    g: Map<u64, Seq<u64>>,
    order: Seq<u64>,
    roots: Seq<u64>,
    slot_of: Map<u64, u32>,
    peak: u32,
) -> bool {
    &&& slot_of.dom() == order.to_set()
    &&& forall|i: int| 0 <= i < order.len() ==> slot_of[#[trigger] order[i]] < peak
    &&& forall|i: int, j: int|
        #![trigger order[i], order[j]]
        0 <= i < j < order.len() && last_use(g, order, roots, i) >= j ==> slot_of[order[i]]
            != slot_of[order[j]]
    &&& forall|t: int|
        0 <= t < order.len() ==> #[trigger] live_at(g, order, roots, t).len() <= peak
    &&& if order.len() == 0 {
        peak == 0
    } else {
        exists|t: int|
            0 <= t < order.len() && #[trigger] live_at(g, order, roots, t).len() == peak
    }
}

/// Every layer of the order is needed after it is computed.
pub open spec fn all_needed(g: Map<u64, Seq<u64>>, order: Seq<u64>, roots: Seq<u64>) -> bool {
    forall|i: int| 0 <= i < order.len() ==> #[trigger] last_use(g, order, roots, i) > i
}

/// Every id of the order belongs to a layer.
pub open spec fn order_known(graph: Graph, order: Seq<LayerId>) -> bool {
    forall|i: int| 0 <= i < order.len() ==> has_layer(graph.layers@, (#[trigger] order[i]).0)
}

proof fn lemma_last_reader(g: Map<u64, Seq<u64>>, order: Seq<u64>, x: u64, k: int)
    requires
        0 <= k <= order.len(),
    ensures
        -1 <= last_reader(g, order, x, k) < k || k == 0,
        last_reader(g, order, x, k) >= 0 ==> reads(g, order[last_reader(g, order, x, k)], x),
        forall|j: int|
            last_reader(g, order, x, k) < j < k ==> !reads(g, #[trigger] order[j], x),
    decreases k,
{
    if k > 0 && !reads(g, order[k - 1], x) {
        lemma_last_reader(g, order, x, k - 1);
    }
}

/// A reader is no later than the last reader.
pub proof fn lemma_last_reader_bounds(
    g: Map<u64, Seq<u64>>,
    order: Seq<u64>,
    x: u64,
    j: int,
)
    requires
        0 <= j < order.len(),
        reads(g, order[j], x),
    ensures
        j <= last_reader(g, order, x, order.len() as int) < order.len(),
{
    lemma_last_reader(g, order, x, order.len() as int);
}

/// Where an id stands in a list with dependencies first.
proof fn lemma_input_place(g: Map<u64, Seq<u64>>, order: Seq<u64>, k: int, x: u64) -> (i: int)
    requires
        dependencies_first(g, order),
        0 <= k < order.len(),
        reads(g, order[k], x),
    ensures
        0 <= i < k,
        order[i] == x,
{
    choose|i: int| 0 <= i < k && #[trigger] order[i] == x
}

/// The step at which each layer of the order is needed last.
fn last_uses(graph: &Graph, order: &Vec<LayerId>, roots: &Vec<LayerId>) -> (r: HashMap<u64, usize>)
    requires
        ids_ascend(graph.layers@),
        order_known(*graph, order@),
        dependencies_first(graph.edges(), raw_ids(order@)),
    ensures
        forall|i: int|
            0 <= i < order@.len() ==> r@.dom().contains((#[trigger] order@[i]).0)
                && r@[order@[i].0] == last_use(
                graph.edges(),
                raw_ids(order@),
                raw_ids(roots@),
                i,
            ),
{
    let ghost g = graph.edges();
    let ghost o = raw_ids(order@);
    let ghost rs = raw_ids(roots@);
    let mut last: HashMap<u64, usize> = HashMap::new();
    let mut k: usize = 0;
    while k < order.len()
        invariant
            k <= order@.len(),
            ids_ascend(graph.layers@),
            order_known(*graph, order@),
            g == graph.edges(),
            o == raw_ids(order@),
            dependencies_first(g, o),
            forall|j: int|
                0 <= j < k ==> last@.dom().contains(#[trigger] o[j]) && last@[o[j]] == later(
                    j,
                    last_reader(g, o, o[j], k as int),
                ),
        decreases order@.len() - k,
    {
        let id = order[k];
        let ghost before = last@;
        assert(o[k as int] == id.0);
        last.insert(id.0, k);
        let inputs = match graph.get(id) {
            Some(l) => l.kind.inputs(),
            None => Vec::new(),
        };
        proof {
            assert(has_layer(graph.layers@, order@[k as int].0));
            assert forall|x: u64| reads(g, id.0, x) <==> #[trigger] raw_ids(inputs@).contains(x) by {}
        }
        let mut p: usize = 0;
        while p < inputs.len()
            invariant
                p <= inputs@.len(),
                k < order@.len(),
                o == raw_ids(order@),
                o[k as int] == id.0,
                dependencies_first(g, o),
                forall|x: u64|
                    reads(g, id.0, x) <==> #[trigger] raw_ids(inputs@).contains(x),
                forall|j: int|
                    0 <= j < k ==> before.dom().contains(#[trigger] o[j]) && before[o[j]] == later(
                        j,
                        last_reader(g, o, o[j], k as int),
                    ),
                forall|j: int|
                    0 <= j <= k ==> last@.dom().contains(#[trigger] o[j]) && last@[o[j]] == (if j
                        == k || raw_ids(inputs@).take(p as int).contains(o[j]) {
                        k
                    } else {
                        before[o[j]]
                    }),
            decreases inputs@.len() - p,
        {
            let ghost taken = raw_ids(inputs@).take(p as int);
            let ghost next = raw_ids(inputs@).take(p + 1);
            proof {
                assert(next =~= taken.push(inputs@[p as int].0));
                assert forall|x: u64| #[trigger] next.contains(x) <==> taken.contains(x) || x
                    == inputs@[p as int].0 by {
                    if taken.contains(x) {
                        let q = choose|q: int| 0 <= q < taken.len() && taken[q] == x;
                        assert(next[q] == x);
                    }
                    if x == inputs@[p as int].0 {
                        assert(next[p as int] == x);
                    }
                    if next.contains(x) && x != inputs@[p as int].0 {
                        let q = choose|q: int| 0 <= q < next.len() && next[q] == x;
                        assert(taken[q] == x);
                    }
                }
            }
            last.insert(inputs[p].0, k);
            p += 1;
        }
        proof {
            assert(raw_ids(inputs@).take(p as int) =~= raw_ids(inputs@));
            assert forall|j: int| 0 <= j < k + 1 implies last@.dom().contains(#[trigger] o[j])
                && last@[o[j]] == later(j, last_reader(g, o, o[j], k + 1)) by {
                if j < k {
                    assert(raw_ids(inputs@).contains(o[j]) <==> reads(g, o[k as int], o[j]));
                } else {
                    lemma_last_reader(g, o, o[j], k + 1);
                }
            }
        }
        k += 1;
    }
    let ghost reads_only = last@;
    let mut r: usize = 0;
    while r < roots.len()
        invariant
            r <= roots@.len(),
            rs == raw_ids(roots@),
            o == raw_ids(order@),
            forall|j: int|
                0 <= j < o.len() ==> reads_only.dom().contains(#[trigger] o[j]) && reads_only[o[j]]
                    == later(j, last_reader(g, o, o[j], o.len() as int)),
            forall|j: int|
                0 <= j < o.len() ==> last@.dom().contains(#[trigger] o[j]) && last@[o[j]] == (
                if rs.take(r as int).contains(o[j]) {
                    o.len()
                } else {
                    reads_only[o[j]] as nat
                }),
        decreases roots@.len() - r,
    {
        let ghost taken = rs.take(r as int);
        let ghost next = rs.take(r + 1);
        proof {
            assert(next =~= taken.push(roots@[r as int].0));
            assert forall|x: u64| #[trigger] next.contains(x) <==> taken.contains(x) || x
                == roots@[r as int].0 by {
                if taken.contains(x) {
                    let q = choose|q: int| 0 <= q < taken.len() && taken[q] == x;
                    assert(next[q] == x);
                }
                if x == roots@[r as int].0 {
                    assert(next[r as int] == x);
                }
                if next.contains(x) && x != roots@[r as int].0 {
                    let q = choose|q: int| 0 <= q < next.len() && next[q] == x;
                    assert(taken[q] == x);
                }
            }
        }
        last.insert(roots[r].0, order.len());
        r += 1;
    }
    proof {
        assert(rs.take(r as int) =~= rs);
        assert forall|i: int| 0 <= i < order@.len() implies last@.dom().contains(
            (#[trigger] order@[i]).0,
        ) && last@[order@[i].0] == last_use(g, o, rs, i) by {
            assert(o[i] == order@[i].0);
        }
    }
    last
}

/// The later of two steps.
spec fn later(a: int, b: int) -> int {
    if b > a {
        b
    } else {
        a
    }
}

/// True where the id at place `p` occurs again further on.
fn occurs_later(ids: &Vec<LayerId>, p: usize) -> (r: bool)
    requires
        p < ids@.len(),
    ensures
        r == ids@.skip(p + 1).contains(ids@[p as int]),
{
    let n: usize = ids.len();
    let mut q: usize = p + 1;
    while q < n
        invariant
            n == ids@.len(),
            p < q <= n,
            forall|j: int| p < j < q ==> #[trigger] ids@[j] != ids@[p as int],
        decreases ids@.len() - q,
    {
        if ids[q].0 == ids[p].0 {
            assert(ids@.skip(p + 1)[q - p - 1] == ids@[p as int]);
            return true;
        }
        q += 1;
    }
    proof {
        if ids@.skip(p + 1).contains(ids@[p as int]) {
            let s = ids@.skip(p + 1);
            let j = choose|j: int| 0 <= j < s.len() && s[j] == ids@[p as int];
            assert(ids@[p + 1 + j] == ids@[p as int]);
        }
    }
    false
}

/// The places of the layers that hold a slot before step `k`.
spec fn held(g: Map<u64, Seq<u64>>, order: Seq<u64>, roots: Seq<u64>, k: int) -> Set<int> {
    Set::new(|i: int| 0 <= i < k && last_use(g, order, roots, i) >= k)
}

/// The places whose slots were given back once the first `p` inputs of step `k`
/// are dealt with.
spec fn given_back(
    g: Map<u64, Seq<u64>>,
    order: Seq<u64>,
    roots: Seq<u64>,
    inputs: Seq<LayerId>,
    k: int,
    p: int,
) -> Set<int> {
    Set::new(
        |i: int|
            0 <= i < k && last_use(g, order, roots, i) == k && inputs.take(p).contains(
                LayerId(order[i]),
            ) && !inputs.skip(p).contains(LayerId(order[i])),
    )
}

proof fn lemma_held_finite(g: Map<u64, Seq<u64>>, order: Seq<u64>, roots: Seq<u64>, k: int)
    requires
        0 <= k < order.len(),
        last_use(g, order, roots, k) >= k,
    ensures
        held(g, order, roots, k).finite(),
        live_at(g, order, roots, k).finite(),
        live_at(g, order, roots, k) == held(g, order, roots, k).insert(k),
        live_at(g, order, roots, k).len() == held(g, order, roots, k).len() + 1,
{
    let all = vstd::set_lib::set_int_range(0, k);
    vstd::set_lib::lemma_int_range(0, k);
    let s = held(g, order, roots, k);
    assert(s.subset_of(all));
    vstd::set_lib::lemma_set_subset_finite(all, s);
    assert(live_at(g, order, roots, k) =~= s.insert(k));
}

/// One more input dealt with: its layer's slot is given back where this is the
/// layer's last use and the input does not come again.
proof fn lemma_given_back_step(
    g: Map<u64, Seq<u64>>,
    order: Seq<u64>,
    roots: Seq<u64>,
    inputs: Seq<LayerId>,
    k: int,
    p: int,
    i: int,
)
    requires
        order.no_duplicates(),
        0 <= k < order.len(),
        0 <= p < inputs.len(),
        0 <= i < k,
        inputs[p].0 == order[i],
    ensures
        ({
            let before = given_back(g, order, roots, inputs, k, p);
            let after = given_back(g, order, roots, inputs, k, p + 1);
            &&& !before.contains(i)
            &&& if last_use(g, order, roots, i) == k && !inputs.skip(p + 1).contains(inputs[p]) {
                after == before.insert(i)
            } else {
                after == before
            }
        }),
{
    let before = given_back(g, order, roots, inputs, k, p);
    let after = given_back(g, order, roots, inputs, k, p + 1);
    let x = inputs[p];
    assert(inputs.skip(p)[0] == x);
    assert(!before.contains(i)) by {
        assert(inputs.skip(p).contains(x));
    }
    assert forall|y: LayerId| y != x implies (inputs.take(p + 1).contains(y) <==> inputs.take(
        p,
    ).contains(y)) && (inputs.skip(p + 1).contains(y) <==> inputs.skip(p).contains(y)) by {
        let (a, b) = (inputs.take(p), inputs.take(p + 1));
        let (c, d) = (inputs.skip(p), inputs.skip(p + 1));
        if a.contains(y) {
            let q = choose|q: int| 0 <= q < a.len() && a[q] == y;
            assert(b[q] == y);
        }
        if b.contains(y) {
            let q = choose|q: int| 0 <= q < b.len() && b[q] == y;
            assert(a[q] == y);
        }
        if c.contains(y) {
            let q = choose|q: int| 0 <= q < c.len() && c[q] == y;
            assert(d[q - 1] == y);
        }
        if d.contains(y) {
            let q = choose|q: int| 0 <= q < d.len() && d[q] == y;
            assert(c[q + 1] == y);
        }
    }
    assert(inputs.take(p + 1).contains(x)) by {
        assert(inputs.take(p + 1)[p] == x);
    }
    assert forall|j: int| 0 <= j < k && j != i implies LayerId(order[j]) != x by {
        assert(order[j] != order[i]);
    }
    if last_use(g, order, roots, i) == k && !inputs.skip(p + 1).contains(x) {
        assert(after =~= before.insert(i));
    } else {
        assert(after =~= before);
    }
}

/// Gives every layer of the order a slot. A slot is given back when the last
/// reader of its layer has run, and given out again last in, first out.
pub(crate) fn allocate(graph: &Graph, order: &Vec<LayerId>, roots: &Vec<LayerId>) -> (r: (
    HashMap<u64, u32>,
    u32,
))
    requires
        ids_ascend(graph.layers@),
        order_known(*graph, order@),
        dependencies_first(graph.edges(), raw_ids(order@)),
        all_needed(graph.edges(), raw_ids(order@), raw_ids(roots@)),
        order@.len() <= u32::MAX,
    ensures
        valid_allocation(
            graph.edges(),
            raw_ids(order@),
            raw_ids(roots@),
            r.0@,
            r.1,
        ),
{
    let ghost g = graph.edges();
    let ghost o = raw_ids(order@);
    let ghost rs = raw_ids(roots@);
    let last = last_uses(graph, order, roots);
    let mut slot_of: HashMap<u64, u32> = HashMap::new();
    let mut free_pool: Vec<u32> = Vec::new();
    let mut peak_slots: u32 = 0;
    let mut k: usize = 0;
    proof {
        assert(held(g, o, rs, 0) =~= Set::<int>::empty());
        assert(slot_of@.dom() =~= o.take(0).to_set());
    }
    while k < order.len()
        invariant
            k <= order@.len(),
            ids_ascend(graph.layers@),
            order_known(*graph, order@),
            g == graph.edges(),
            o == raw_ids(order@),
            rs == raw_ids(roots@),
            dependencies_first(g, o),
            all_needed(g, o, rs),
            order@.len() <= u32::MAX,
            forall|i: int|
                0 <= i < order@.len() ==> last@.dom().contains((#[trigger] order@[i]).0)
                    && last@[order@[i].0] == last_use(g, o, rs, i),
            peak_slots <= k,
            slot_of@.dom() == o.take(k as int).to_set(),
            forall|i: int| 0 <= i < k ==> slot_of@[#[trigger] o[i]] < peak_slots,
            forall|q: int| 0 <= q < free_pool@.len() ==> (#[trigger] free_pool@[q]) < peak_slots,
            free_pool@.no_duplicates(),
            forall|i: int|
                0 <= i < k && last_use(g, o, rs, i) >= k ==> !free_pool@.contains(
                    slot_of@[#[trigger] o[i]],
                ),
            forall|i: int, j: int|
                #![trigger o[i], o[j]]
                0 <= i < j < k && last_use(g, o, rs, i) >= j ==> slot_of@[o[i]] != slot_of@[o[j]],
            free_pool@.len() + held(g, o, rs, k as int).len() == peak_slots,
            forall|t: int| 0 <= t < k ==> #[trigger] live_at(g, o, rs, t).len() <= peak_slots,
            k == 0 ==> peak_slots == 0,
            k > 0 ==> exists|t: int|
                0 <= t < k && #[trigger] live_at(g, o, rs, t).len() == peak_slots,
        decreases order@.len() - k,
    {
        let id = order[k];
        let ghost kk = k as int;
        let ghost pool0 = free_pool@;
        let ghost slots0 = slot_of@;
        let ghost peak0 = peak_slots;
        assert(o[kk] == id.0);
        assert(last_use(g, o, rs, kk) > kk);
        proof {
            lemma_held_finite(g, o, rs, kk);
        }
        let slot: u32 = match free_pool.pop() {
            Some(s) => s,
            None => {
                let s: u32 = peak_slots;
                peak_slots = peak_slots + 1;
                s
            },
        };
        proof {
            if pool0.len() > 0 {
                assert(pool0 =~= free_pool@.push(slot));
                assert(!free_pool@.contains(slot)) by {
                    if free_pool@.contains(slot) {
                        let q = choose|q: int| 0 <= q < free_pool@.len() && free_pool@[q] == slot;
                        assert(pool0[q] == pool0[pool0.len() - 1]);
                    }
                }
                assert(free_pool@.no_duplicates()) by {
                    assert forall|a: int, b: int|
                        0 <= a < free_pool@.len() && 0 <= b < free_pool@.len() && a
                            != b implies free_pool@[a] != free_pool@[b] by {
                        assert(pool0[a] != pool0[b]);
                    }
                }
                assert forall|i: int| 0 <= i < k && last_use(g, o, rs, i) >= k implies slots0[#[trigger] o[i]]
                    != slot && !free_pool@.contains(slots0[o[i]]) by {
                    assert(!pool0.contains(slots0[o[i]]));
                    assert(pool0[pool0.len() - 1] == slot);
                    if free_pool@.contains(slots0[o[i]]) {
                        let q = choose|q: int|
                            0 <= q < free_pool@.len() && free_pool@[q] == slots0[o[i]];
                        assert(pool0[q] == slots0[o[i]]);
                    }
                }
                assert forall|q: int| 0 <= q < free_pool@.len() implies (#[trigger] free_pool@[q])
                    < peak_slots by {
                    assert(pool0[q] < peak0);
                }
                assert(slot < peak_slots) by {
                    assert(pool0[pool0.len() - 1] < peak0);
                }
            } else {
                assert(free_pool@ =~= Seq::<u32>::empty());
            }
        }
        slot_of.insert(id.0, slot);
        proof {
            lemma_slot_added(o, kk, slots0, slot_of@, slot);
            assert forall|i: int, j: int|
                #![trigger o[i], o[j]]
                0 <= i < j < k + 1 && last_use(g, o, rs, i) >= j implies slot_of@[o[i]]
                != slot_of@[o[j]] by {
                assert(o[i] != o[kk]);
                if j < k {
                    assert(o[j] != o[kk]);
                } else {
                    assert(slots0[o[i]] < peak0);
                }
            }
            assert forall|i: int| 0 <= i < k + 1 implies slot_of@[#[trigger] o[i]] < peak_slots by {
                if i < k {
                    assert(o[i] != o[kk]);
                    assert(slots0[o[i]] < peak0);
                }
            }
        }
        let inputs = match graph.get(id) {
            Some(l) => l.kind.inputs(),
            None => Vec::new(),
        };
        proof {
            assert(has_layer(graph.layers@, order@[kk].0));
            let place = place_of(graph.layers@, id.0);
            assert forall|x: u64| #[trigger] reads(g, id.0, x) <==> inputs@.contains(
                LayerId(x),
            ) by {
                lemma_layer_reads(graph.layers@, place, x);
            }
            assert(given_back(g, o, rs, inputs@, kk, 0) =~= Set::<int>::empty()) by {
                assert(inputs@.take(0) =~= Seq::<LayerId>::empty());
            }
            assert(live_at(g, o, rs, kk).difference(Set::<int>::empty()) =~= live_at(
                g,
                o,
                rs,
                kk,
            ));
            assert forall|i: int|
                0 <= i <= kk && last_use(g, o, rs, i) >= kk && !given_back(
                    g,
                    o,
                    rs,
                    inputs@,
                    kk,
                    0,
                ).contains(i) implies !free_pool@.contains(slot_of@[#[trigger] o[i]]) by {
                if i < kk {
                    assert(o[i] != o[kk]);
                }
            }
        }
        let mut p: usize = 0;
        while p < inputs.len()
            invariant
                p <= inputs@.len(),
                kk == k,
                k < order@.len(),
                o == raw_ids(order@),
                o[kk] == id.0,
                dependencies_first(g, o),
                forall|i: int|
                    0 <= i < order@.len() ==> last@.dom().contains((#[trigger] order@[i]).0)
                        && last@[order@[i].0] == last_use(g, o, rs, i),
                forall|x: u64| #[trigger] reads(g, id.0, x) <==> inputs@.contains(LayerId(x)),
                slot_of@.dom() == o.take(kk + 1).to_set(),
                forall|i: int| 0 <= i < k + 1 ==> slot_of@[#[trigger] o[i]] < peak_slots,
                forall|i: int, j: int|
                    #![trigger o[i], o[j]]
                    0 <= i < j < k + 1 && last_use(g, o, rs, i) >= j ==> slot_of@[o[i]]
                        != slot_of@[o[j]],
                forall|q: int|
                    0 <= q < free_pool@.len() ==> (#[trigger] free_pool@[q]) < peak_slots,
                free_pool@.no_duplicates(),
                forall|i: int|
                    0 <= i <= kk && last_use(g, o, rs, i) >= kk && !given_back(
                        g,
                        o,
                        rs,
                        inputs@,
                        kk,
                        p as int,
                    ).contains(i) ==> !free_pool@.contains(slot_of@[#[trigger] o[i]]),
                live_at(g, o, rs, kk).finite(),
                free_pool@.len() + live_at(g, o, rs, kk).difference(
                    given_back(g, o, rs, inputs@, kk, p as int),
                ).len() == peak_slots,
            decreases inputs@.len() - p,
        {
            let x = inputs[p];
            let ghost back0 = given_back(g, o, rs, inputs@, kk, p as int);
            let ghost back1 = given_back(g, o, rs, inputs@, kk, p + 1);
            let ghost i: int = 0;
            proof {
                assert(inputs@.contains(x)) by {
                    assert(inputs@[p as int] == x);
                }
                assert(reads(g, id.0, x.0));
                i = lemma_input_place(g, o, kk, x.0);
                lemma_given_back_step(g, o, rs, inputs@, kk, p as int, i);
                assert(order@[i].0 == x.0);
                assert(o.take(kk + 1)[i] == x.0);
                assert(slot_of@.dom().contains(x.0));
            }
            let l: usize = *last.get(&x.0).unwrap();
            if l == k && !occurs_later(&inputs, p) {
                let s: u32 = *slot_of.get(&x.0).unwrap();
                let ghost pool1 = free_pool@;
                free_pool.push(s);
                proof {
                    assert(back1 == back0.insert(i));
                    assert(live_at(g, o, rs, kk).contains(i));
                    assert(live_at(g, o, rs, kk).difference(back1) =~= live_at(
                        g,
                        o,
                        rs,
                        kk,
                    ).difference(back0).remove(i));
                    assert(!pool1.contains(s));
                    assert(free_pool@.no_duplicates()) by {
                        assert forall|a: int, b: int|
                            0 <= a < free_pool@.len() && 0 <= b < free_pool@.len() && a
                                != b implies free_pool@[a] != free_pool@[b] by {
                            if a < pool1.len() && b < pool1.len() {
                                assert(pool1[a] != pool1[b]);
                            } else if a < pool1.len() {
                                assert(pool1[a] != s);
                            } else {
                                assert(pool1[b] != s);
                            }
                        }
                    }
                    assert forall|q: int| 0 <= q < free_pool@.len() implies (#[trigger] free_pool@[q])
                        < peak_slots by {
                        if q < pool1.len() {
                            assert(pool1[q] < peak_slots);
                        } else {
                            assert(slot_of@[o[i]] < peak_slots);
                        }
                    }
                    assert forall|j: int|
                        0 <= j <= kk && last_use(g, o, rs, j) >= kk && !back1.contains(
                            j,
                        ) implies !free_pool@.contains(slot_of@[#[trigger] o[j]]) by {
                        assert(j != i);
                        assert(!pool1.contains(slot_of@[o[j]]));
                        if i < j {
                            assert(slot_of@[o[i]] != slot_of@[o[j]]);
                        } else {
                            assert(slot_of@[o[j]] != slot_of@[o[i]]);
                        }
                        if free_pool@.contains(slot_of@[o[j]]) {
                            let q = choose|q: int|
                                0 <= q < free_pool@.len() && free_pool@[q] == slot_of@[o[j]];
                            if q < pool1.len() {
                                assert(pool1[q] == slot_of@[o[j]]);
                            }
                        }
                    }
                }
            } else {
                assert(back1 == back0);
            }
            p += 1;
        }
        proof {
            let back = given_back(g, o, rs, inputs@, kk, p as int);
            assert(inputs@.take(p as int) =~= inputs@);
            assert(inputs@.skip(p as int) =~= Seq::<LayerId>::empty());
            assert forall|i: int| 0 <= i < kk && last_use(g, o, rs, i) == kk implies back.contains(
                i,
            ) by {
                lemma_last_reader(g, o, o[i], o.len() as int);
                assert(reads(g, o[kk], o[i]));
            }
            assert(held(g, o, rs, kk + 1) =~= live_at(g, o, rs, kk).difference(back)) by {
                assert forall|i: int| held(g, o, rs, kk + 1).contains(i) <==> live_at(
                    g,
                    o,
                    rs,
                    kk,
                ).difference(back).contains(i) by {}
            }
            assert forall|i: int| 0 <= i < k + 1 && last_use(g, o, rs, i) >= k + 1 implies !free_pool@.contains(
                slot_of@[#[trigger] o[i]],
            ) by {
                assert(!back.contains(i));
            }
            assert(live_at(g, o, rs, kk).len() <= peak_slots) by {
                assert(live_at(g, o, rs, kk).len() == held(g, o, rs, kk).len() + 1);
            }
            assert forall|t: int| 0 <= t < k + 1 implies #[trigger] live_at(g, o, rs, t).len()
                <= peak_slots by {
                if t < k {
                    assert(live_at(g, o, rs, t).len() <= peak0);
                }
            }
            assert(exists|t: int|
                0 <= t < k + 1 && #[trigger] live_at(g, o, rs, t).len() == peak_slots) by {
                if peak_slots == peak0 {
                    let t = choose|t: int|
                        0 <= t < k && #[trigger] live_at(g, o, rs, t).len() == peak0;
                    assert(live_at(g, o, rs, t).len() == peak_slots);
                } else {
                    assert(live_at(g, o, rs, kk).len() == peak_slots);
                }
            }
        }
        k += 1;
    }
    assert(o.take(k as int) =~= o);
    (slot_of, peak_slots)
}

/// Giving a slot to the next layer of an order.
pub proof fn lemma_slot_added(
    o: Seq<u64>,
    k: int,
    before: Map<u64, u32>,
    after: Map<u64, u32>,
    slot: u32,
)
    requires
        0 <= k < o.len(),
        before.dom() == o.take(k).to_set(),
        after == before.insert(o[k], slot),
    ensures
        after.dom() == o.take(k + 1).to_set(),
{
    let (a, b) = (o.take(k), o.take(k + 1));
    assert(b =~= a.push(o[k]));
    assert forall|x: u64| after.dom().contains(x) <==> b.to_set().contains(x) by {
        if a.contains(x) {
            let i = choose|i: int| 0 <= i < a.len() && a[i] == x;
            assert(b[i] == x);
        }
        if x == o[k] {
            assert(b[k] == x);
        }
        if b.contains(x) && x != o[k] {
            let i = choose|i: int| 0 <= i < b.len() && b[i] == x;
            assert(a[i] == x);
        }
    }
    assert(after.dom() =~= b.to_set());
}

/// No allocation of an order gets by with fewer slots: wherever layers that are
/// live at once have different slots below `count`, `count` is at least the
/// peak of a valid allocation.
pub proof fn law_no_allocation_has_fewer_slots(
    g: Map<u64, Seq<u64>>,
    order: Seq<u64>,
    roots: Seq<u64>,
    slot_of: Map<u64, u32>,
    peak: u32,
    other: Map<u64, u32>,
    count: nat,
)
    requires
        valid_allocation(g, order, roots, slot_of, peak),
        forall|i: int| 0 <= i < order.len() ==> other[#[trigger] order[i]] < count,
        forall|i: int, j: int|
            #![trigger order[i], order[j]]
            0 <= i < j < order.len() && last_use(g, order, roots, i) >= j ==> other[order[i]]
                != other[order[j]],
    ensures
        peak <= count,
{
    if order.len() > 0 {
        let t = choose|t: int|
            0 <= t < order.len() && #[trigger] live_at(g, order, roots, t).len() == peak;
        let live = live_at(g, order, roots, t);
        let places = vstd::set_lib::set_int_range(0, t + 1);
        vstd::set_lib::lemma_int_range(0, t + 1);
        assert(live.subset_of(places));
        vstd::set_lib::lemma_set_subset_finite(places, live);
        let f = |i: int| other[order[i]] as int;
        let image = live.map(f);
        assert forall|i: int, j: int|
            #![trigger f(i), f(j)]
            live.contains(i) && live.contains(j) && f(i) == f(j) implies i == j by {
            if i < j {
                assert(other[order[i]] != other[order[j]]);
            } else if j < i {
                assert(other[order[j]] != other[order[i]]);
            }
        }
        vstd::set_lib::lemma_map_size(live, image, f);
        let slots = vstd::set_lib::set_int_range(0, count as int);
        vstd::set_lib::lemma_int_range(0, count as int);
        assert(image.subset_of(slots)) by {
            assert forall|x: int| image.contains(x) implies slots.contains(x) by {
                let i = choose|i: int| live.contains(i) && f(i) == x;
                assert(other[order[i]] < count);
            }
        }
        vstd::set_lib::lemma_len_subset(image, slots);
    }
}

} // verus!
