//! Facts about filtered and rearranged lists.
use vstd::prelude::*;

use crate::id::{raw_ids, LayerId};

verus! {

/// A filtered list holds what the list holds and the filter keeps.
pub proof fn lemma_filter_holds<A>(s: Seq<A>, keep: spec_fn(A) -> bool, x: A)
    ensures
        s.filter(keep).contains(x) <==> s.contains(x) && keep(x),
    decreases s.len(),
{
    reveal(Seq::filter);
    if s.len() > 0 {
        let rest = s.drop_last();
        let f = s.filter(keep);
        let g = rest.filter(keep);
        lemma_filter_holds(rest, keep, x);
        if s.contains(x) && keep(x) {
            let i = choose|i: int| 0 <= i < s.len() && s[i] == x;
            if i < rest.len() {
                assert(rest[i] == x);
                let j = choose|j: int| 0 <= j < g.len() && g[j] == x;
                assert(f[j] == x);
            } else {
                assert(f[f.len() - 1] == x);
            }
        }
        if f.contains(x) {
            let j = choose|j: int| 0 <= j < f.len() && f[j] == x;
            if j < g.len() {
                assert(g[j] == x);
                let i = choose|i: int| 0 <= i < rest.len() && rest[i] == x;
                assert(s[i] == x);
            } else {
                assert(s[s.len() - 1] == x);
            }
        }
    }
}

/// A filtered list repeats nothing that the list did not.
pub proof fn lemma_filter_distinct<A>(s: Seq<A>, keep: spec_fn(A) -> bool)
    requires
        s.no_duplicates(),
    ensures
        s.filter(keep).no_duplicates(),
    decreases s.len(),
{
    reveal(Seq::filter);
    if s.len() > 0 {
        let rest = s.drop_last();
        lemma_filter_distinct(rest, keep);
        lemma_filter_holds(rest, keep, s.last());
        assert(!rest.contains(s.last())) by {
            if rest.contains(s.last()) {
                let i = choose|i: int| 0 <= i < rest.len() && rest[i] == s.last();
                assert(s[i] == s[s.len() - 1]);
            }
        }
    }
}

/// Ids repeat where their raw numbers do.
pub proof fn lemma_raw_distinct(s: Seq<LayerId>)
    ensures
        raw_ids(s).no_duplicates() <==> s.no_duplicates(),
        forall|x: LayerId| #[trigger] s.contains(x) <==> raw_ids(s).contains(x.0),
{
    let r = raw_ids(s);
    if r.no_duplicates() {
        assert forall|i: int, j: int| 0 <= i < s.len() && 0 <= j < s.len() && i != j implies s[i]
            != s[j] by {
            assert(r[i] != r[j]);
        }
    }
    if s.no_duplicates() {
        assert forall|i: int, j: int| 0 <= i < r.len() && 0 <= j < r.len() && i != j implies r[i]
            != r[j] by {
            assert(s[i] != s[j]);
        }
    }
    assert forall|x: LayerId| #[trigger] s.contains(x) <==> r.contains(x.0) by {
        if s.contains(x) {
            let i = choose|i: int| 0 <= i < s.len() && s[i] == x;
            assert(r[i] == x.0);
        }
        if r.contains(x.0) {
            let i = choose|i: int| 0 <= i < r.len() && r[i] == x.0;
            assert(s[i] == x);
        }
    }
}

/// Tells the ids that are not `id`.
pub open spec fn other_than(id: LayerId) -> spec_fn(LayerId) -> bool {
    |x: LayerId| x != id
}

/// The list with the item at `from` moved to `to`.
pub open spec fn moved<A>(s: Seq<A>, from: int, to: int) -> Seq<A> {
    s.remove(from).insert(to, s[from])
}

/// Moving an item within a list changes neither what it holds nor whether it
/// repeats.
pub proof fn lemma_moved<A>(s: Seq<A>, from: int, to: int)
    requires
        0 <= from < s.len(),
        0 <= to < s.len(),
    ensures
        moved(s, from, to).len() == s.len(),
        forall|x: A| #[trigger] moved(s, from, to).contains(x) <==> s.contains(x),
        s.no_duplicates() ==> moved(s, from, to).no_duplicates(),
{
    let m = moved(s, from, to);
    let origin = |i: int|
        if i == to {
            from
        } else {
            let k = if i < to { i } else { i - 1 };
            if k < from { k } else { k + 1 }
        };
    assert forall|i: int| 0 <= i < m.len() implies #[trigger] m[i] == s[origin(i)] by {}
    assert forall|x: A| #[trigger] m.contains(x) <==> s.contains(x) by {
        if m.contains(x) {
            let i = choose|i: int| 0 <= i < m.len() && m[i] == x;
            assert(s[origin(i)] == x);
        }
        if s.contains(x) {
            let i = choose|i: int| 0 <= i < s.len() && s[i] == x;
            let k = if i < from { i } else { i - 1 };
            let j = if i == from { to } else if k < to { k } else { k + 1 };
            assert(origin(j) == i);
            assert(m[j] == x);
        }
    }
    if s.no_duplicates() {
        assert forall|i: int, j: int| 0 <= i < m.len() && 0 <= j < m.len() && i != j implies m[i]
            != m[j] by {
            assert(m[i] == s[origin(i)]);
            assert(m[j] == s[origin(j)]);
            assert(origin(i) != origin(j));
        }
    }
}

/// The ids but `id`, in order.
pub fn without_id(list: &Vec<LayerId>, id: LayerId) -> (r: Vec<LayerId>)
    ensures
        r@ == list@.filter(other_than(id)),
{
    let ghost keep = other_than(id);
    let mut out: Vec<LayerId> = Vec::new();
    let mut i: usize = 0;
    proof {
        reveal(Seq::filter);
        assert(list@.take(0) =~= Seq::<LayerId>::empty());
        assert(list@.take(0).filter(keep) =~= out@);
    }
    while i < list.len()
        invariant
            i <= list@.len(),
            keep == other_than(id),
            out@ == list@.take(i as int).filter(keep),
        decreases list@.len() - i,
    {
        proof {
            reveal(Seq::filter);
            assert(list@.take(i + 1).drop_last() =~= list@.take(i as int));
        }
        if list[i].0 != id.0 {
            out.push(list[i]);
        }
        i += 1;
    }
    assert(list@.take(i as int) =~= list@);
    out
}

/// A moved item stands where it was asked to, and the others follow one
/// another as before.
pub proof fn law_moved_item_stands_where_asked<A>(s: Seq<A>, from: int, to: int)
    requires
        0 <= from < s.len(),
        0 <= to < s.len(),
    ensures
        moved(s, from, to)[to] == s[from],
        moved(s, from, to).remove(to) == s.remove(from),
        moved(moved(s, from, to), to, from) == s,
{
    assert(moved(s, from, to).remove(to) =~= s.remove(from));
    assert(moved(moved(s, from, to), to, from) =~= s);
}

} // verus!
