//! A map keyed by name, kept in the order of the names' bytes.
use vstd::prelude::*;
use vstd::utf8::{encode_utf8, encode_utf8_decode_utf8};

verus! {

/// The order of names: by their UTF-8 bytes, first difference first, a prefix
/// before what continues it.
pub open spec fn name_less(a: Seq<char>, b: Seq<char>) -> bool {
    bytes_less(encode_utf8(a), encode_utf8(b))
}

/// Lexicographic order on bytes.
pub open spec fn bytes_less(a: Seq<u8>, b: Seq<u8>) -> bool {
    exists|k: int| #[trigger] differ_first_at(a, b, k)
}

/// `a` and `b` agree before `k`, and at `k` the first ends or is smaller.
pub open spec fn differ_first_at(a: Seq<u8>, b: Seq<u8>, k: int) -> bool {
    &&& 0 <= k <= a.len()
    &&& k < b.len()
    &&& forall|j: int| 0 <= j < k ==> a[j] == b[j]
    &&& k < a.len() ==> a[k] < b[k]
}

/// How one name stands to another.
#[derive(Clone, Copy, Debug, PartialEq, Eq, Structural)]
pub enum NameOrder {
    Before,
    Same,
    After,
}

/// Compares two names by their bytes.
pub fn order_names(a: &str, b: &str) -> (r: NameOrder)
    ensures
        r is Before <==> name_less(a@, b@),
        r is Same <==> a@ == b@,
        r is After <==> name_less(b@, a@),
{
    let x = a.as_bytes();
    let y = b.as_bytes();
    let mut k: usize = 0;
    while k < x.len() && k < y.len() && x[k] == y[k]
        invariant
            k <= x@.len(),
            k <= y@.len(),
            forall|j: int| 0 <= j < k ==> x@[j] == y@[j],
        decreases x@.len() - k,
    {
        k += 1;
    }
    let r = if k == x.len() && k == y.len() {
        NameOrder::Same
    } else if k == x.len() {
        NameOrder::Before
    } else if k == y.len() {
        NameOrder::After
    } else if x[k] < y[k] {
        NameOrder::Before
    } else {
        NameOrder::After
    };
    proof {
        let u = encode_utf8(a@);
        let v = encode_utf8(b@);
        encode_utf8_decode_utf8(a@);
        encode_utf8_decode_utf8(b@);
        match r {
            NameOrder::Same => {
                assert(u =~= v);
                lemma_bytes_less_is_strict(u, v);
            },
            NameOrder::Before => {
                assert(differ_first_at(u, v, k as int));
                lemma_bytes_less_is_strict(u, v);
            },
            NameOrder::After => {
                assert(differ_first_at(v, u, k as int));
                lemma_bytes_less_is_strict(u, v);
            },
        }
    }
    r
}

/// True where the names are equal.
pub fn same_name(a: &str, b: &str) -> (r: bool)
    ensures
        r == (a@ == b@),
{
    order_names(a, b) == NameOrder::Same
}

/// No byte string is below itself, and no two are below each other.
proof fn lemma_bytes_less_is_strict(a: Seq<u8>, b: Seq<u8>)
    ensures
        !(bytes_less(a, b) && bytes_less(b, a)),
        a == b ==> !bytes_less(a, b),
{
    if bytes_less(a, b) && bytes_less(b, a) {
        let i = choose|k: int| #[trigger] differ_first_at(a, b, k);
        let j = choose|k: int| #[trigger] differ_first_at(b, a, k);
        if i < j {
            assert(b[i] == a[i]);
        } else if j < i {
            assert(a[j] == b[j]);
        }
        assert(false);
    }
}

/// The order of names is transitive.
pub proof fn lemma_name_less_transitive(a: Seq<char>, b: Seq<char>, c: Seq<char>)
    requires
        name_less(a, b),
        name_less(b, c),
    ensures
        name_less(a, c),
{
    let (x, y, z) = (encode_utf8(a), encode_utf8(b), encode_utf8(c));
    let i = choose|k: int| #[trigger] differ_first_at(x, y, k);
    let j = choose|k: int| #[trigger] differ_first_at(y, z, k);
    if i < j {
        assert(differ_first_at(x, z, i));
    } else {
        assert(differ_first_at(x, z, j));
    }
}

/// The first entry of that name.
pub open spec fn is_first_named<V>(entries: Seq<(String, V)>, name: Seq<char>, i: int) -> bool {
    &&& 0 <= i < entries.len()
    &&& entries[i].0@ == name
    &&& forall|j: int| 0 <= j < i ==> (#[trigger] entries[j]).0@ != name
}

/// True where some entry has that name.
pub open spec fn holds_name<V>(entries: Seq<(String, V)>, name: Seq<char>) -> bool {
    exists|i: int| 0 <= i < entries.len() && (#[trigger] entries[i]).0@ == name
}

/// The entries as a map. Where a name came twice the first entry would count.
pub open spec fn entries_map<V>(entries: Seq<(String, V)>) -> Map<Seq<char>, V> {
    Map::new(
        |name: Seq<char>| holds_name(entries, name),
        |name: Seq<char>| entries[choose|i: int| is_first_named(entries, name, i)].1,
    )
}

/// Names strictly ascending, so each occurs once.
pub open spec fn names_ascend<V>(entries: Seq<(String, V)>) -> bool {
    forall|i: int, j: int|
        #![trigger entries[i], entries[j]]
        0 <= i < j < entries.len() ==> name_less(entries[i].0@, entries[j].0@)
}

/// Where a name stands in the entries, there is a first place where it does.
proof fn lemma_first_named<V>(entries: Seq<(String, V)>, name: Seq<char>, i: int) -> (f: int)
    requires
        0 <= i < entries.len(),
        entries[i].0@ == name,
    ensures
        is_first_named(entries, name, f),
        f <= i,
    decreases i,
{
    if exists|j: int| 0 <= j < i && (#[trigger] entries[j]).0@ == name {
        let j = choose|j: int| 0 <= j < i && (#[trigger] entries[j]).0@ == name;
        lemma_first_named(entries, name, j)
    } else {
        i
    }
}

/// The map gives the first entry of a name.
proof fn lemma_entries_map_at<V>(entries: Seq<(String, V)>, name: Seq<char>, i: int)
    requires
        is_first_named(entries, name, i),
    ensures
        entries_map(entries).dom().contains(name),
        entries_map(entries)[name] == entries[i].1,
{
    let f = choose|f: int| is_first_named(entries, name, f);
    assert(is_first_named(entries, name, f));
    if f < i {
        assert(entries[f].0@ != name);
    } else if i < f {
        assert(entries[i].0@ != name);
    }
    assert(holds_name(entries, name));
}

/// The entries have the same names, place by place.
pub open spec fn same_names<V>(a: Seq<(String, V)>, b: Seq<(String, V)>) -> bool {
    &&& a.len() == b.len()
    &&& forall|i: int| 0 <= i < a.len() ==> (#[trigger] a[i]).0@ == b[i].0@
}

/// A map from names to values. Entries are kept in name order.
#[derive(Clone, Debug)]
pub struct NameMap<V> {
    entries: Vec<(String, V)>,
}

impl<V> View for NameMap<V> {
    type V = Map<Seq<char>, V>;

    closed spec fn view(&self) -> Map<Seq<char>, V> {
        entries_map(self.entries@)
    }
}

impl<V> NameMap<V> {
    /// The entries in the order in which they are kept.
    pub closed spec fn entry_seq(&self) -> Seq<(String, V)> {
        self.entries@
    }

    /// Each name occurs once, and the names ascend.
    pub open spec fn sorted(&self) -> bool {
        names_ascend(self.entry_seq())
    }

    /// An empty map.
    pub fn new() -> (r: NameMap<V>)
        ensures
            r@ == Map::<Seq<char>, V>::empty(),
            r.entry_seq() == Seq::<(String, V)>::empty(),
            r.sorted(),
    {
        let r = NameMap { entries: Vec::new() };
        assert(r@ =~= Map::<Seq<char>, V>::empty());
        r
    }

    /// The number of entries.
    pub fn len(&self) -> (r: usize)
        ensures
            r == self.entry_seq().len(),
    {
        self.entries.len()
    }

    /// The place of the first entry of that name.
    fn find(&self, name: &str) -> (r: Option<usize>)
        ensures
            match r {
                Some(i) => is_first_named(self.entries@, name@, i as int),
                None => !holds_name(self.entries@, name@),
            },
    {
        let mut i: usize = 0;
        while i < self.entries.len()
            invariant
                i <= self.entries@.len(),
                forall|j: int| 0 <= j < i ==> (#[trigger] self.entries@[j]).0@ != name@,
            decreases self.entries@.len() - i,
        {
            if same_name(self.entries[i].0.as_str(), name) {
                return Some(i);
            }
            i += 1;
        }
        None
    }

    /// The value under that name.
    pub fn get(&self, name: &str) -> (r: Option<&V>)
        ensures
            match r {
                Some(v) => self@.dom().contains(name@) && *v == self@[name@],
                None => !self@.dom().contains(name@),
            },
    {
        match self.find(name) {
            Some(i) => {
                proof {
                    lemma_entries_map_at(self.entries@, name@, i as int);
                }
                Some(&self.entries[i].1)
            },
            None => None,
        }
    }

    /// True where the name has a value.
    pub fn contains_key(&self, name: &str) -> (r: bool)
        ensures
            r == self@.dom().contains(name@),
    {
        self.find(name).is_some()
    }

    /// The name of the entry at a place.
    pub fn name_at(&self, i: usize) -> (r: &str)
        requires
            i < self.entry_seq().len(),
        ensures
            r@ == self.entry_seq()[i as int].0@,
            self@.dom().contains(r@),
    {
        self.entries[i].0.as_str()
    }

    /// A name is bound where some place has it.
    pub proof fn lemma_bound_somewhere(&self, name: Seq<char>)
        ensures
            self@.dom().contains(name) <==> exists|i: int|
                0 <= i < self.entry_seq().len() && (#[trigger] self.entry_seq()[i]).0@ == name,
    {
        let s = self.entry_seq();
        if holds_name(s, name) {
            let i = choose|i: int| 0 <= i < s.len() && (#[trigger] s[i]).0@ == name;
            assert(self.entry_seq()[i].0@ == name);
        }
    }

    /// The value at a place.
    pub fn value_at(&self, i: usize) -> (r: &V)
        requires
            i < self.entry_seq().len(),
        ensures
            *r == self.entry_seq()[i as int].1,
    {
        &self.entries[i].1
    }

    /// The value at a place, to be changed there. No name changes.
    pub fn value_at_mut(&mut self, i: usize) -> (r: &mut V)
        requires
            i < old(self).entry_seq().len(),
        ensures
            *r == old(self).entry_seq()[i as int].1,
            final(self).entry_seq() == old(self).entry_seq().update(
                i as int,
                (old(self).entry_seq()[i as int].0, *final(r)),
            ),
    {
        &mut self.entries[i].1
    }

    /// The value under that name, to be changed there.
    pub fn get_mut(&mut self, name: &str) -> (r: Option<&mut V>)
        ensures
            match r {
                Some(v) => {
                    &&& old(self)@.dom().contains(name@)
                    &&& *v == old(self)@[name@]
                    &&& final(self)@ == old(self)@.insert(name@, *final(v))
                },
                None => !old(self)@.dom().contains(name@) && *final(self) == *old(self),
            },
            same_names(old(self).entry_seq(), final(self).entry_seq()),
            old(self).sorted() ==> final(self).sorted(),
    {
        let ghost before = self.entries@;
        match self.find(name) {
            Some(i) => {
                proof {
                    lemma_entries_map_at(before, name@, i as int);
                    assert forall|value: V|
                        #![trigger before.update(i as int, (before[i as int].0, value))]
                        ({
                            let after = before.update(i as int, (before[i as int].0, value));
                            &&& entries_map(after) == entries_map(before).insert(name@, value)
                            &&& names_ascend(before) ==> names_ascend(after)
                        }) by {
                        lemma_replaced(
                            before,
                            before.update(i as int, (before[i as int].0, value)),
                            i as int,
                            value,
                        );
                    }
                }
                Some(&mut self.entries[i].1)
            },
            None => None,
        }
    }

    /// Puts a value under a name, and hands back what was there.
    pub fn insert(&mut self, name: &str, value: V) -> (r: Option<V>)
        ensures
            final(self)@ == old(self)@.insert(name@, value),
            match r {
                Some(v) => old(self)@.dom().contains(name@) && v == old(self)@[name@],
                None => !old(self)@.dom().contains(name@),
            },
            old(self).sorted() ==> final(self).sorted(),
    {
        let ghost before = self.entries@;
        match self.find(name) {
            Some(i) => {
                let mut slot = value;
                std::mem::swap(&mut self.entries[i].1, &mut slot);
                proof {
                    lemma_entries_map_at(before, name@, i as int);
                    lemma_replaced(before, self.entries@, i as int, value);
                }
                Some(slot)
            },
            None => {
                let mut at: usize = 0;
                while at < self.entries.len() && order_names(self.entries[at].0.as_str(), name)
                    == NameOrder::Before
                    invariant
                        at <= self.entries@.len(),
                        self.entries@ == before,
                        forall|j: int|
                            0 <= j < at ==> name_less((#[trigger] self.entries@[j]).0@, name@),
                    decreases self.entries@.len() - at,
                {
                    at += 1;
                }
                let owned = name.to_owned();
                self.entries.insert(at, (owned, value));
                proof {
                    lemma_inserted(before, self.entries@, at as int, (owned, value));
                }
                None
            },
        }
    }

    /// Takes the name out, and hands back its value.
    pub fn remove(&mut self, name: &str) -> (r: Option<V>)
        ensures
            final(self)@ == old(self)@.remove(name@),
            match r {
                Some(v) => old(self)@.dom().contains(name@) && v == old(self)@[name@],
                None => !old(self)@.dom().contains(name@) && *final(self) == *old(self),
            },
            old(self).sorted() ==> final(self).sorted(),
    {
        let ghost before = self.entries@;
        let Some(i) = self.find(name) else {
            assert(self@.remove(name@) =~= self@);
            return None;
        };
        proof {
            lemma_entries_map_at(before, name@, i as int);
        }
        let taken = self.entries.remove(i).1;
        // Later entries of the same name would surface; take them out too.
        let mut at: usize = i;
        proof {
            lemma_removed(before, i as int);
        }
        while at < self.entries.len()
            invariant
                i <= at <= self.entries@.len(),
                forall|j: int| 0 <= j < at ==> (#[trigger] self.entries@[j]).0@ != name@,
                entries_map(self.entries@).remove(name@) == entries_map(before).remove(name@),
                names_ascend(before) ==> names_ascend(self.entries@),
            decreases self.entries@.len() - at,
        {
            if same_name(self.entries[at].0.as_str(), name) {
                proof {
                    lemma_removed(self.entries@, at as int);
                }
                self.entries.remove(at);
            } else {
                at += 1;
            }
        }
        assert(!holds_name(self.entries@, name@));
        assert(self@.remove(name@) =~= self@);
        Some(taken)
    }
}

impl<V: Copy> NameMap<V> {
    /// A copy of the map.
    pub fn copied(&self) -> (r: NameMap<V>)
        ensures
            r@ == self@,
            r.entry_seq() == self.entry_seq(),
    {
        let mut entries: Vec<(String, V)> = Vec::new();
        let mut i: usize = 0;
        while i < self.entries.len()
            invariant
                i <= self.entries@.len(),
                entries@ == self.entries@.take(i as int),
            decreases self.entries@.len() - i,
        {
            entries.push((self.entries[i].0.clone(), self.entries[i].1));
            assert(entries@ =~= self.entries@.take(i + 1));
            i += 1;
        }
        assert(entries@ =~= self.entries@);
        NameMap { entries }
    }
}

/// Where the names are the same place by place, a name is bound in both maps or
/// in neither, from the same place; and one order is the other.
pub proof fn lemma_same_names<V>(a: NameMap<V>, b: NameMap<V>)
    requires
        same_names(a.entry_seq(), b.entry_seq()),
    ensures
        a@.dom() == b@.dom(),
        a.sorted() <==> b.sorted(),
        forall|name: Seq<char>| #[trigger]
            a@.dom().contains(name) ==> exists|i: int|
                0 <= i < a.entry_seq().len() && a.entry_seq()[i].0@ == name && a@[name]
                    == (#[trigger] a.entry_seq()[i]).1 && b@[name] == b.entry_seq()[i].1,
{
    let p = a.entries@;
    let q = b.entries@;
    assert forall|name: Seq<char>| holds_name(p, name) <==> holds_name(q, name) by {
        if holds_name(p, name) {
            let i = choose|i: int| 0 <= i < p.len() && (#[trigger] p[i]).0@ == name;
            assert(q[i].0@ == name);
        }
        if holds_name(q, name) {
            let i = choose|i: int| 0 <= i < q.len() && (#[trigger] q[i]).0@ == name;
            assert(p[i].0@ == name);
        }
    }
    assert(a@.dom() =~= b@.dom());
    assert forall|name: Seq<char>| #[trigger] a@.dom().contains(name) implies exists|i: int|
        0 <= i < p.len() && p[i].0@ == name && a@[name] == (#[trigger] p[i]).1 && b@[name]
            == q[i].1 by {
        let j = choose|j: int| 0 <= j < p.len() && (#[trigger] p[j]).0@ == name;
        let i = lemma_first_named(p, name, j);
        lemma_entries_map_at(p, name, i);
        assert(is_first_named(q, name, i)) by {
            assert(p[i].0@ == q[i].0@);
            assert forall|k: int| 0 <= k < i implies (#[trigger] q[k]).0@ != name by {
                assert(p[k].0@ == q[k].0@);
            }
        }
        lemma_entries_map_at(q, name, i);
        assert(p[i].0@ == name);
    }
    if names_ascend(p) {
        assert forall|i: int, j: int|
            #![trigger q[i], q[j]]
            0 <= i < j < q.len() implies name_less(q[i].0@, q[j].0@) by {
            assert(p[i].0@ == q[i].0@ && p[j].0@ == q[j].0@);
        }
    }
    if names_ascend(q) {
        assert forall|i: int, j: int|
            #![trigger p[i], p[j]]
            0 <= i < j < p.len() implies name_less(p[i].0@, p[j].0@) by {
            assert(p[i].0@ == q[i].0@ && p[j].0@ == q[j].0@);
        }
    }
}

/// Overwriting the first entry of a name overwrites the map there.
proof fn lemma_replaced<V>(
    before: Seq<(String, V)>,
    after: Seq<(String, V)>,
    i: int,
    value: V,
)
    requires
        is_first_named(before, before[i].0@, i),
        after == before.update(i, (before[i].0, value)),
    ensures
        entries_map(after) == entries_map(before).insert(before[i].0@, value),
        names_ascend(before) ==> names_ascend(after),
{
    let name = before[i].0@;
    assert forall|n: Seq<char>| holds_name(after, n) <==> holds_name(before, n) by {
        if holds_name(before, n) {
            let j = choose|j: int| 0 <= j < before.len() && (#[trigger] before[j]).0@ == n;
            assert(after[j].0@ == n);
        }
        if holds_name(after, n) {
            let j = choose|j: int| 0 <= j < after.len() && (#[trigger] after[j]).0@ == n;
            assert(before[j].0@ == n);
        }
    }
    assert forall|n: Seq<char>| holds_name(after, n) implies #[trigger] entries_map(after)[n]
        == entries_map(before).insert(name, value)[n] by {
        let j = choose|j: int| 0 <= j < after.len() && (#[trigger] after[j]).0@ == n;
        let f = lemma_first_named(after, n, j);
        lemma_entries_map_at(after, n, f);
        assert(is_first_named(before, n, f)) by {
            assert(before[f].0@ == n);
            assert forall|k: int| 0 <= k < f implies (#[trigger] before[k]).0@ != n by {
                assert(after[k].0@ != n);
            }
        }
        lemma_entries_map_at(before, n, f);
        if n == name && f != i {
            if f < i {
                assert(before[f].0@ != name);
            } else {
                assert(before[i].0@ != n);
            }
        }
    }
    assert(entries_map(before).dom().contains(name)) by {
        lemma_entries_map_at(before, name, i);
    }
    assert(entries_map(after) =~= entries_map(before).insert(name, value));
    if names_ascend(before) {
        assert forall|a: int, b: int|
            #![trigger after[a], after[b]]
            0 <= a < b < after.len() implies name_less(after[a].0@, after[b].0@) by {
            assert(name_less(before[a].0@, before[b].0@));
        }
    }
}

/// A new name adds one binding to the map, wherever it is put; put before the
/// first larger name it keeps the order.
proof fn lemma_inserted<V>(
    before: Seq<(String, V)>,
    after: Seq<(String, V)>,
    at: int,
    entry: (String, V),
)
    requires
        0 <= at <= before.len(),
        after == before.insert(at, entry),
        !holds_name(before, entry.0@),
        forall|j: int| 0 <= j < at ==> name_less((#[trigger] before[j]).0@, entry.0@),
        at < before.len() ==> !name_less(before[at].0@, entry.0@),
    ensures
        entries_map(after) == entries_map(before).insert(entry.0@, entry.1),
        names_ascend(before) ==> names_ascend(after),
{
    let name = entry.0@;
    assert forall|n: Seq<char>| holds_name(after, n) <==> (holds_name(before, n) || n == name) by {
        if holds_name(before, n) {
            let j = choose|j: int| 0 <= j < before.len() && (#[trigger] before[j]).0@ == n;
            assert(after[if j < at { j } else { j + 1 }].0@ == n);
        }
        if n == name {
            assert(after[at].0@ == n);
        }
        if holds_name(after, n) && n != name {
            let j = choose|j: int| 0 <= j < after.len() && (#[trigger] after[j]).0@ == n;
            assert(before[if j < at { j } else { j - 1 }].0@ == n);
        }
    }
    assert forall|n: Seq<char>| holds_name(after, n) implies #[trigger] entries_map(after)[n]
        == entries_map(before).insert(name, entry.1)[n] by {
        let j = choose|j: int| 0 <= j < after.len() && (#[trigger] after[j]).0@ == n;
        let f = lemma_first_named(after, n, j);
        lemma_entries_map_at(after, n, f);
        if n == name {
            if f != at {
                assert(before[if f < at { f } else { f - 1 }].0@ == n);
                assert(false);
            }
        } else {
            let g = if f < at { f } else { f - 1 };
            assert(before[g].0@ == n);
            assert forall|k: int| 0 <= k < g implies (#[trigger] before[k]).0@ != n by {
                assert(after[if k < at { k } else { k + 1 }].0@ != n);
            }
            lemma_entries_map_at(before, n, g);
        }
    }
    assert(entries_map(after) =~= entries_map(before).insert(name, entry.1));
    if names_ascend(before) {
        assert forall|a: int, b: int|
            #![trigger after[a], after[b]]
            0 <= a < b < after.len() implies name_less(after[a].0@, after[b].0@) by {
            if b == at {
                assert(name_less(before[a].0@, name));
            } else if a == at {
                let c = b - 1;
                // The entry at `at` is not below the new name, and differs from it.
                lemma_name_trichotomy(before[at].0@, name);
                assert(before[at].0@ != name);
                if c > at {
                    lemma_name_less_transitive(name, before[at].0@, before[c].0@);
                }
            } else {
                let c = if a < at { a } else { a - 1 };
                let d = if b < at { b } else { b - 1 };
                assert(name_less(before[c].0@, before[d].0@));
            }
        }
    }
}

/// Any two names are equal or one is below the other.
pub proof fn lemma_name_trichotomy(a: Seq<char>, b: Seq<char>)
    ensures
        a == b || name_less(a, b) || name_less(b, a),
{
    let x = encode_utf8(a);
    let y = encode_utf8(b);
    encode_utf8_decode_utf8(a);
    encode_utf8_decode_utf8(b);
    if a != b {
        let k = lemma_first_difference(x, y, 0);
        if differ_first_at(x, y, k) {
        } else {
            assert(differ_first_at(y, x, k));
        }
    }
}

/// The first place where two byte strings part.
proof fn lemma_first_difference(x: Seq<u8>, y: Seq<u8>, k: int) -> (r: int)
    requires
        x != y,
        0 <= k <= x.len(),
        k <= y.len(),
        forall|j: int| 0 <= j < k ==> x[j] == y[j],
    ensures
        0 <= r <= x.len(),
        r <= y.len(),
        forall|j: int| 0 <= j < r ==> x[j] == y[j],
        r < x.len() || r < y.len(),
        r < x.len() && r < y.len() ==> x[r] != y[r],
    decreases x.len() - k,
{
    if k < x.len() && k < y.len() && x[k] == y[k] {
        lemma_first_difference(x, y, k + 1)
    } else {
        if k == x.len() && k == y.len() {
            assert(x =~= y);
        }
        k
    }
}

/// Taking the first entry of a name out changes the map at that name only.
proof fn lemma_removed<V>(before: Seq<(String, V)>, i: int)
    requires
        is_first_named(before, before[i].0@, i),
    ensures
        entries_map(before.remove(i)).remove(before[i].0@) == entries_map(before).remove(
            before[i].0@,
        ),
        names_ascend(before) ==> names_ascend(before.remove(i)),
{
    let name = before[i].0@;
    let after = before.remove(i);
    assert forall|n: Seq<char>| n != name implies (holds_name(after, n) <==> holds_name(before, n)) by {
        if holds_name(before, n) {
            let j = choose|j: int| 0 <= j < before.len() && (#[trigger] before[j]).0@ == n;
            assert(after[if j < i { j } else { j - 1 }].0@ == n);
        }
        if holds_name(after, n) {
            let j = choose|j: int| 0 <= j < after.len() && (#[trigger] after[j]).0@ == n;
            assert(before[if j < i { j } else { j + 1 }].0@ == n);
        }
    }
    assert forall|n: Seq<char>| n != name && holds_name(after, n) implies #[trigger] entries_map(
        after,
    )[n] == entries_map(before)[n] by {
        let j = choose|j: int| 0 <= j < after.len() && (#[trigger] after[j]).0@ == n;
        let f = lemma_first_named(after, n, j);
        lemma_entries_map_at(after, n, f);
        let g = if f < i { f } else { f + 1 };
        assert(before[g].0@ == n);
        assert forall|k: int| 0 <= k < g implies (#[trigger] before[k]).0@ != n by {
            if k != i {
                assert(after[if k < i { k } else { k - 1 }].0@ != n);
            }
        }
        lemma_entries_map_at(before, n, g);
    }
    assert(entries_map(after).remove(name) =~= entries_map(before).remove(name));
    if names_ascend(before) {
        assert forall|a: int, b: int|
            #![trigger after[a], after[b]]
            0 <= a < b < after.len() implies name_less(after[a].0@, after[b].0@) by {
            let c = if a < i { a } else { a + 1 };
            let d = if b < i { b } else { b + 1 };
            assert(name_less(before[c].0@, before[d].0@));
        }
    }
}

/// Names are ordered as dictionaries order words, by their bytes: a name comes
/// before whatever continues it, and of two that part ways the one with the
/// smaller byte there comes first. Of two different names one is first, and no
/// name comes before itself.
pub proof fn law_names_are_ordered_by_bytes(
    head: Seq<u8>,
    a: u8,
    b: u8,
    x: Seq<u8>,
    y: Seq<u8>,
    name: Seq<char>,
)
    requires
        a < b,
    ensures
        bytes_less(head, head + seq![a] + x),
        !bytes_less(head + seq![a] + x, head),
        bytes_less(head + seq![a] + x, head + seq![b] + y),
        !bytes_less(head + seq![b] + y, head + seq![a] + x),
        !name_less(name, name),
{
    let n = head.len() as int;
    assert(differ_first_at(head, head + seq![a] + x, n));
    assert(differ_first_at(head + seq![a] + x, head + seq![b] + y, n));
    lemma_bytes_less_is_strict(head, head + seq![a] + x);
    lemma_bytes_less_is_strict(head + seq![a] + x, head + seq![b] + y);
    lemma_bytes_less_is_strict(encode_utf8(name), encode_utf8(name));
}

} // verus!
