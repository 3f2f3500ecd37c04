//! A map that keeps its entries in key order.
use vstd::prelude::*;

use crate::order::{compare_text, rel_of, strict_total, text_lt, text_order, Rel};
use crate::text::chars_of;

verus! {

/// A key: it has an identity, and identities are totally ordered.
pub trait MapKey: Sized {
    /// What two equal keys share.
    type Id;

    spec fn id(&self) -> Self::Id;

    spec fn id_lt() -> spec_fn(Self::Id, Self::Id) -> bool;

    proof fn ids_are_ordered()
        ensures
            strict_total(Self::id_lt()),
    ;

    fn relate(&self, other: &Self) -> (r: Rel)
        ensures
            rel_of(r, self.id(), other.id(), Self::id_lt()),
    ;
}

impl MapKey for String {
    type Id = Seq<char>;

    open spec fn id(&self) -> Seq<char> {
        self@
    }

    open spec fn id_lt() -> spec_fn(Seq<char>, Seq<char>) -> bool {
        text_lt()
    }

    proof fn ids_are_ordered() {
        text_order();
    }

    fn relate(&self, other: &Self) -> (r: Rel) {
        compare_text(chars_of(self.as_str()).as_slice(), chars_of(other.as_str()).as_slice())
    }
}

/// Pairs of texts, by the first and then by the second.
pub open spec fn text_pair_lt() -> spec_fn((Seq<char>, Seq<char>), (Seq<char>, Seq<char>)) -> bool {
    |a: (Seq<char>, Seq<char>), b: (Seq<char>, Seq<char>)|
        text_lt()(a.0, b.0) || (a.0 == b.0 && text_lt()(a.1, b.1))
}

impl MapKey for (String, String) {
    type Id = (Seq<char>, Seq<char>);

    open spec fn id(&self) -> (Seq<char>, Seq<char>) {
        (self.0@, self.1@)
    }

    open spec fn id_lt() -> spec_fn((Seq<char>, Seq<char>), (Seq<char>, Seq<char>)) -> bool {
        text_pair_lt()
    }

    proof fn ids_are_ordered() {
        text_order();
        let lt = text_pair_lt();
        let t = text_lt();
        assert forall|a: (Seq<char>, Seq<char>)| !#[trigger] lt(a, a) by {
            assert(!t(a.0, a.0));
            assert(!t(a.1, a.1));
        }
        assert forall|a: (Seq<char>, Seq<char>), b: (Seq<char>, Seq<char>)|
            a == b || #[trigger] lt(a, b) || lt(b, a) by {
            assert(a.0 == b.0 || t(a.0, b.0) || t(b.0, a.0));
            assert(a.1 == b.1 || t(a.1, b.1) || t(b.1, a.1));
        }
    }

    fn relate(&self, other: &Self) -> (r: Rel) {
        match self.0.relate(&other.0) {
            Rel::Same => self.1.relate(&other.1),
            r => r,
        }
    }
}

/// The map that a list of entries makes: the last entry of a key counts.
pub open spec fn map_of<I, V>(items: Seq<(I, V)>) -> Map<I, V>
    decreases items.len(),
{
    if items.len() == 0 {
        Map::empty()
    } else {
        map_of(items.drop_last()).insert(items.last().0, items.last().1)
    }
}

/// Keys rise strictly from entry to entry.
pub open spec fn rising<I, V>(items: Seq<(I, V)>, lt: spec_fn(I, I) -> bool) -> bool {
    forall|i: int, j: int| 0 <= i < j < items.len() ==> lt(#[trigger] items[i].0, #[trigger] items[j].0)
}

/// What `map_of` holds of entries that have no key twice.
pub proof fn lemma_map_of<I, V>(items: Seq<(I, V)>)
    requires
        forall|i: int, j: int| 0 <= i < j < items.len() ==> #[trigger] items[i].0 != #[trigger] items[j].0,
    ensures
        forall|i: int| 0 <= i < items.len() ==> map_of(items).contains_pair(#[trigger] items[i].0, items[i].1),
        forall|k: I| #[trigger] map_of(items).contains_key(k) ==> exists|i: int| 0 <= i < items.len() && #[trigger] items[i].0 == k,
        map_of(items).dom().finite(),
        map_of(items).len() == items.len(),
    decreases items.len(),
{
    if items.len() > 0 {
        let rest = items.drop_last();
        assert forall|i: int, j: int| 0 <= i < j < rest.len() implies #[trigger] rest[i].0 != #[trigger] rest[j].0 by {
            assert(items[i].0 != items[j].0);
        }
        lemma_map_of(rest);
        assert(!map_of(rest).contains_key(items.last().0)) by {
            if map_of(rest).contains_key(items.last().0) {
                let i = choose|i: int| 0 <= i < rest.len() && #[trigger] rest[i].0 == items.last().0;
                assert(items[i].0 != items[items.len() - 1].0);
            }
        }
        assert forall|i: int| 0 <= i < items.len() implies map_of(items).contains_pair(#[trigger] items[i].0, items[i].1) by {
            if i < items.len() - 1 {
                assert(rest[i] == items[i]);
                assert(items[i].0 != items[items.len() - 1].0);
            }
        }
        assert forall|k: I| #[trigger] map_of(items).contains_key(k) implies exists|i: int| 0 <= i < items.len() && #[trigger] items[i].0 == k by {
            if k != items.last().0 {
                assert(map_of(rest).contains_key(k));
                let i = choose|i: int| 0 <= i < rest.len() && #[trigger] rest[i].0 == k;
                assert(items[i].0 == k);
            } else {
                assert(items[items.len() - 1].0 == k);
            }
        }
    }
}

proof fn lemma_rising_distinct<I, V>(items: Seq<(I, V)>, lt: spec_fn(I, I) -> bool)
    requires
        rising(items, lt),
        strict_total(lt),
    ensures
        forall|i: int, j: int| 0 <= i < j < items.len() ==> #[trigger] items[i].0 != #[trigger] items[j].0,
{
    assert forall|i: int, j: int| 0 <= i < j < items.len() implies #[trigger] items[i].0 != #[trigger] items[j].0 by {
        assert(lt(items[i].0, items[j].0));
    }
}

/// Entries in key order are fixed by the map they make: the order in which
/// they were put in leaves no trace.
pub proof fn lemma_rising_unique<I, V>(a: Seq<(I, V)>, b: Seq<(I, V)>, lt: spec_fn(I, I) -> bool)
    requires
        strict_total(lt),
        rising(a, lt),
        rising(b, lt),
        map_of(a) == map_of(b),
    ensures
        a == b,
    decreases a.len(),
{
    lemma_rising_distinct(a, lt);
    lemma_rising_distinct(b, lt);
    lemma_map_of(a);
    lemma_map_of(b);
    if a.len() == 0 {
        assert(a =~= b);
    } else {
        let m = map_of(a);
        let ka = a.last().0;
        let kb = b.last().0;
        assert(m.contains_pair(a[a.len() - 1].0, a.last().1));
        assert(m.contains_pair(b[b.len() - 1].0, b.last().1));
        assert(map_of(b).contains_key(ka));
        let j = choose|j: int| 0 <= j < b.len() && #[trigger] b[j].0 == ka;
        assert(map_of(a).contains_key(kb));
        let i = choose|i: int| 0 <= i < a.len() && #[trigger] a[i].0 == kb;
        if ka != kb {
            assert(lt(b[j].0, b[b.len() - 1].0));
            assert(lt(a[i].0, a[a.len() - 1].0));
            assert(lt(ka, kb) && lt(kb, ka));
            assert(lt(ka, ka));
        }
        let ra = a.drop_last();
        let rb = b.drop_last();
        assert(rising(ra, lt)) by {
            assert forall|x: int, y: int| 0 <= x < y < ra.len() implies lt(#[trigger] ra[x].0, #[trigger] ra[y].0) by {
                assert(lt(a[x].0, a[y].0));
            }
        }
        assert(rising(rb, lt)) by {
            assert forall|x: int, y: int| 0 <= x < y < rb.len() implies lt(#[trigger] rb[x].0, #[trigger] rb[y].0) by {
                assert(lt(b[x].0, b[y].0));
            }
        }
        lemma_rising_distinct(ra, lt);
        lemma_rising_distinct(rb, lt);
        lemma_map_of(ra);
        lemma_map_of(rb);
        assert(!map_of(ra).contains_key(ka)) by {
            if map_of(ra).contains_key(ka) {
                let x = choose|x: int| 0 <= x < ra.len() && #[trigger] ra[x].0 == ka;
                assert(a[x].0 != a[a.len() - 1].0);
            }
        }
        assert(!map_of(rb).contains_key(ka)) by {
            if map_of(rb).contains_key(ka) {
                let x = choose|x: int| 0 <= x < rb.len() && #[trigger] rb[x].0 == ka;
                assert(b[x].0 != b[b.len() - 1].0);
            }
        }
        assert(map_of(ra) =~= m.remove(ka));
        assert(map_of(rb) =~= m.remove(ka));
        lemma_rising_unique(ra, rb, lt);
        assert(a =~= ra.push(a.last()));
        assert(b =~= rb.push(b.last()));
    }
}

/// A map from `K` to `V` whose entries stand in key order.
#[derive(Debug, PartialEq)]
pub struct SortedMap<K: MapKey, V> {
    entries: Vec<(K, V)>,
}

impl<K: MapKey, V> SortedMap<K, V> {
    /// The entries in key order.
    pub closed spec fn items(&self) -> Seq<(K::Id, V)> {
        self.entries@.map_values(|e: (K, V)| (e.0.id(), e.1))
    }

    /// Keys rise: none occurs twice.
    #[verifier::type_invariant]
    pub closed spec fn wf(&self) -> bool {
        rising(self.items(), K::id_lt())
    }
}

impl<K: MapKey, V> View for SortedMap<K, V> {
    type V = Map<K::Id, V>;

    open spec fn view(&self) -> Map<K::Id, V> {
        map_of(self.items())
    }
}

impl<K: MapKey, V> SortedMap<K, V> {
    /// The entries and the map agree; the entries are in key order.
    pub proof fn items_and_map(&self)
        requires
            self.wf(),
        ensures
            rising(self.items(), K::id_lt()),
            forall|i: int, j: int| 0 <= i < j < self.items().len() ==> #[trigger] self.items()[i].0 != #[trigger] self.items()[j].0,
            forall|i: int| 0 <= i < self.items().len() ==> self@.contains_pair(#[trigger] self.items()[i].0, self.items()[i].1),
            forall|k: K::Id| #[trigger] self@.contains_key(k) ==> exists|i: int| 0 <= i < self.items().len() && #[trigger] self.items()[i].0 == k,
            self@.len() == self.items().len(),
            self@.dom().finite(),
    {
        K::ids_are_ordered();
        lemma_rising_distinct(self.items(), K::id_lt());
        lemma_map_of(self.items());
    }

    /// Two maps that hold the same list the same entries.
    pub proof fn same_map_same_items(&self, other: &Self)
        requires
            self.wf(),
            other.wf(),
            self@ == other@,
        ensures
            self.items() == other.items(),
    {
        K::ids_are_ordered();
        lemma_rising_unique(self.items(), other.items(), K::id_lt());
    }

    pub fn new() -> (r: Self)
        ensures
            r@ == Map::<K::Id, V>::empty(),
            r.items() == Seq::<(K::Id, V)>::empty(),
            r.wf(),
    {
        let r = SortedMap { entries: Vec::new() };
        assert(r.items() =~= Seq::<(K::Id, V)>::empty());
        r
    }

    pub fn len(&self) -> (r: usize)
        ensures
            r == self.items().len(),
            r == self@.len(),
    {
        proof {
            use_type_invariant(self);
            self.items_and_map();
        }
        self.entries.len()
    }

    pub fn is_empty(&self) -> (r: bool)
        ensures
            r == (self@.len() == 0),
            r == (self.items().len() == 0),
    {
        self.len() == 0
    }

    /// The key of the `i`th entry in key order.
    pub fn key_at(&self, i: usize) -> (r: &K)
        requires
            i < self.items().len(),
        ensures
            r.id() == self.items()[i as int].0,
    {
        &self.entries[i].0
    }

    /// The value of the `i`th entry in key order.
    pub fn value_at(&self, i: usize) -> (r: &V)
        requires
            i < self.items().len(),
        ensures
            *r == self.items()[i as int].1,
    {
        &self.entries[i].1
    }

    /// The place of the first entry whose key is not before `key`.
    fn seek(&self, key: &K) -> (r: usize)
        ensures
            r <= self.items().len(),
            forall|i: int| 0 <= i < r ==> K::id_lt()(#[trigger] self.items()[i].0, key.id()),
            forall|i: int| r <= i < self.items().len() ==> !K::id_lt()(#[trigger] self.items()[i].0, key.id()),
    {
        proof {
            use_type_invariant(self);
            K::ids_are_ordered();
        }
        let ghost lt = K::id_lt();
        let mut lo: usize = 0;
        let mut hi: usize = self.entries.len();
        while lo < hi
            invariant
                lo <= hi <= self.items().len(),
                self.items().len() == self.entries@.len(),
                lt == K::id_lt(),
                strict_total(lt),
                rising(self.items(), lt),
                forall|i: int| 0 <= i < lo ==> lt(#[trigger] self.items()[i].0, key.id()),
                forall|i: int| hi <= i < self.items().len() ==> !lt(#[trigger] self.items()[i].0, key.id()),
            decreases hi - lo,
        {
            let mid = lo + (hi - lo) / 2;
            let rel = self.entries[mid].0.relate(key);
            let ghost k = self.items()[mid as int].0;
            assert(rel_of(rel, k, key.id(), lt));
            if rel == Rel::Before {
                assert forall|i: int| 0 <= i < mid + 1 implies lt(#[trigger] self.items()[i].0, key.id()) by {
                    if i < mid {
                        assert(lt(self.items()[i].0, self.items()[mid as int].0));
                    }
                }
                lo = mid + 1;
            } else {
                assert(!lt(k, key.id())) by {
                    if lt(k, key.id()) && rel == Rel::After {
                        assert(lt(k, k));
                    }
                }
                assert forall|i: int| mid <= i < self.items().len() implies !lt(#[trigger] self.items()[i].0, key.id()) by {
                    if i > mid && lt(self.items()[i].0, key.id()) {
                        assert(lt(self.items()[mid as int].0, self.items()[i].0));
                        assert(lt(k, key.id()));
                    }
                }
                hi = mid;
            }
        }
        lo
    }

    /// The value of `key`, if the map holds one.
    pub fn get(&self, key: &K) -> (r: Option<&V>)
        ensures
            match r {
                Some(v) => self@.contains_pair(key.id(), *v),
                None => !self@.contains_key(key.id()),
            },
    {
        proof {
            use_type_invariant(self);
            self.items_and_map();
            K::ids_are_ordered();
        }
        let i = self.seek(key);
        if i < self.entries.len() {
            let ghost k = self.items()[i as int].0;
            if self.entries[i].0.relate(key) == Rel::Same {
                assert(self@.contains_pair(k, self.items()[i as int].1));
                return Some(&self.entries[i].1);
            }
        }
        proof {
            if self@.contains_key(key.id()) {
                let j = choose|j: int| 0 <= j < self.items().len() && #[trigger] self.items()[j].0 == key.id();
                let lt = K::id_lt();
                assert(!lt(key.id(), key.id()));
                if j < i {
                    assert(lt(self.items()[j].0, key.id()));
                } else if j > i {
                    assert(lt(self.items()[i as int].0, self.items()[j].0));
                }
            }
        }
        None
    }

    /// Put `value` under `key`, in place of what stood there.
    pub fn insert(&mut self, key: K, value: V)
        ensures
            final(self)@ == old(self)@.insert(key.id(), value),
            final(self).wf(),
    {
        proof {
            use_type_invariant(&*self);
            K::ids_are_ordered();
        }
        let ghost lt = K::id_lt();
        let ghost before = self.items();
        let i = self.seek(&key);
        let hit = i < self.entries.len() && self.entries[i].0.relate(&key) == Rel::Same;
        let mut entries: Vec<(K, V)> = Vec::new();
        core::mem::swap(&mut entries, &mut self.entries);
        let ghost es = entries@;
        assert(before =~= es.map_values(|e: (K, V)| (e.0.id(), e.1)));
        let ghost kid = key.id();
        let ghost val = value;
        proof {
            lemma_rising_distinct(before, lt);
            lemma_map_of(before);
        }
        let ghost item = (kid, val);
        if hit {
            entries.remove(i);
            entries.insert(i, (key, value));
            let ghost after = before.update(i as int, item);
            assert(entries@.map_values(|e: (K, V)| (e.0.id(), e.1)) =~= after);
            proof {
                assert(rising(after, lt)) by {
                    assert forall|x: int, y: int| 0 <= x < y < after.len() implies lt(#[trigger] after[x].0, #[trigger] after[y].0) by {
                        assert(lt(before[x].0, before[y].0));
                    }
                }
                lemma_rising_distinct(after, lt);
                lemma_map_of(after);
                Self::lemma_replaced(before, after, i as int, item);
            }
            self.entries = entries;
            assert(self.items() =~= after);
        } else {
            entries.insert(i, (key, value));
            let ghost after = before.insert(i as int, item);
            assert(entries@.map_values(|e: (K, V)| (e.0.id(), e.1)) =~= after);
            proof {
                if i < before.len() {
                    assert(!lt(before[i as int].0, kid));
                    assert(before[i as int].0 == kid || lt(before[i as int].0, kid) || lt(kid, before[i as int].0));
                }
                assert(rising(after, lt)) by {
                    assert forall|x: int, y: int| 0 <= x < y < after.len() implies lt(#[trigger] after[x].0, #[trigger] after[y].0) by {
                        if x < i && y > i {
                            assert(lt(before[x].0, before[y - 1].0));
                        } else if x == i {
                            if y - 1 > i {
                                assert(lt(before[i as int].0, before[y - 1].0));
                                assert(lt(kid, before[i as int].0));
                            }
                        } else if x > i {
                            assert(lt(before[x - 1].0, before[y - 1].0));
                        } else if y < i {
                            assert(lt(before[x].0, before[y].0));
                        }
                    }
                }
                lemma_rising_distinct(after, lt);
                lemma_map_of(after);
                Self::lemma_added(before, after, i as int, item);
            }
            self.entries = entries;
            assert(self.items() =~= after);
        }
    }

    proof fn lemma_replaced(before: Seq<(K::Id, V)>, after: Seq<(K::Id, V)>, i: int, item: (K::Id, V))
        requires
            0 <= i < before.len(),
            after == before.update(i, item),
            before[i].0 == item.0,
            forall|i: int, j: int| 0 <= i < j < before.len() ==> #[trigger] before[i].0 != #[trigger] before[j].0,
            forall|i: int, j: int| 0 <= i < j < after.len() ==> #[trigger] after[i].0 != #[trigger] after[j].0,
        ensures
            map_of(after) == map_of(before).insert(item.0, item.1),
    {
        lemma_map_of(before);
        lemma_map_of(after);
        let want = map_of(before).insert(item.0, item.1);
        assert(after[i] == item);
        assert forall|k: K::Id| #![trigger map_of(after).dom().contains(k)] #![trigger want.dom().contains(k)] map_of(after).dom().contains(k) == want.dom().contains(k) && (want.dom().contains(k) ==> map_of(after)[k] == want[k]) by {
            if map_of(after).contains_key(k) {
                let j = choose|j: int| 0 <= j < after.len() && #[trigger] after[j].0 == k;
                if j != i {
                    assert(after[j] == before[j]);
                    assert(map_of(before).contains_pair(before[j].0, before[j].1));
                    if j < i { assert(before[j].0 != before[i].0); } else { assert(before[i].0 != before[j].0); }
                }
                assert(map_of(after).contains_pair(after[j].0, after[j].1));
            } else if want.contains_key(k) {
                if k != item.0 {
                    let j = choose|j: int| 0 <= j < before.len() && #[trigger] before[j].0 == k;
                    assert(after[j] == before[j]);
                    assert(map_of(after).contains_pair(after[j].0, after[j].1));
                } else {
                    assert(map_of(after).contains_pair(after[i].0, after[i].1));
                }
            }
        }
        assert(map_of(after) =~= want);
    }

    proof fn lemma_added(before: Seq<(K::Id, V)>, after: Seq<(K::Id, V)>, i: int, item: (K::Id, V))
        requires
            0 <= i <= before.len(),
            after == before.insert(i, item),
            forall|i: int, j: int| 0 <= i < j < before.len() ==> #[trigger] before[i].0 != #[trigger] before[j].0,
            forall|i: int, j: int| 0 <= i < j < after.len() ==> #[trigger] after[i].0 != #[trigger] after[j].0,
        ensures
            map_of(after) == map_of(before).insert(item.0, item.1),
    {
        lemma_map_of(before);
        lemma_map_of(after);
        let want = map_of(before).insert(item.0, item.1);
        assert(after[i] == item);
        assert forall|k: K::Id| #![trigger map_of(after).dom().contains(k)] #![trigger want.dom().contains(k)] map_of(after).dom().contains(k) == want.dom().contains(k) && (want.dom().contains(k) ==> map_of(after)[k] == want[k]) by {
            if map_of(after).contains_key(k) {
                let j = choose|j: int| 0 <= j < after.len() && #[trigger] after[j].0 == k;
                if j < i {
                    assert(after[j] == before[j]);
                    assert(map_of(before).contains_pair(before[j].0, before[j].1));
                    assert(after[j].0 != after[i].0);
                } else if j > i {
                    assert(after[j] == before[j - 1]);
                    assert(map_of(before).contains_pair(before[j - 1].0, before[j - 1].1));
                    assert(after[i].0 != after[j].0);
                }
                assert(map_of(after).contains_pair(after[j].0, after[j].1));
            } else if want.contains_key(k) {
                if k != item.0 {
                    let j = choose|j: int| 0 <= j < before.len() && #[trigger] before[j].0 == k;
                    let x = if j < i { j } else { j + 1 };
                    assert(after[x] == before[j]);
                    assert(map_of(after).contains_pair(after[x].0, after[x].1));
                } else {
                    assert(map_of(after).contains_pair(after[i].0, after[i].1));
                }
            }
        }
        assert(map_of(after) =~= want);
    }
}

/// A type whose values can be copied.
pub trait Copied: View + Sized {
    fn copied(&self) -> (r: Self)
        ensures
            r@ == self@,
    ;
}

impl Copied for String {
    fn copied(&self) -> (r: Self) {
        self.clone()
    }
}

/// What each value of a map stands for.
pub open spec fn viewed<I, V: View>(m: Map<I, V>) -> Map<I, V::V> {
    m.map_values(|v: V| v@)
}

impl<V: Copied> SortedMap<String, V> {
    /// The same entries once more.
    pub fn copied(&self) -> (r: Self)
        ensures
            viewed(r@) == viewed(self@),
    {
        proof {
            use_type_invariant(self);
            self.items_and_map();
        }
        let ghost items = self.items();
        let n = self.len();
        let mut out: SortedMap<String, V> = SortedMap::new();
        let mut i: usize = 0;
        while i < n
            invariant
                i <= n == items.len(),
                items == self.items(),
                forall|j: int| 0 <= j < items.len() ==> self@.contains_pair(#[trigger] items[j].0, items[j].1),
                forall|k: Seq<char>| #[trigger] out@.contains_key(k) ==> self@.contains_key(k) && out@[k]@ == self@[k]@,
                forall|j: int| 0 <= j < i ==> out@.contains_key(#[trigger] items[j].0),
            decreases n - i,
        {
            assert(self@.contains_pair(items[i as int].0, items[i as int].1));
            out.insert(self.key_at(i).clone(), self.value_at(i).copied());
            i += 1;
        }
        proof {
            assert forall|k: Seq<char>| #[trigger] self@.contains_key(k) implies out@.contains_key(k) by {
                let j = choose|j: int| 0 <= j < items.len() && #[trigger] items[j].0 == k;
                assert(out@.contains_key(items[j].0));
            }
            assert(viewed(out@) =~= viewed(self@));
        }
        out
    }
}

/// Of lists one after the other the later counts for a key that both have, and
/// an entry stands for its key alone.
pub proof fn later_entries_count<I, V>(a: Seq<(I, V)>, b: Seq<(I, V)>, key: I, value: V)
    ensures
        map_of(a + b) == map_of(a).union_prefer_right(map_of(b)),
        map_of(seq![(key, value)]) == map![key => value],
    decreases b.len(),
{
    reveal_with_fuel(map_of, 2);
    assert(seq![(key, value)].drop_last() =~= seq![]);
    if b.len() == 0 {
        assert(a + b =~= a);
        assert(map_of(a).union_prefer_right(map_of(b)) =~= map_of(a));
    } else {
        assert((a + b).drop_last() =~= a + b.drop_last());
        assert((a + b).last() == b.last());
        later_entries_count(a, b.drop_last(), key, value);
        assert(map_of(a + b) =~= map_of(a).union_prefer_right(map_of(b)));
    }
}

/// What each value of a map says stands under the value's own key.
pub proof fn views_stand_under_their_keys<I, V: View>(m: Map<I, V>, k: I)
    ensures
        viewed(m).contains_key(k) == m.contains_key(k),
        m.contains_key(k) ==> viewed(m)[k] == m[k]@,
{
}

/// Two texts are told apart and ordered by the first, and only where those are
/// the same by the second.
pub proof fn pairs_go_by_first_and_second(a: (Seq<char>, Seq<char>), b: (Seq<char>, Seq<char>))
    ensures
        a.0 != b.0 ==> (text_pair_lt()(a, b) <==> text_lt()(a.0, b.0)),
        a.0 == b.0 ==> (text_pair_lt()(a, b) <==> text_lt()(a.1, b.1)),
{
    text_order();
}

} // verus!
