//! Stable sorting.
use vstd::prelude::*;
use vstd::string::*;

use crate::order::{compare_text, text_lt, text_order, Rel};
use crate::text::chars_of;

verus! {

/// `before` is irreflexive and transitive, and so is its negation: it ranks
/// values, some of them alike.
pub open spec fn weak_order<T>(before: spec_fn(T, T) -> bool) -> bool {
    &&& forall|a: T| !#[trigger] before(a, a)
    &&& forall|a: T, b: T, c: T| #[trigger] before(a, b) && #[trigger] before(b, c) ==> before(a, c)
    &&& forall|a: T, b: T, c: T| !#[trigger] before(a, b) && !#[trigger] before(b, c) ==> !before(a, c)
}

/// `s` with `x` put in behind every item that `x` does not come before.
pub open spec fn placed<T>(s: Seq<T>, x: T, before: spec_fn(T, T) -> bool) -> Seq<T>
    decreases s.len(),
{
    if s.len() > 0 && before(x, s.last()) {
        placed(s.drop_last(), x, before).push(s.last())
    } else {
        s.push(x)
    }
}

/// The items of `s` in order; items that are alike keep the order they had.
pub open spec fn arranged<T>(s: Seq<T>, before: spec_fn(T, T) -> bool) -> Seq<T>
    decreases s.len(),
{
    if s.len() == 0 {
        s
    } else {
        placed(arranged(s.drop_last(), before), s.last(), before)
    }
}

/// No item comes before one that stands to its left.
pub open spec fn in_order<T>(s: Seq<T>, before: spec_fn(T, T) -> bool) -> bool {
    forall|i: int, j: int| 0 <= i < j < s.len() ==> !before(#[trigger] s[j], #[trigger] s[i])
}

proof fn lemma_placed<T>(s: Seq<T>, x: T, before: spec_fn(T, T) -> bool)
    requires
        weak_order(before),
        in_order(s, before),
    ensures
        placed(s, x, before).len() == s.len() + 1,
        in_order(placed(s, x, before), before),
        placed(s, x, before).to_multiset() == s.to_multiset().insert(x),
        forall|i: int| 0 <= i <= s.len() ==> (#[trigger] placed(s, x, before)[i] == x || s.contains(placed(s, x, before)[i])),
    decreases s.len(),
{
    broadcast use vstd::seq_lib::group_to_multiset_ensures;

    let r = placed(s, x, before);
    if s.len() > 0 && before(x, s.last()) {
        let t = s.drop_last();
        lemma_placed(t, x, before);
        assert(s =~= t.push(s.last()));
        assert(r.to_multiset() =~= s.to_multiset().insert(x));
        let p = placed(t, x, before);
        assert forall|i: int| 0 <= i <= s.len() implies (#[trigger] r[i] == x || s.contains(r[i])) by {
            if i < s.len() {
                assert(r[i] == p[i]);
                if p[i] != x {
                    let k = choose|k: int| 0 <= k < t.len() && t[k] == p[i];
                    assert(s[k] == p[i]);
                }
            } else {
                assert(s[s.len() - 1] == r[i]);
            }
        }
        assert forall|i: int, j: int| 0 <= i < j < r.len() implies !before(#[trigger] r[j], #[trigger] r[i]) by {
            if j == s.len() {
                assert(r[i] == p[i]);
                if p[i] == x {
                    if before(s.last(), x) {
                        assert(before(x, x));
                    }
                } else {
                    let k = choose|k: int| 0 <= k < t.len() && t[k] == p[i];
                    assert(!before(s[s.len() - 1], s[k]));
                }
            } else {
                assert(r[i] == p[i] && r[j] == p[j]);
            }
        }
    } else {
        assert forall|i: int, j: int| 0 <= i < j < r.len() implies !before(#[trigger] r[j], #[trigger] r[i]) by {
            if j == s.len() && s.len() > 0 {
                let last = s.last();
                assert(!before(x, last));
                if i < s.len() - 1 {
                    assert(!before(s[s.len() - 1], s[i]));
                }
            }
        }
        assert forall|i: int| 0 <= i <= s.len() implies (#[trigger] r[i] == x || s.contains(r[i])) by {
            if i < s.len() {
                assert(s[i] == r[i]);
            }
        }
    }
}

/// Sorting keeps every item, as often as it occurs, and puts them in order.
pub proof fn arranged_is_sorted<T>(s: Seq<T>, before: spec_fn(T, T) -> bool)
    requires
        weak_order(before),
    ensures
        arranged(s, before).len() == s.len(),
        in_order(arranged(s, before), before),
        arranged(s, before).to_multiset() == s.to_multiset(),
    decreases s.len(),
{
    broadcast use vstd::seq_lib::group_to_multiset_ensures;

    if s.len() > 0 {
        arranged_is_sorted(s.drop_last(), before);
        lemma_placed(arranged(s.drop_last(), before), s.last(), before);
        assert(s =~= s.drop_last().push(s.last()));
    }
}

/// The items that rank like `z`.
pub open spec fn alike<T>(z: T, before: spec_fn(T, T) -> bool) -> spec_fn(T) -> bool {
    |y: T| !before(z, y) && !before(y, z)
}

proof fn lemma_filter_push<T>(s: Seq<T>, y: T, p: spec_fn(T) -> bool)
    ensures
        s.push(y).filter(p) == (if p(y) {
            s.filter(p).push(y)
        } else {
            s.filter(p)
        }),
{
    reveal(Seq::filter);
    assert(s.push(y).drop_last() =~= s);
}

proof fn lemma_placed_alike<T>(s: Seq<T>, x: T, z: T, before: spec_fn(T, T) -> bool)
    requires
        weak_order(before),
    ensures
        placed(s, x, before).filter(alike(z, before)) == s.push(x).filter(alike(z, before)),
    decreases s.len(),
{
    let p = alike(z, before);
    if s.len() > 0 && before(x, s.last()) {
        let t = s.drop_last();
        lemma_placed_alike(t, x, z, before);
        assert(s =~= t.push(s.last()));
        lemma_filter_push(placed(t, x, before), s.last(), p);
        lemma_filter_push(t, s.last(), p);
        lemma_filter_push(t, x, p);
        lemma_filter_push(s, x, p);
        if p(x) && p(s.last()) {
            assert(!before(x, z) && !before(z, s.last()));
            assert(!before(x, s.last()));
        }
    }
}

/// Sorting is stable: items that rank alike keep the order they had.
pub proof fn arranged_is_stable<T>(s: Seq<T>, z: T, before: spec_fn(T, T) -> bool)
    requires
        weak_order(before),
    ensures
        arranged(s, before).filter(alike(z, before)) == s.filter(alike(z, before)),
    decreases s.len(),
{
    if s.len() > 0 {
        let t = arranged(s.drop_last(), before);
        arranged_is_stable(s.drop_last(), z, before);
        lemma_placed_alike(t, s.last(), z, before);
        lemma_filter_push(t, s.last(), alike(z, before));
        lemma_filter_push(s.drop_last(), s.last(), alike(z, before));
        assert(s =~= s.drop_last().push(s.last()));
    }
}

/// A type whose values are ranked by what they stand for.
pub trait Ranked: View {
    spec fn before() -> spec_fn(Self::V, Self::V) -> bool;

    fn comes_before(&self, other: &Self) -> (r: bool)
        ensures
            r == Self::before()(self@, other@),
    ;
}

impl Ranked for String {
    open spec fn before() -> spec_fn(Seq<char>, Seq<char>) -> bool {
        text_lt()
    }

    fn comes_before(&self, other: &Self) -> (r: bool) {
        proof {
            text_order();
        }
        compare_text(chars_of(self.as_str()).as_slice(), chars_of(other.as_str()).as_slice()) == Rel::Before
    }
}

/// What each value stands for.
pub open spec fn views<T: View>(s: Seq<T>) -> Seq<T::V> {
    s.map_values(|x: T| x@)
}

pub proof fn lemma_placed_at<T>(s: Seq<T>, x: T, k: int, before: spec_fn(T, T) -> bool)
    requires
        0 <= k <= s.len(),
        forall|j: int| k <= j < s.len() ==> before(x, #[trigger] s[j]),
        k > 0 ==> !before(x, s[k - 1]),
    ensures
        placed(s, x, before) == s.insert(k, x),
    decreases s.len() - k,
{
    if k < s.len() {
        lemma_placed_at(s.drop_last(), x, k, before);
        assert(s.insert(k, x) =~= s.drop_last().insert(k, x).push(s.last()));
    } else {
        assert(s.insert(k, x) =~= s.push(x));
    }
}

/// Sort in place.
pub fn sort<T: Ranked>(v: &mut Vec<T>)
    ensures
        views(final(v)@) == arranged(views(old(v)@), T::before()),
{
    let n = v.len();
    let ghost s0 = views(v@);
    let mut i: usize = 0;
    assert(s0.take(0) =~= seq![]);
    assert(views(v@).take(0) =~= seq![]);
    while i < n
        invariant
            i <= n == v@.len(),
            s0 == views(old(v)@),
            n == s0.len(),
            views(v@).take(i as int) == arranged(s0.take(i as int), T::before()),
            views(v@).skip(i as int) == s0.skip(i as int),
        decreases n - i,
    {
        let ghost done = views(v@).take(i as int);
        let ghost x = s0[i as int];
        assert(views(v@)[i as int] == x) by {
            assert(views(v@).skip(i as int)[0] == s0.skip(i as int)[0]);
        }
        let mut k: usize = i;
        while k > 0 && v[i].comes_before(&v[k - 1])
            invariant
                0 <= k <= i < n,
                n == v@.len(),
                done == views(v@).take(i as int),
                x == views(v@)[i as int],
                forall|j: int| k <= j < i ==> T::before()(x, #[trigger] done[j]),
            decreases k,
        {
            assert(done[k - 1] == views(v@)[k - 1]);
            k -= 1;
        }
        if k > 0 {
            assert(done[k - 1] == views(v@)[k - 1]);
        }
        proof {
            lemma_placed_at(done, x, k as int, T::before());
            assert(s0.take(i + 1).drop_last() =~= s0.take(i as int));
        }
        let ghost v0 = v@;
        let item = v.remove(i);
        v.insert(k, item);
        proof {
            assert(v@ =~= v0.remove(i as int).insert(k as int, v0[i as int]));
            assert(views(v@).take(i + 1) =~= done.insert(k as int, x));
            assert(views(v@).skip(i + 1) =~= views(v0).skip(i as int).skip(1));
            assert(s0.skip(i + 1) =~= s0.skip(i as int).skip(1));
        }
        i += 1;
    }
    assert(views(v@).take(n as int) =~= views(v@));
    assert(s0.take(n as int) =~= s0);
}

/// What the values of a list say stands in the same places.
pub proof fn views_stand_in_place<T: View>(s: Seq<T>, i: int)
    ensures
        views(s).len() == s.len(),
        0 <= i < s.len() ==> views(s)[i] == s[i]@,
{
}

/// What ranks alike is what neither comes before the other.
pub proof fn alike_is_neither_before<T>(z: T, y: T, before: spec_fn(T, T) -> bool)
    ensures
        alike(z, before)(y) <==> !before(z, y) && !before(y, z),
{
}

} // verus!
