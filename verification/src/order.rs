//! Stable sorting of points along one axis: what it means, that it has exactly
//! one outcome, and the call that performs it.

use vstd::prelude::*;
use vstd::multiset::Multiset;

verus! {

/// An item with one integer key per axis.
pub trait Keyed: Sized {
    /// The key of the item along `axis` (0 or 1).
    spec fn key(&self, axis: int) -> int;

    /// The key of the item along `axis`, for sorting.
    fn key_at(&self, axis: usize) -> (k: i64)
        requires
            axis < 2,
        ensures
            k == self.key(axis as int),
    ;
}

impl Keyed for [u32; 2] {
    open spec fn key(&self, axis: int) -> int {
        self[axis] as int
    }

    fn key_at(&self, axis: usize) -> (k: i64) {
        self[axis] as i64
    }
}

impl Keyed for (i32, i32) {
    open spec fn key(&self, axis: int) -> int {
        if axis == 0 {
            self.0 as int
        } else {
            self.1 as int
        }
    }

    fn key_at(&self, axis: usize) -> (k: i64) {
        if axis == 0 {
            self.0 as i64
        } else {
            self.1 as i64
        }
    }
}

/// The keys along `axis` never decrease from left to right.
pub open spec fn sorted_on<T: Keyed>(s: Seq<T>, axis: int) -> bool {
    forall|i: int, j: int| 0 <= i <= j < s.len() ==> s[i].key(axis) <= s[j].key(axis)
}

/// The items of `s` whose key along `axis` is `k`, in the order they have in `s`.
pub open spec fn with_key<T: Keyed>(s: Seq<T>, axis: int, k: int) -> Seq<T>
    decreases s.len(),
{
    if s.len() == 0 {
        Seq::empty()
    } else if s.last().key(axis) == k {
        with_key(s.drop_last(), axis, k).push(s.last())
    } else {
        with_key(s.drop_last(), axis, k)
    }
}

/// `r` is `s` sorted along `axis` with equal keys left in the order they had:
/// the keys of `r` ascend, and for every key value the items with that key are
/// the same sequence in `r` as in `s`.
pub open spec fn is_stable_sort<T: Keyed>(r: Seq<T>, s: Seq<T>, axis: int) -> bool {
    &&& sorted_on(r, axis)
    &&& forall|k: int| #[trigger] with_key(r, axis, k) == with_key(s, axis, k)
}

/// `r` with `x` put behind every item whose key is at most the key of `x`.
pub open spec fn insert_after<T: Keyed>(r: Seq<T>, x: T, axis: int) -> Seq<T>
    decreases r.len(),
{
    if r.len() == 0 || r.last().key(axis) <= x.key(axis) {
        r.push(x)
    } else {
        insert_after(r.drop_last(), x, axis).push(r.last())
    }
}

/// `s` sorted along `axis`, equal keys in the order they had.
pub open spec fn stable_sort<T: Keyed>(s: Seq<T>, axis: int) -> Seq<T>
    decreases s.len(),
{
    if s.len() == 0 {
        Seq::empty()
    } else {
        insert_after(stable_sort(s.drop_last(), axis), s.last(), axis)
    }
}

/// Items that share a key along `axis` are one and the same item.
pub open spec fn untied<T: Keyed>(m: Multiset<T>, axis: int) -> bool {
    forall|a: T, b: T|
        m.count(a) > 0 && m.count(b) > 0 && a.key(axis) == b.key(axis) ==> a == b
}

/// No two items of `m` share a key along `axis`, not even two equal ones.
pub open spec fn apart<T: Keyed>(m: Multiset<T>, axis: int) -> bool {
    forall|a: T, b: T|
        m.count(a) > 0 && m.count(b) > 0 && a.key(axis) == b.key(axis) ==> a == b && m.count(a)
            == 1
}

/// A sequence of one item holds that item once and no other.
pub proof fn lemma_count_one<T>(x: T, p: T)
    ensures
        seq![x].to_multiset().count(p) == if p == x {
            1nat
        } else {
            0nat
        },
{
    let e = Seq::<T>::empty();
    assert(seq![x] =~= e.push(x));
    vstd::seq_lib::to_multiset_build(e, x);
    e.to_multiset_ensures();
    assert(e.to_multiset().count(p) == 0);
}

/// An item of one sequence occurs in every sequence of the same items.
pub proof fn lemma_item_of<T>(a: Seq<T>, b: Seq<T>, i: int) -> (j: int)
    requires
        a.to_multiset() == b.to_multiset(),
        0 <= i < a.len(),
    ensures
        0 <= j < b.len(),
        b[j] == a[i],
{
    a.to_multiset_ensures();
    b.to_multiset_ensures();
    assert(a.contains(a[i]));
    assert(a.to_multiset().count(a[i]) > 0);
    assert(b.to_multiset().count(a[i]) > 0);
    assert(b.contains(a[i]));
    choose|j: int| 0 <= j < b.len() && b[j] == a[i]
}

pub proof fn lemma_with_key_push<T: Keyed>(s: Seq<T>, x: T, axis: int, k: int)
    ensures
        with_key(s.push(x), axis, k) == if x.key(axis) == k {
            with_key(s, axis, k).push(x)
        } else {
            with_key(s, axis, k)
        },
{
    assert(s.push(x).drop_last() =~= s);
}

pub proof fn lemma_with_key_concat<T: Keyed>(a: Seq<T>, b: Seq<T>, axis: int, k: int)
    ensures
        with_key(a + b, axis, k) == with_key(a, axis, k) + with_key(b, axis, k),
    decreases b.len(),
{
    if b.len() == 0 {
        assert(a + b =~= a);
        assert(with_key(a, axis, k) + with_key(b, axis, k) =~= with_key(a, axis, k));
    } else {
        lemma_with_key_concat(a, b.drop_last(), axis, k);
        assert((a + b).drop_last() =~= a + b.drop_last());
        assert((a + b).last() == b.last());
        if b.last().key(axis) == k {
            assert((with_key(a, axis, k) + with_key(b.drop_last(), axis, k)).push(b.last())
                =~= with_key(a, axis, k) + with_key(b.drop_last(), axis, k).push(b.last()));
        }
    }
}

/// Every item of `with_key(s, axis, k)` has key `k` and occurs in `s`.
pub proof fn lemma_with_key_items<T: Keyed>(s: Seq<T>, axis: int, k: int)
    ensures
        with_key(s, axis, k).len() <= s.len(),
        forall|i: int|
            0 <= i < with_key(s, axis, k).len() ==> {
                &&& (#[trigger] with_key(s, axis, k)[i]).key(axis) == k
                &&& s.contains(with_key(s, axis, k)[i])
            },
    decreases s.len(),
{
    if s.len() > 0 {
        lemma_with_key_items(s.drop_last(), axis, k);
        let w = with_key(s, axis, k);
        assert forall|i: int| 0 <= i < w.len() implies (#[trigger] w[i]).key(axis) == k
            && s.contains(w[i]) by {
            if i < with_key(s.drop_last(), axis, k).len() {
                let x = with_key(s.drop_last(), axis, k)[i];
                assert(w[i] == x);
                assert(s.drop_last().contains(x));
                let j = choose|j: int| 0 <= j < s.drop_last().len() && s.drop_last()[j] == x;
                assert(s[j] == x);
            } else {
                assert(w[i] == s.last());
                assert(s[s.len() - 1] == w[i]);
            }
        }
    }
}

/// Where no item has key `k`, nothing is picked.
pub proof fn lemma_with_key_none<T: Keyed>(s: Seq<T>, axis: int, k: int)
    requires
        forall|i: int| 0 <= i < s.len() ==> (#[trigger] s[i]).key(axis) != k,
    ensures
        with_key(s, axis, k) == Seq::<T>::empty(),
    decreases s.len(),
{
    if s.len() > 0 {
        assert(s[s.len() - 1].key(axis) != k);
        assert forall|i: int| 0 <= i < s.drop_last().len() implies (#[trigger] s.drop_last()[i]).key(
            axis,
        ) != k by {
            assert(s.drop_last()[i] == s[i]);
        }
        lemma_with_key_none(s.drop_last(), axis, k);
    }
}

/// Where `insert_after` puts the new item: behind the `n` items whose key is at
/// most its own, before the rest.
pub proof fn lemma_insert_after<T: Keyed>(r: Seq<T>, x: T, axis: int) -> (n: int)
    requires
        sorted_on(r, axis),
    ensures
        0 <= n <= r.len(),
        insert_after(r, x, axis) == r.subrange(0, n).push(x) + r.subrange(n, r.len() as int),
        forall|i: int| 0 <= i < n ==> (#[trigger] r[i]).key(axis) <= x.key(axis),
        forall|i: int| n <= i < r.len() ==> (#[trigger] r[i]).key(axis) > x.key(axis),
    decreases r.len(),
{
    if r.len() == 0 || r.last().key(axis) <= x.key(axis) {
        let n = r.len() as int;
        assert(r.subrange(0, n) =~= r);
        assert(r.push(x) + r.subrange(n, n) =~= r.push(x));
        n
    } else {
        let q = r.drop_last();
        assert forall|i: int, j: int| 0 <= i <= j < q.len() implies q[i].key(axis) <= q[j].key(
            axis,
        ) by {
            assert(q[i] == r[i] && q[j] == r[j]);
        }
        let n = lemma_insert_after(q, x, axis);
        assert(q.subrange(0, n) =~= r.subrange(0, n));
        assert((q.subrange(0, n).push(x) + q.subrange(n, q.len() as int)).push(r.last())
            =~= r.subrange(0, n).push(x) + r.subrange(n, r.len() as int));
        assert forall|i: int| 0 <= i < n implies (#[trigger] r[i]).key(axis) <= x.key(axis) by {
            assert(q[i] == r[i]);
        }
        assert forall|i: int| n <= i < r.len() implies (#[trigger] r[i]).key(axis) > x.key(
            axis,
        ) by {
            if i < q.len() {
                assert(q[i] == r[i]);
            }
        }
        n
    }
}

/// `insert_after` keeps a sorted sequence sorted, adds exactly the new item,
/// and puts it last among the items of its key.
pub proof fn lemma_insert_after_sorted<T: Keyed>(r: Seq<T>, x: T, axis: int)
    requires
        sorted_on(r, axis),
    ensures
        sorted_on(insert_after(r, x, axis), axis),
        insert_after(r, x, axis).len() == r.len() + 1,
        insert_after(r, x, axis).to_multiset() == r.to_multiset().insert(x),
        forall|k: int| #[trigger]
            with_key(insert_after(r, x, axis), axis, k) == if x.key(axis) == k {
                with_key(r, axis, k).push(x)
            } else {
                with_key(r, axis, k)
            },
{
    let n = lemma_insert_after(r, x, axis);
    let t = insert_after(r, x, axis);
    let head = r.subrange(0, n);
    let tail = r.subrange(n, r.len() as int);
    assert(t == head.push(x) + tail);
    assert forall|i: int, j: int| 0 <= i <= j < t.len() implies t[i].key(axis) <= t[j].key(
        axis,
    ) by {
        if i < n {
            assert(t[i] == r[i]);
        } else if i > n {
            assert(t[i] == r[i - 1]);
        }
        if j < n {
            assert(t[j] == r[j]);
        } else if j > n {
            assert(t[j] == r[j - 1]);
        }
    }
    assert(t.to_multiset() == r.to_multiset().insert(x)) by {
        assert(t =~= r.insert(n, x));
        vstd::seq_lib::to_multiset_insert(r, n, x);
    }
    assert forall|k: int| #[trigger]
        with_key(t, axis, k) == if x.key(axis) == k {
            with_key(r, axis, k).push(x)
        } else {
            with_key(r, axis, k)
        } by {
        lemma_with_key_concat(head.push(x), tail, axis, k);
        lemma_with_key_push(head, x, axis, k);
        lemma_with_key_concat(head, tail, axis, k);
        assert(head + tail =~= r);
        if x.key(axis) == k {
            assert forall|i: int| 0 <= i < tail.len() implies (#[trigger] tail[i]).key(axis)
                != k by {
                assert(tail[i] == r[n + i]);
            }
            lemma_with_key_none(tail, axis, k);
            assert(with_key(head, axis, k).push(x) + Seq::<T>::empty() =~= with_key(
                head,
                axis,
                k,
            ).push(x));
            assert(with_key(head, axis, k) + Seq::<T>::empty() =~= with_key(head, axis, k));
        }
    }
}

/// `stable_sort` is a stable sort: it orders the keys, keeps the items and
/// keeps equal keys in the order they had.
pub proof fn lemma_stable_sort<T: Keyed>(s: Seq<T>, axis: int)
    ensures
        is_stable_sort(stable_sort(s, axis), s, axis),
        stable_sort(s, axis).len() == s.len(),
        stable_sort(s, axis).to_multiset() == s.to_multiset(),
    decreases s.len(),
{
    if s.len() == 0 {
        assert(s.to_multiset() =~= stable_sort(s, axis).to_multiset()) by {
            assert(s =~= Seq::<T>::empty());
        }
    } else {
        let q = s.drop_last();
        lemma_stable_sort(q, axis);
        lemma_insert_after_sorted(stable_sort(q, axis), s.last(), axis);
        assert(s.to_multiset() == q.to_multiset().insert(s.last())) by {
            assert(q.push(s.last()) =~= s);
            vstd::seq_lib::to_multiset_build(q, s.last());
        }
    }
}

/// Two sorted sequences that agree, key by key, on the items of that key are
/// equal.
pub proof fn lemma_sorted_same_keys<T: Keyed>(a: Seq<T>, b: Seq<T>, axis: int)
    requires
        sorted_on(a, axis),
        sorted_on(b, axis),
        forall|k: int| #[trigger] with_key(a, axis, k) == with_key(b, axis, k),
    ensures
        a == b,
    decreases a.len(),
{
    if a.len() == 0 {
        if b.len() > 0 {
            let k = b.last().key(axis);
            assert(with_key(b, axis, k).len() > 0);
            assert(with_key(a, axis, k).len() == 0);
        }
        assert(a =~= b);
    } else {
        let x = a.last();
        let k = x.key(axis);
        assert(with_key(a, axis, k) == with_key(a.drop_last(), axis, k).push(x));
        assert(with_key(b, axis, k).len() > 0);
        assert(b.len() > 0);
        let y = b.last();
        let k2 = y.key(axis);
        assert(with_key(b, axis, k2) == with_key(b.drop_last(), axis, k2).push(y));
        assert(with_key(a, axis, k2).len() > 0);
        assert(k2 <= k) by {
            lemma_with_key_items(a, axis, k2);
            let z = with_key(a, axis, k2)[0];
            assert(a.contains(z));
            let i = choose|i: int| 0 <= i < a.len() && a[i] == z;
            assert(a[i].key(axis) <= a[a.len() - 1].key(axis));
        }
        assert(k <= k2) by {
            lemma_with_key_items(b, axis, k);
            let z = with_key(b, axis, k)[0];
            assert(b.contains(z));
            let i = choose|i: int| 0 <= i < b.len() && b[i] == z;
            assert(b[i].key(axis) <= b[b.len() - 1].key(axis));
        }
        let wa = with_key(a.drop_last(), axis, k);
        let wb = with_key(b.drop_last(), axis, k);
        assert(wa.push(x) == wb.push(y));
        assert(x == y) by {
            assert(wa.push(x).last() == x);
            assert(wb.push(y).last() == y);
        }
        assert(wa == wb) by {
            assert(wa.push(x).drop_last() =~= wa);
            assert(wb.push(y).drop_last() =~= wb);
        }
        let p = a.drop_last();
        let q = b.drop_last();
        assert forall|j: int| #[trigger] with_key(p, axis, j) == with_key(q, axis, j) by {
            if j != k {
                assert(with_key(a, axis, j) == with_key(b, axis, j));
            }
        }
        assert(sorted_on(p, axis)) by {
            assert forall|i: int, j: int| 0 <= i <= j < p.len() implies p[i].key(axis) <= p[j].key(
                axis,
            ) by {
                assert(p[i] == a[i] && p[j] == a[j]);
            }
        }
        assert(sorted_on(q, axis)) by {
            assert forall|i: int, j: int| 0 <= i <= j < q.len() implies q[i].key(axis) <= q[j].key(
                axis,
            ) by {
                assert(q[i] == b[i] && q[j] == b[j]);
            }
        }
        lemma_sorted_same_keys(p, q, axis);
        assert(a =~= p.push(x));
        assert(b =~= q.push(y));
    }
}

/// A stable sort has one outcome: whatever is a stable sort of `s` is
/// `stable_sort(s, axis)`.
pub proof fn lemma_stable_sort_unique<T: Keyed>(r: Seq<T>, s: Seq<T>, axis: int)
    requires
        is_stable_sort(r, s, axis),
    ensures
        r == stable_sort(s, axis),
{
    lemma_stable_sort(s, axis);
    let t = stable_sort(s, axis);
    assert forall|k: int| #[trigger] with_key(r, axis, k) == with_key(t, axis, k) by {
        assert(with_key(r, axis, k) == with_key(s, axis, k));
        assert(with_key(t, axis, k) == with_key(s, axis, k));
    }
    lemma_sorted_same_keys(r, t, axis);
}

/// Two sorted sequences of the same items are equal where no two different
/// items share a key.
pub proof fn lemma_sorted_same_items<T: Keyed>(a: Seq<T>, b: Seq<T>, axis: int)
    requires
        sorted_on(a, axis),
        sorted_on(b, axis),
        a.to_multiset() == b.to_multiset(),
        untied(a.to_multiset(), axis),
    ensures
        a == b,
    decreases a.len(),
{
    a.to_multiset_ensures();
    b.to_multiset_ensures();
    if a.len() == 0 {
        assert(a =~= b);
    } else {
        let x = a.last();
        let y = b.last();
        assert(a.contains(x)) by {
            assert(a[a.len() - 1] == x);
        }
        assert(b.contains(y)) by {
            assert(b[b.len() - 1] == y);
        }
        assert(a.to_multiset().count(y) > 0);
        assert(b.to_multiset().count(x) > 0);
        assert(a.contains(y));
        assert(b.contains(x));
        let i = choose|i: int| 0 <= i < a.len() && a[i] == y;
        let j = choose|j: int| 0 <= j < b.len() && b[j] == x;
        assert(a[i].key(axis) <= a[a.len() - 1].key(axis));
        assert(b[j].key(axis) <= b[b.len() - 1].key(axis));
        assert(x == y);
        let p = a.drop_last();
        let q = b.drop_last();
        assert(a =~= p.push(x));
        assert(b =~= q.push(y));
        vstd::seq_lib::to_multiset_build(p, x);
        vstd::seq_lib::to_multiset_build(q, y);
        assert(p.to_multiset() =~= a.to_multiset().remove(x));
        assert(q.to_multiset() =~= b.to_multiset().remove(y));
        assert(untied(p.to_multiset(), axis));
        assert(sorted_on(p, axis)) by {
            assert forall|i: int, j: int| 0 <= i <= j < p.len() implies p[i].key(axis) <= p[j].key(
                axis,
            ) by {
                assert(p[i] == a[i] && p[j] == a[j]);
            }
        }
        assert(sorted_on(q, axis)) by {
            assert forall|i: int, j: int| 0 <= i <= j < q.len() implies q[i].key(axis) <= q[j].key(
                axis,
            ) by {
                assert(q[i] == b[i] && q[j] == b[j]);
            }
        }
        lemma_sorted_same_items(p, q, axis);
    }
}

/// The order of the input does not matter to the sort where no two different
/// items share a key.
pub proof fn lemma_stable_sort_of_same_items<T: Keyed>(a: Seq<T>, b: Seq<T>, axis: int)
    requires
        a.to_multiset() == b.to_multiset(),
        untied(a.to_multiset(), axis),
    ensures
        stable_sort(a, axis) == stable_sort(b, axis),
{
    lemma_stable_sort(a, axis);
    lemma_stable_sort(b, axis);
    lemma_sorted_same_items(stable_sort(a, axis), stable_sort(b, axis), axis);
}

/// Sorts the slice in place along `axis` with `<[T]>::sort_by_key` of the
/// standard library, which is documented as a stable sort. Believed, not
/// proved: afterwards the keys ascend and, for every key value, the items
/// with that key are in the order they had before.
#[verifier::external_body]
pub(crate) fn sort_on<T: Keyed>(items: &mut [T], axis: usize)
    requires
        axis < 2,
    ensures
        is_stable_sort(final(items)@, old(items)@, axis as int),
{
    items.sort_by_key(|item| item.key_at(axis));
}

/// Sorts the slice in place along `axis`, keeping equal keys in order.
pub fn sort_by_axis<T: Keyed>(items: &mut [T], axis: usize)
    requires
        axis < 2,
    ensures
        final(items)@ == stable_sort(old(items)@, axis as int),
{
    sort_on(items, axis);
    proof {
        lemma_stable_sort_unique(items@, old(items)@, axis as int);
    }
}

} // verus!
