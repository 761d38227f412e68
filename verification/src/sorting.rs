use vstd::prelude::*;

verus! {

/// Items that are ordered by an unsigned integer key, such as notes by their start time.
pub trait SortKey {
    spec fn key_of(&self) -> u64;

    fn sort_key(&self) -> (k: u64)
        ensures
            k == self.key_of(),
    ;
}

/// Keys never decrease along the sequence.
pub open spec fn key_sorted<T: SortKey>(s: Seq<T>) -> bool {
    forall|i: int, j: int| 0 <= i <= j < s.len() ==> #[trigger] s[i].key_of() <= #[trigger] s[j].key_of()
}

/// The items of `s` whose key is `k`, in their order in `s`.
pub open spec fn with_key<T: SortKey>(s: Seq<T>, k: u64) -> Seq<T> {
    s.filter(key_is::<T>(k))
}

/// The predicate "carries key `k`".
pub open spec fn key_is<T: SortKey>(k: u64) -> spec_fn(T) -> bool {
    |x: T| x.key_of() == k
}

/// `r` is the stable sort of `s`: sorted by key, and for every key the items carrying it
/// appear in `r` exactly as, and in the same order as, they appear in `s`.
pub open spec fn is_stable_sort_of<T: SortKey>(r: Seq<T>, s: Seq<T>) -> bool {
    &&& key_sorted(r)
    &&& forall|k: u64| #[trigger] with_key(r, k) == with_key(s, k)
}

pub(crate) proof fn lemma_filter_none<T>(s: Seq<T>, pred: spec_fn(T) -> bool)
    requires
        forall|i: int| 0 <= i < s.len() ==> !pred(#[trigger] s[i]),
    ensures
        s.filter(pred) == Seq::<T>::empty(),
    decreases s.len(),
{
    reveal(Seq::filter);
    if s.len() > 0 {
        assert forall|i: int| 0 <= i < s.drop_last().len() implies !pred(#[trigger] s.drop_last()[i]) by {
            assert(s.drop_last()[i] == s[i]);
        }
        lemma_filter_none(s.drop_last(), pred);
        assert(!pred(s[s.len() - 1]));
    }
    assert(s.filter(pred) =~= Seq::<T>::empty());
}

proof fn lemma_insert_keeps_filters<T: SortKey>(r: Seq<T>, p: int, x: T, k: u64)
    requires
        0 <= p <= r.len(),
        forall|j: int| p <= j < r.len() ==> #[trigger] r[j].key_of() > x.key_of(),
    ensures
        with_key(r.insert(p, x), k) == if k == x.key_of() {
            with_key(r, k).push(x)
        } else {
            with_key(r, k)
        },
{
    let pred = key_is::<T>(k);
    let a = r.take(p);
    let b = r.skip(p);
    assert(r.insert(p, x) =~= a + seq![x] + b);
    assert(r =~= a + b);
    Seq::filter_distributes_over_add(a + seq![x], b, pred);
    Seq::filter_distributes_over_add(a, seq![x], pred);
    Seq::filter_distributes_over_add(a, b, pred);
    reveal_with_fuel(Seq::filter, 2);
    assert(seq![x].drop_last() =~= Seq::<T>::empty());
    if k == x.key_of() {
        assert forall|i: int| 0 <= i < b.len() implies !pred(#[trigger] b[i]) by {
            assert(b[i] == r[p + i]);
        }
        lemma_filter_none(b, pred);
        assert(seq![x].filter(pred) =~= seq![x]);
        assert(with_key(r, k) =~= a.filter(pred));
        assert(with_key(r.insert(p, x), k) =~= a.filter(pred) + seq![x]);
    } else {
        assert(seq![x].filter(pred) =~= Seq::<T>::empty());
        assert(with_key(r.insert(p, x), k) =~= a.filter(pred) + b.filter(pred));
    }
}

pub(crate) proof fn lemma_filter_count<T>(s: Seq<T>, pred: spec_fn(T) -> bool, x: T)
    requires
        pred(x),
    ensures
        s.filter(pred).to_multiset().count(x) == s.to_multiset().count(x),
    decreases s.len(),
{
    reveal(Seq::filter);
    if s.len() > 0 {
        let init = s.drop_last();
        let last = s.last();
        lemma_filter_count(init, pred, x);
        assert(s =~= init.push(last));
        init.to_multiset_ensures();
        init.filter(pred).to_multiset_ensures();
    } else {
        s.to_multiset_ensures();
        s.filter(pred).to_multiset_ensures();
        assert(s.filter(pred) =~= s);
    }
}

/// A stable sort is a permutation: sorting neither loses, duplicates nor invents an item.
pub proof fn law_stable_sort_is_permutation<T: SortKey>(r: Seq<T>, s: Seq<T>)
    requires
        is_stable_sort_of(r, s),
    ensures
        r.to_multiset() == s.to_multiset(),
{
    assert forall|x: T| #[trigger] r.to_multiset().count(x) == s.to_multiset().count(x) by {
        let k = x.key_of();
        assert(with_key(r, k) == with_key(s, k));
        lemma_filter_count(r, key_is::<T>(k), x);
        lemma_filter_count(s, key_is::<T>(k), x);
    }
    assert(r.to_multiset() =~= s.to_multiset());
}

proof fn lemma_with_key_last<T: SortKey>(s: Seq<T>, k: u64)
    requires
        s.len() > 0,
    ensures
        s.last().key_of() == k ==> with_key(s, k) == with_key(s.drop_last(), k).push(s.last()),
        s.last().key_of() != k ==> with_key(s, k) == with_key(s.drop_last(), k),
{
    reveal(Seq::filter);
}

proof fn lemma_key_present<T: SortKey>(s: Seq<T>, i: int)
    requires
        0 <= i < s.len(),
    ensures
        with_key(s, s[i].key_of()).len() > 0,
{
    let k = s[i].key_of();
    s.lemma_filter_contains(key_is::<T>(k), i);
}

proof fn lemma_key_absent<T: SortKey>(s: Seq<T>, k: u64)
    requires
        with_key(s, k).len() > 0,
    ensures
        exists|i: int| 0 <= i < s.len() && #[trigger] s[i].key_of() == k,
    decreases s.len(),
{
    reveal(Seq::filter);
    if s.len() > 0 && s.last().key_of() != k {
        lemma_key_absent(s.drop_last(), k);
        let i = choose|i: int| 0 <= i < s.drop_last().len() && #[trigger] s.drop_last()[i].key_of() == k;
        assert(s[i] == s.drop_last()[i]);
    } else if s.len() == 0 {
        assert(with_key(s, k) =~= s);
    }
}

/// A stable sort is unique: two stable sorts of the same sequence are the same sequence.
pub proof fn law_stable_sort_unique<T: SortKey>(r1: Seq<T>, r2: Seq<T>, s: Seq<T>)
    requires
        is_stable_sort_of(r1, s),
        is_stable_sort_of(r2, s),
    ensures
        r1 == r2,
{
    lemma_sorted_with_equal_keys_equal(r1, r2);
}

proof fn lemma_sorted_with_equal_keys_equal<T: SortKey>(r1: Seq<T>, r2: Seq<T>)
    requires
        key_sorted(r1),
        key_sorted(r2),
        forall|k: u64| #[trigger] with_key(r1, k) == with_key(r2, k),
    ensures
        r1 == r2,
    decreases r1.len() + r2.len(),
{
    if r1.len() == 0 && r2.len() == 0 {
        assert(r1 =~= r2);
    } else if r1.len() == 0 {
        lemma_key_present(r2, 0);
        let k = r2[0].key_of();
        assert(with_key(r1, k) =~= r1) by { reveal(Seq::filter); }
    } else if r2.len() == 0 {
        lemma_key_present(r1, 0);
        let k = r1[0].key_of();
        assert(with_key(r2, k) =~= r2) by { reveal(Seq::filter); }
    } else {
        let a = r1.last().key_of();
        let b = r2.last().key_of();
        if a > b {
            lemma_key_present(r1, r1.len() - 1);
            lemma_key_absent(r2, a);
            let i = choose|i: int| 0 <= i < r2.len() && #[trigger] r2[i].key_of() == a;
            assert(r2[i].key_of() <= r2[r2.len() - 1].key_of());
        } else if b > a {
            lemma_key_present(r2, r2.len() - 1);
            lemma_key_absent(r1, b);
            let i = choose|i: int| 0 <= i < r1.len() && #[trigger] r1[i].key_of() == b;
            assert(r1[i].key_of() <= r1[r1.len() - 1].key_of());
        } else {
            lemma_with_key_last(r1, a);
            lemma_with_key_last(r2, a);
            assert(with_key(r1, a) == with_key(r2, a));
            assert(r1.last() == with_key(r1, a).last());
            assert(r2.last() == with_key(r2, a).last());
            let d1 = r1.drop_last();
            let d2 = r2.drop_last();
            assert forall|k: u64| #[trigger] with_key(d1, k) == with_key(d2, k) by {
                lemma_with_key_last(r1, k);
                lemma_with_key_last(r2, k);
                if k == a {
                    assert(with_key(d1, k) =~= with_key(r1, k).drop_last());
                    assert(with_key(d2, k) =~= with_key(r2, k).drop_last());
                }
            }
            assert forall|i: int, j: int| 0 <= i <= j < d1.len() implies #[trigger] d1[i].key_of() <= #[trigger] d1[j].key_of() by {
                assert(d1[i] == r1[i] && d1[j] == r1[j]);
            }
            assert forall|i: int, j: int| 0 <= i <= j < d2.len() implies #[trigger] d2[i].key_of() <= #[trigger] d2[j].key_of() by {
                assert(d2[i] == r2[i] && d2[j] == r2[j]);
            }
            lemma_sorted_with_equal_keys_equal(d1, d2);
            assert(r1 =~= d1.push(r1.last()));
            assert(r2 =~= d2.push(r2.last()));
        }
    }
}

/// The stable sort of `s` (see `law_stable_sort_unique`).
pub open spec fn stable_sorted<T: SortKey>(s: Seq<T>) -> Seq<T> {
    choose|r: Seq<T>| is_stable_sort_of(r, s)
}

/// Where an item with key `k` goes into a sorted sequence: after every item whose key is at
/// most `k`.
pub open spec fn insertion_point<T: SortKey>(r: Seq<T>, k: u64) -> int
    decreases r.len(),
{
    if r.len() == 0 {
        0
    } else if r.last().key_of() <= k {
        r.len() as int
    } else {
        insertion_point(r.drop_last(), k)
    }
}

proof fn lemma_insertion_point<T: SortKey>(r: Seq<T>, k: u64)
    requires
        key_sorted(r),
    ensures
        0 <= insertion_point(r, k) <= r.len(),
        forall|j: int| 0 <= j < insertion_point(r, k) ==> #[trigger] r[j].key_of() <= k,
        forall|j: int| insertion_point(r, k) <= j < r.len() ==> #[trigger] r[j].key_of() > k,
    decreases r.len(),
{
    if r.len() > 0 {
        let init = r.drop_last();
        assert forall|i: int, j: int| 0 <= i <= j < init.len() implies #[trigger] init[i].key_of() <= #[trigger] init[j].key_of() by {
            assert(init[i] == r[i] && init[j] == r[j]);
        }
        lemma_insertion_point(init, k);
        if r.last().key_of() <= k {
            assert forall|j: int| 0 <= j < r.len() implies #[trigger] r[j].key_of() <= k by {
                assert(r[j].key_of() <= r[r.len() - 1].key_of());
            }
        } else {
            assert forall|j: int| 0 <= j < insertion_point(r, k) implies #[trigger] r[j].key_of() <= k by {
                assert(init[j] == r[j]);
            }
            assert forall|j: int| insertion_point(r, k) <= j < r.len() implies #[trigger] r[j].key_of() > k by {
                if j < init.len() {
                    assert(init[j] == r[j]);
                }
            }
        }
    }
}

/// Every sequence has a stable sort, so `stable_sorted` is one.
pub proof fn lemma_stable_sort_exists<T: SortKey>(s: Seq<T>)
    ensures
        is_stable_sort_of(stable_sorted(s), s),
    decreases s.len(),
{
    if s.len() == 0 {
        assert(is_stable_sort_of(s, s));
    } else {
        let init = s.drop_last();
        let x = s.last();
        lemma_stable_sort_exists(init);
        let r0 = stable_sorted(init);
        let p = insertion_point(r0, x.key_of());
        lemma_insertion_point(r0, x.key_of());
        let r = r0.insert(p, x);
        assert(s =~= init.push(x));
        assert forall|k: u64| #[trigger] with_key(r, k) == with_key(s, k) by {
            lemma_insert_keeps_filters(r0, p, x, k);
            init.lemma_filter_push(x, key_is::<T>(k));
        }
        assert forall|a: int, b: int| 0 <= a <= b < r.len() implies #[trigger] r[a].key_of() <= #[trigger] r[b].key_of() by {
            if a < p && b < p {
                assert(r[a] == r0[a] && r[b] == r0[b]);
            } else if a < p && b == p {
                assert(r[a] == r0[a]);
            } else if a < p {
                assert(r[a] == r0[a] && r[b] == r0[b - 1]);
            } else if a == p && b > p {
                assert(r[b] == r0[b - 1]);
            } else if a > p {
                assert(r[a] == r0[a - 1] && r[b] == r0[b - 1]);
            }
        }
        assert(is_stable_sort_of(r, s));
    }
}

/// A sequence already sorted by key is its own stable sort.
pub proof fn lemma_sorted_is_own_stable_sort<T: SortKey>(s: Seq<T>)
    requires
        key_sorted(s),
    ensures
        stable_sorted(s) == s,
{
    assert(is_stable_sort_of(s, s));
    let r = stable_sorted(s);
    assert(is_stable_sort_of(r, s));
    law_stable_sort_unique(r, s, s);
}

/// Sorts by key, keeping items with equal keys in the order they had.
pub fn stable_sort_by_key<T: SortKey + Copy>(v: &Vec<T>) -> (r: Vec<T>)
    ensures
        is_stable_sort_of(r@, v@),
        r@ == stable_sorted(v@),
{
    let mut r: Vec<T> = Vec::new();
    let n = v.len();
    for i in 0..n
        invariant
            n == v.len(),
            key_sorted(r@),
            forall|k: u64| #[trigger] with_key(r@, k) == with_key(v@.take(i as int), k),
    {
        let x = v[i];
        let kx = x.sort_key();
        let mut p: usize = 0;
        while p < r.len() && r[p].sort_key() <= kx
            invariant
                p <= r.len(),
                key_sorted(r@),
                forall|j: int| 0 <= j < p ==> #[trigger] r@[j].key_of() <= kx,
            decreases r.len() - p,
        {
            p = p + 1;
        }
        let ghost old_r = r@;
        proof {
            assert forall|j: int| p <= j < old_r.len() implies #[trigger] old_r[j].key_of() > x.key_of() by {
                assert(old_r[p as int].key_of() > kx);
                assert(old_r[p as int].key_of() <= old_r[j].key_of());
            }
        }
        r.insert(p, x);
        proof {
            assert(v@.take(i + 1) =~= v@.take(i as int).push(x));
            assert forall|k: u64| #[trigger] with_key(r@, k) == with_key(v@.take(i + 1), k) by {
                lemma_insert_keeps_filters(old_r, p as int, x, k);
                v@.take(i as int).lemma_filter_push(x, key_is::<T>(k));
            }
            assert forall|a: int, b: int| 0 <= a <= b < r@.len() implies #[trigger] r@[a].key_of() <= #[trigger] r@[b].key_of() by {
                if a < p && b < p {
                    assert(r@[a] == old_r[a] && r@[b] == old_r[b]);
                } else if a < p && b == p {
                    assert(r@[a] == old_r[a]);
                } else if a < p {
                    assert(r@[a] == old_r[a] && r@[b] == old_r[b - 1]);
                } else if a == p && b > p {
                    assert(r@[b] == old_r[b - 1]);
                } else if a > p {
                    assert(r@[a] == old_r[a - 1] && r@[b] == old_r[b - 1]);
                }
            }
        }
    }
    proof {
        assert(v@.take(n as int) =~= v@);
        assert(is_stable_sort_of(r@, v@));
        law_stable_sort_unique(r@, stable_sorted(v@), v@);
    }
    r
}

} // verus!
