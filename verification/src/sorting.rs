//! Sorting by keys that are totally preordered.

use vstd::prelude::*;

verus! {

/// A key with a total preorder: `le` is total and transitive.
pub trait SortKey: Sized {
    /// `self` may come before `other`.
    spec fn key_le(&self, other: &Self) -> bool;

    proof fn lemma_key_total(a: &Self, b: &Self)
        ensures
            a.key_le(b) || b.key_le(a),
    ;

    proof fn lemma_key_transitive(a: &Self, b: &Self, c: &Self)
        requires
            a.key_le(b),
            b.key_le(c),
        ensures
            a.key_le(c),
    ;

    /// Whether `self` may come before `other`.
    fn le(&self, other: &Self) -> (r: bool)
        ensures
            r == self.key_le(other),
    ;
}

/// `idx` lists indices into `keys` whose keys never decrease.
pub open spec fn sorted_by<K: SortKey>(keys: Seq<K>, idx: Seq<usize>) -> bool {
    forall|i: int, j: int|
        #![trigger idx[i], idx[j]]
        0 <= i < j < idx.len() ==> keys[idx[i] as int].key_le(&keys[idx[j] as int])
}

/// `idx` holds each index `lo <= x < hi` once, and nothing else.
pub open spec fn is_range_permutation(idx: Seq<usize>, lo: int, hi: int) -> bool {
    &&& idx.len() == hi - lo
    &&& idx.no_duplicates()
    &&& forall|x: usize| idx.contains(x) <==> lo <= x < hi
}

/// Merges two sorted index lists with no index in common.
fn merge<K: SortKey>(keys: &Vec<K>, a: &Vec<usize>, b: &Vec<usize>) -> (out: Vec<usize>)
    requires
        forall|i: int| 0 <= i < a@.len() ==> a@[i] < keys@.len(),
        forall|i: int| 0 <= i < b@.len() ==> b@[i] < keys@.len(),
        sorted_by(keys@, a@),
        sorted_by(keys@, b@),
        a@.no_duplicates(),
        b@.no_duplicates(),
        forall|x: usize| a@.contains(x) ==> !b@.contains(x),
        a@.len() + b@.len() <= usize::MAX,
    ensures
        out@.len() == a@.len() + b@.len(),
        out@.no_duplicates(),
        forall|x: usize| out@.contains(x) <==> (a@.contains(x) || b@.contains(x)),
        sorted_by(keys@, out@),
{
    let mut out: Vec<usize> = Vec::new();
    let mut i: usize = 0;
    let mut j: usize = 0;
    while i < a.len() || j < b.len()
        invariant
            i <= a@.len(),
            j <= b@.len(),
            out@.len() == i + j,
            forall|k: int| 0 <= k < a@.len() ==> a@[k] < keys@.len(),
            forall|k: int| 0 <= k < b@.len() ==> b@[k] < keys@.len(),
            sorted_by(keys@, a@),
            sorted_by(keys@, b@),
            a@.no_duplicates(),
            b@.no_duplicates(),
            forall|x: usize| a@.contains(x) ==> !b@.contains(x),
            out@.no_duplicates(),
            forall|x: usize| out@.contains(x) <==> (a@.subrange(0, i as int).contains(x)
                || b@.subrange(0, j as int).contains(x)),
            sorted_by(keys@, out@),
            forall|p: int, q: int| #![trigger out@[p], a@[q]] 0 <= p < out@.len() && i <= q < a@.len()
                ==> keys@[out@[p] as int].key_le(&keys@[a@[q] as int]),
            forall|p: int, q: int| #![trigger out@[p], b@[q]] 0 <= p < out@.len() && j <= q < b@.len()
                ==> keys@[out@[p] as int].key_le(&keys@[b@[q] as int]),
        decreases a@.len() + b@.len() - i - j,
    {
        let take_a = if i < a.len() && j < b.len() {
            keys[a[i]].le(&keys[b[j]])
        } else {
            i < a.len()
        };
        let ghost prev = out@;
        let x = if take_a { a[i] } else { b[j] };
        proof {
            if take_a {
                assert forall|q: int| i <= q < a@.len() implies keys@[x as int].key_le(&keys@[a@[q] as int]) by {
                    if q > i {
                        assert(keys@[a@[i as int] as int].key_le(&keys@[a@[q] as int]));
                    } else {
                        K::lemma_key_total(&keys@[x as int], &keys@[x as int]);
                    }
                }
                assert forall|q: int| j <= q < b@.len() implies keys@[x as int].key_le(&keys@[b@[q] as int]) by {
                    if q > j {
                        assert(keys@[b@[j as int] as int].key_le(&keys@[b@[q] as int]));
                        K::lemma_key_transitive(&keys@[x as int], &keys@[b@[j as int] as int], &keys@[b@[q] as int]);
                    }
                }
                assert(a@.contains(x));
                assert(!a@.subrange(0, i as int).contains(x)) by {
                    if a@.subrange(0, i as int).contains(x) {
                        let k = choose|k: int| 0 <= k < i && a@.subrange(0, i as int)[k] == x;
                        assert(a@[k] == a@[i as int]);
                    }
                }
                assert(!b@.subrange(0, j as int).contains(x)) by {
                    if b@.subrange(0, j as int).contains(x) {
                        let k = choose|k: int| 0 <= k < j && b@.subrange(0, j as int)[k] == x;
                        assert(b@.contains(b@[k]));
                    }
                }
                assert(a@.subrange(0, i + 1) == a@.subrange(0, i as int).push(x));
            } else {
                if i < a@.len() {
                    K::lemma_key_total(&keys@[a@[i as int] as int], &keys@[x as int]);
                }
                assert forall|q: int| j <= q < b@.len() implies keys@[x as int].key_le(&keys@[b@[q] as int]) by {
                    if q > j {
                        assert(keys@[b@[j as int] as int].key_le(&keys@[b@[q] as int]));
                    } else {
                        K::lemma_key_total(&keys@[x as int], &keys@[x as int]);
                    }
                }
                assert forall|q: int| i <= q < a@.len() implies keys@[x as int].key_le(&keys@[a@[q] as int]) by {
                    if q > i {
                        assert(keys@[a@[i as int] as int].key_le(&keys@[a@[q] as int]));
                        K::lemma_key_transitive(&keys@[x as int], &keys@[a@[i as int] as int], &keys@[a@[q] as int]);
                    }
                }
                assert(b@.contains(x));
                assert(!b@.subrange(0, j as int).contains(x)) by {
                    if b@.subrange(0, j as int).contains(x) {
                        let k = choose|k: int| 0 <= k < j && b@.subrange(0, j as int)[k] == x;
                        assert(b@[k] == b@[j as int]);
                    }
                }
                assert(!a@.subrange(0, i as int).contains(x)) by {
                    if a@.subrange(0, i as int).contains(x) {
                        let k = choose|k: int| 0 <= k < i && a@.subrange(0, i as int)[k] == x;
                        assert(a@.contains(a@[k]));
                    }
                }
                assert(b@.subrange(0, j + 1) == b@.subrange(0, j as int).push(x));
            }
            assert(!prev.contains(x));
        }
        out.push(x);
        if take_a {
            i = i + 1;
        } else {
            j = j + 1;
        }
        proof {
            broadcast use vstd::seq_lib::lemma_seq_contains_after_push;
            assert(out@ == prev.push(x));
            assert forall|p: int, q: int| #![trigger out@[p], out@[q]] 0 <= p < q < out@.len() implies
                keys@[out@[p] as int].key_le(&keys@[out@[q] as int]) by {
                if q < prev.len() {
                    assert(keys@[prev[p] as int].key_le(&keys@[prev[q] as int]));
                }
            }
            assert(out@.no_duplicates()) by {
                assert forall|p: int, q: int| 0 <= p < out@.len() && 0 <= q < out@.len() && p != q
                    implies out@[p] != out@[q] by {
                    if q == prev.len() {
                        assert(prev.contains(prev[p]));
                    } else if p == prev.len() {
                        assert(prev.contains(prev[q]));
                    }
                }
            }
        }
    }
    proof {
        assert(a@.subrange(0, i as int) == a@);
        assert(b@.subrange(0, j as int) == b@);
    }
    out
}

/// The indices `lo..hi` of `keys`, ordered by key.
fn sort_range<K: SortKey>(keys: &Vec<K>, lo: usize, hi: usize) -> (out: Vec<usize>)
    requires
        lo <= hi <= keys@.len(),
    ensures
        is_range_permutation(out@, lo as int, hi as int),
        sorted_by(keys@, out@),
    decreases hi - lo,
{
    if hi - lo <= 1 {
        let mut out: Vec<usize> = Vec::new();
        if hi > lo {
            out.push(lo);
        }
        proof {
            assert forall|x: usize| out@.contains(x) <==> lo <= x < hi by {
                if out@.contains(x) {
                    let k = choose|k: int| 0 <= k < out@.len() && out@[k] == x;
                }
                if lo <= x < hi {
                    assert(out@[0] == x);
                }
            }
        }
        return out;
    }
    let mid = lo + (hi - lo) / 2;
    let a = sort_range(keys, lo, mid);
    let b = sort_range(keys, mid, hi);
    proof {
        assert forall|i: int| 0 <= i < a@.len() implies a@[i] < keys@.len() by {
            assert(a@.contains(a@[i]));
        }
        assert forall|i: int| 0 <= i < b@.len() implies b@[i] < keys@.len() by {
            assert(b@.contains(b@[i]));
        }
    }
    merge(keys, &a, &b)
}

/// The indices of `keys`, ordered by key: each index appears once.
pub fn sorted_order<K: SortKey>(keys: &Vec<K>) -> (out: Vec<usize>)
    ensures
        is_range_permutation(out@, 0, keys@.len() as int),
        sorted_by(keys@, out@),
{
    sort_range(keys, 0, keys.len())
}

/// `a` and `b` may come in either order: they are in the same class.
pub open spec fn key_equiv<K: SortKey>(a: K, b: K) -> bool {
    a.key_le(&b) && b.key_le(&a)
}

/// `c` lists, once each, exactly the indices whose key is in the class of
/// the key of `c[0]`.
pub open spec fn is_class_of<K: SortKey>(keys: Seq<K>, c: Seq<usize>) -> bool {
    &&& c.len() > 0
    &&& c.no_duplicates()
    &&& c[0] < keys.len()
    &&& forall|x: usize| #[trigger] c.contains(x) <==> (x < keys.len() && key_equiv(keys[x as int], keys[c[0] as int]))
}

/// In a sorted order, the positions whose keys are in the class of the key at
/// `s` form the run `s..e` when the run cannot be extended at either end.
proof fn lemma_run_is_class<K: SortKey>(keys: Seq<K>, order: Seq<usize>, s: int, e: int, p: int)
    requires
        is_range_permutation(order, 0, keys.len() as int),
        sorted_by(keys, order),
        0 <= s < e <= order.len(),
        s == 0 || !key_equiv(keys[order[s - 1] as int], keys[order[s] as int]),
        e == order.len() || !key_equiv(keys[order[e] as int], keys[order[s] as int]),
        0 <= p < order.len(),
        key_equiv(keys[order[p] as int], keys[order[s] as int]),
    ensures
        s <= p < e,
{
    let ks = keys[order[s] as int];
    let kp = keys[order[p] as int];
    if p < s {
        let kb = keys[order[s - 1] as int];
        if p < s - 1 {
            assert(kp.key_le(&kb));
        } else {
            K::lemma_key_total(&kp, &kp);
        }
        assert(kb.key_le(&ks));
        K::lemma_key_transitive(&ks, &kp, &kb);
    } else if p >= e {
        let ke = keys[order[e] as int];
        if p > e {
            assert(ke.key_le(&kp));
        } else {
            K::lemma_key_total(&kp, &kp);
        }
        assert(ks.key_le(&ke));
        K::lemma_key_transitive(&ke, &kp, &ks);
    }
}

pub proof fn lemma_equiv_transitive<K: SortKey>(a: K, b: K, c: K)
    requires
        key_equiv(a, b),
        key_equiv(b, c),
    ensures
        key_equiv(a, c),
{
    K::lemma_key_transitive(&a, &b, &c);
    K::lemma_key_transitive(&c, &b, &a);
}

/// Some class lists `x`.
pub open spec fn in_some_class(classes: Seq<Vec<usize>>, x: usize) -> bool {
    exists|j: int| 0 <= j < classes.len() && #[trigger] classes[j]@.contains(x)
}

/// Whether `a` and `b` are in the same class.
pub fn equiv<K: SortKey>(a: &K, b: &K) -> (r: bool)
    ensures
        r == key_equiv(*a, *b),
{
    a.le(b) && b.le(a)
}

/// The indices of `keys`, split into classes of keys that may come in either
/// order; classes come in key order.
pub fn key_classes<K: SortKey>(keys: &Vec<K>) -> (classes: Vec<Vec<usize>>)
    ensures
        forall|j: int| 0 <= j < classes@.len() ==> is_class_of(keys@, #[trigger] classes@[j]@),
        forall|x: usize| x < keys@.len() ==> #[trigger] in_some_class(classes@, x),
        forall|j1: int, j2: int| 0 <= j1 < classes@.len() && 0 <= j2 < classes@.len() && j1 != j2
            ==> !key_equiv(keys@[classes@[j1]@[0] as int], keys@[classes@[j2]@[0] as int]),
{
    let order = sorted_order(keys);
    let ghost ks = keys@;
    let ghost o = order@;
    let n = order.len();
    let mut classes: Vec<Vec<usize>> = Vec::new();
    let ghost mut starts: Seq<int> = Seq::empty();
    proof {
        assert forall|t: int| 0 <= t < n implies #[trigger] o[t] < n by {
            assert(o.contains(o[t]));
        }
    }
    let mut s: usize = 0;
    while s < n
        invariant
            ks == keys@,
            o == order@,
            n == o.len(),
            n == ks.len(),
            is_range_permutation(o, 0, n as int),
            forall|t: int| 0 <= t < n ==> #[trigger] o[t] < n,
            sorted_by(ks, o),
            s <= n,
            s < n && s > 0 ==> !key_equiv(ks[o[s - 1] as int], ks[o[s as int] as int]),
            starts.len() == classes@.len(),
            forall|j: int| 0 <= j < classes@.len() ==> 0 <= #[trigger] starts[j] < s,
            forall|j: int| 0 <= j < classes@.len() ==> classes@[j]@[0] == o[starts[j]],
            forall|j: int| 0 <= j < classes@.len() ==> is_class_of(ks, #[trigger] classes@[j]@),
            forall|p: int| 0 <= p < s ==> #[trigger] in_some_class(classes@, o[p]),
            forall|j: int, p: int| #![trigger classes@[j], o[p]] 0 <= j < classes@.len() && s <= p < n
                ==> !key_equiv(ks[o[p] as int], ks[classes@[j]@[0] as int]),
            forall|j1: int, j2: int| 0 <= j1 < classes@.len() && 0 <= j2 < classes@.len() && j1 != j2
                ==> !key_equiv(ks[classes@[j1]@[0] as int], ks[classes@[j2]@[0] as int]),
        decreases n - s,
    {
        proof {
            assert(o.contains(o[s as int]));
        }
        let mut e: usize = s + 1;
        proof {
            K::lemma_key_total(&ks[o[s as int] as int], &ks[o[s as int] as int]);
        }
        while e < n && equiv(&keys[order[e]], &keys[order[s]])
            invariant
                ks == keys@,
                o == order@,
                n == o.len(),
                n == ks.len(),
                s < e <= n,
                is_range_permutation(o, 0, n as int),
                forall|t: int| 0 <= t < n ==> #[trigger] o[t] < n,
                forall|t: int| s <= t < e ==> key_equiv(#[trigger] ks[o[t] as int], ks[o[s as int] as int]),
            decreases n - e,
        {
            proof {
                assert(o.contains(o[e as int]));
            }
            e = e + 1;
        }
        let mut class: Vec<usize> = Vec::new();
        let mut t: usize = s;
        while t < e
            invariant
                o == order@,
                s <= t <= e <= n,
                n == o.len(),
                class@ == o.subrange(s as int, t as int),
            decreases e - t,
        {
            class.push(order[t]);
            t = t + 1;
        }
        proof {
            let c = class@;
            assert(c[0] == o[s as int]);
            assert(c.no_duplicates()) by {
                assert forall|a: int, b: int| 0 <= a < c.len() && 0 <= b < c.len() && a != b implies c[a] != c[b] by {
                    assert(c[a] == o[s + a]);
                    assert(c[b] == o[s + b]);
                }
            }
            assert forall|x: usize| #[trigger] c.contains(x) <==> (x < ks.len() && key_equiv(ks[x as int], ks[c[0] as int])) by {
                if c.contains(x) {
                    let a = choose|a: int| 0 <= a < c.len() && c[a] == x;
                    assert(c[a] == o[s + a]);
                    assert(o.contains(x));
                }
                if x < ks.len() && key_equiv(ks[x as int], ks[c[0] as int]) {
                    assert(o.contains(x));
                    let p = choose|p: int| 0 <= p < o.len() && o[p] == x;
                    lemma_run_is_class(ks, o, s as int, e as int, p);
                    assert(c[p - s] == x);
                }
            }
            assert forall|p: int| e <= p < n implies !key_equiv(ks[o[p] as int], ks[c[0] as int]) by {
                if key_equiv(ks[o[p] as int], ks[c[0] as int]) {
                    lemma_run_is_class(ks, o, s as int, e as int, p);
                }
            }
            assert forall|j: int, p: int| #![trigger classes@[j], o[p]] 0 <= j < classes@.len() && e <= p < n
                implies !key_equiv(ks[o[p] as int], ks[classes@[j]@[0] as int]) by {}
            assert forall|j: int| 0 <= j < classes@.len() implies !key_equiv(ks[c[0] as int], ks[classes@[j]@[0] as int]) by {
                if key_equiv(ks[c[0] as int], ks[classes@[j]@[0] as int]) {
                    assert(key_equiv(ks[o[s as int] as int], ks[classes@[j]@[0] as int]));
                }
            }
            if e < n {
                assert(!key_equiv(ks[o[e as int] as int], ks[o[s as int] as int]));
                if key_equiv(ks[o[e - 1] as int], ks[o[e as int] as int]) {
                    lemma_equiv_transitive(ks[o[e as int] as int], ks[o[e - 1] as int], ks[o[s as int] as int]);
                }
            }
        }
        let ghost prev = classes@;
        classes.push(class);
        proof {
            starts = starts.push(s as int);
            assert forall|j1: int, j2: int| 0 <= j1 < classes@.len() && 0 <= j2 < classes@.len() && j1 != j2
                implies !key_equiv(ks[classes@[j1]@[0] as int], ks[classes@[j2]@[0] as int]) by {
                if j1 == prev.len() || j2 == prev.len() {
                    if key_equiv(ks[classes@[j1]@[0] as int], ks[classes@[j2]@[0] as int]) {
                        let a = classes@[j1]@[0];
                        let b = classes@[j2]@[0];
                        K::lemma_key_transitive(&ks[a as int], &ks[b as int], &ks[a as int]);
                    }
                } else {
                    assert(classes@[j1] == prev[j1]);
                    assert(classes@[j2] == prev[j2]);
                }
            }
            assert forall|p: int| 0 <= p < e implies #[trigger] in_some_class(classes@, o[p]) by {
                if p >= s {
                    assert(classes@[prev.len() as int]@[p - s] == o[p]);
                    assert(classes@[prev.len() as int]@.contains(o[p]));
                } else {
                    assert(in_some_class(prev, o[p]));
                    let j = choose|j: int| 0 <= j < prev.len() && #[trigger] prev[j]@.contains(o[p]);
                    assert(classes@[j] == prev[j]);
                }
            }
        }
        s = e;
    }
    proof {
        assert forall|x: usize| x < ks.len() implies #[trigger] in_some_class(classes@, x) by {
            assert(o.contains(x));
            let p = choose|p: int| 0 <= p < o.len() && o[p] == x;
            assert(in_some_class(classes@, o[p]));
        }
    }
    classes
}

/// Another index has a key in the class of the key of `x`.
pub open spec fn has_equiv<K: SortKey>(keys: Seq<K>, x: int) -> bool {
    exists|y: int| 0 <= y < keys.len() && y != x && #[trigger] key_equiv(keys[x], keys[y])
}

pub proof fn lemma_equiv_symmetric<K: SortKey>(a: K, b: K)
    requires
        key_equiv(a, b),
    ensures
        key_equiv(b, a),
{
}

/// In a class, an index shares its class with another index exactly when
/// the class has more than one index.
pub proof fn lemma_class_shared<K: SortKey>(keys: Seq<K>, c: Seq<usize>, x: usize)
    requires
        is_class_of(keys, c),
        c.contains(x),
        keys.len() <= usize::MAX,
    ensures
        has_equiv(keys, x as int) <==> c.len() >= 2,
{
    let c0 = keys[c[0] as int];
    if c.len() >= 2 {
        let y = if c[0] != x { c[0] } else { c[1] };
        assert(c.contains(c[1]));
        assert(c.contains(y));
        assert(y != x);
        lemma_equiv_symmetric(keys[y as int], c0);
        lemma_equiv_transitive(keys[x as int], c0, keys[y as int]);
        assert(key_equiv(keys[x as int], keys[y as int]));
    }
    if has_equiv(keys, x as int) {
        let y = choose|y: int| 0 <= y < keys.len() && y != x && #[trigger] key_equiv(keys[x as int], keys[y]);
        lemma_equiv_symmetric(keys[x as int], keys[y]);
        lemma_equiv_transitive(keys[y], keys[x as int], c0);
        let yu = y as usize;
        assert(yu as int == y);
        assert(c.contains(yu));
        if c.len() < 2 {
            let a = choose|a: int| 0 <= a < c.len() && c[a] == x;
            let b = choose|b: int| 0 <= b < c.len() && c[b] == y as usize;
        }
    }
}

/// Whether each index shares the class of its key with another index.
pub fn shared_flags<K: SortKey>(keys: &Vec<K>) -> (flags: Vec<bool>)
    ensures
        flags@.len() == keys@.len(),
        forall|x: int| 0 <= x < keys@.len() ==> (#[trigger] flags@[x] <==> has_equiv(keys@, x)),
{
    let classes = key_classes(keys);
    let n = keys.len();
    let mut flags: Vec<bool> = Vec::new();
    let mut i: usize = 0;
    while i < n
        invariant
            i <= n,
            n == keys@.len(),
            flags@.len() == i,
            forall|x: int| 0 <= x < i ==> !(#[trigger] flags@[x]),
        decreases n - i,
    {
        flags.push(false);
        i = i + 1;
    }
    let mut j: usize = 0;
    while j < classes.len()
        invariant
            j <= classes@.len(),
            n == keys@.len(),
            flags@.len() == n,
            forall|k: int| 0 <= k < classes@.len() ==> is_class_of(keys@, #[trigger] classes@[k]@),
            forall|x: int| 0 <= x < n ==> (#[trigger] flags@[x] <==> exists|k: int|
                0 <= k < j && #[trigger] classes@[k]@.contains(x as usize) && classes@[k]@.len() >= 2),
        decreases classes@.len() - j,
    {
        let c = &classes[j];
        if c.len() >= 2 {
            let mut t: usize = 0;
            while t < c.len()
                invariant
                    j < classes@.len(),
                    c@ == classes@[j as int]@,
                    c@.len() >= 2,
                    t <= c@.len(),
                    n == keys@.len(),
                    flags@.len() == n,
                    is_class_of(keys@, c@),
                    forall|x: int| 0 <= x < n ==> (#[trigger] flags@[x] <==> (exists|k: int|
                        0 <= k < j && #[trigger] classes@[k]@.contains(x as usize) && classes@[k]@.len() >= 2)
                        || c@.take(t as int).contains(x as usize)),
                decreases c@.len() - t,
            {
                let x = c[t];
                proof {
                    assert(c@.contains(x));
                }
                let ghost before = flags@;
                flags.set(x, true);
                t = t + 1;
                proof {
                    broadcast use vstd::seq_lib::lemma_seq_contains_after_push;
                    assert(flags@ == before.update(x as int, true));
                    assert forall|y: int| 0 <= y < n implies (#[trigger] flags@[y] <==> (exists|k: int|
                        0 <= k < j && #[trigger] classes@[k]@.contains(y as usize) && classes@[k]@.len() >= 2)
                        || c@.take(t as int).contains(y as usize)) by {
                        assert(c@.take(t as int) == c@.take(t - 1).push(x));
                    }
                }
            }
            proof {
                assert(c@.take(c@.len() as int) =~= c@);
            }
        }
        j = j + 1;
        proof {
            assert forall|x: int| 0 <= x < n implies (#[trigger] flags@[x] <==> exists|k: int|
                0 <= k < j && #[trigger] classes@[k]@.contains(x as usize) && classes@[k]@.len() >= 2) by {
                if flags@[x] && !(exists|k: int| 0 <= k < j - 1 && #[trigger] classes@[k]@.contains(x as usize)
                    && classes@[k]@.len() >= 2) {
                    assert(classes@[j - 1]@.contains(x as usize));
                }
            }
        }
    }
    proof {
        assert forall|x: int| 0 <= x < keys@.len() implies (#[trigger] flags@[x] <==> has_equiv(keys@, x)) by {
            assert(in_some_class(classes@, x as usize));
            let k = choose|k: int| 0 <= k < classes@.len() && #[trigger] classes@[k]@.contains(x as usize);
            assert(keys@.len() == keys.len());
            lemma_class_shared(keys@, classes@[k]@, x as usize);
            if flags@[x] {
                let k2 = choose|k2: int| 0 <= k2 < classes@.len() && #[trigger] classes@[k2]@.contains(x as usize)
                    && classes@[k2]@.len() >= 2;
                lemma_class_shared(keys@, classes@[k2]@, x as usize);
            }
        }
    }
    flags
}

} // verus!
