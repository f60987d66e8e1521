//! Association lists that are kept sorted by key and hold each key once.
use vstd::prelude::*;

use crate::text::{
    is_before, lemma_text_order, lemma_text_order_transitive, same_text, text_before,
};

verus! {

/// A key with a strict total order on its view.
pub trait OrderedKey: View + Sized {
    /// `a` stands before `b`.
    spec fn before(a: Self::V, b: Self::V) -> bool;

    /// The order is strict and total.
    proof fn order_is_total(a: Self::V, b: Self::V)
        ensures
            !Self::before(a, a),
            Self::before(a, b) ==> !Self::before(b, a),
            a == b || Self::before(a, b) || Self::before(b, a),
    ;

    /// The order is transitive.
    proof fn order_is_transitive(a: Self::V, b: Self::V, c: Self::V)
        requires
            Self::before(a, b),
            Self::before(b, c),
        ensures
            Self::before(a, c),
    ;

    /// Whether `self` stands before `other`.
    fn comes_before(&self, other: &Self) -> (r: bool)
        ensures
            r == Self::before(self@, other@),
    ;

    /// Whether the two keys are the same.
    fn same_key(&self, other: &Self) -> (r: bool)
        ensures
            r == (self@ == other@),
    ;
}

impl OrderedKey for String {
    open spec fn before(a: Seq<char>, b: Seq<char>) -> bool {
        text_before(a, b)
    }

    proof fn order_is_total(a: Seq<char>, b: Seq<char>) {
        lemma_text_order(a, b);
    }

    proof fn order_is_transitive(a: Seq<char>, b: Seq<char>, c: Seq<char>) {
        lemma_text_order_transitive(a, b, c);
    }

    fn comes_before(&self, other: &Self) -> (r: bool) {
        is_before(self.as_str(), other.as_str())
    }

    fn same_key(&self, other: &Self) -> (r: bool) {
        same_text(self.as_str(), other.as_str())
    }
}

/// The entries with the view of each key.
pub open spec fn entries<K: OrderedKey, V>(m: Seq<(K, V)>) -> Seq<(K::V, V)> {
    m.map_values(|e: (K, V)| (e.0@, e.1))
}

/// The keys stand in strictly increasing order.
pub open spec fn sorted<K: OrderedKey, V>(m: Seq<(K::V, V)>) -> bool {
    forall|i: int, j: int| 0 <= i < j < m.len() ==> K::before(#[trigger] m[i].0, #[trigger] m[j].0)
}

/// The number of keys that stand before `k` at the front of `m`.
pub open spec fn rank<K: OrderedKey, V>(m: Seq<(K::V, V)>, k: K::V) -> int
    decreases m.len(),
{
    if m.len() == 0 || !K::before(m[0].0, k) {
        0
    } else {
        1 + rank::<K, V>(m.skip(1), k)
    }
}

/// `m` holds the key `k`.
pub open spec fn has<K: OrderedKey, V>(m: Seq<(K::V, V)>, k: K::V) -> bool {
    exists|i: int| 0 <= i < m.len() && #[trigger] m[i].0 == k
}

/// The value that `m` holds for `k`.
pub open spec fn lookup<K: OrderedKey, V>(m: Seq<(K::V, V)>, k: K::V) -> Option<V> {
    let i = rank::<K, V>(m, k);
    if 0 <= i < m.len() && m[i].0 == k {
        Some(m[i].1)
    } else {
        None
    }
}

/// `m` with `v` as the value of `k`, and every other entry as it was.
pub open spec fn with<K: OrderedKey, V>(m: Seq<(K::V, V)>, k: K::V, v: V) -> Seq<(K::V, V)> {
    let i = rank::<K, V>(m, k);
    if 0 <= i < m.len() && m[i].0 == k {
        m.update(i, (k, v))
    } else {
        m.insert(i, (k, v))
    }
}

/// `rank` counts the keys before `k`.
pub proof fn lemma_rank<K: OrderedKey, V>(m: Seq<(K::V, V)>, k: K::V)
    ensures
        0 <= rank::<K, V>(m, k) <= m.len(),
        forall|i: int| 0 <= i < rank::<K, V>(m, k) ==> K::before(#[trigger] m[i].0, k),
        rank::<K, V>(m, k) < m.len() ==> !K::before(m[rank::<K, V>(m, k)].0, k),
    decreases m.len(),
{
    if m.len() != 0 && K::before(m[0].0, k) {
        lemma_rank::<K, V>(m.skip(1), k);
        assert forall|i: int| 0 <= i < rank::<K, V>(m, k) implies K::before(
            #[trigger] m[i].0,
            k,
        ) by {
            if i > 0 {
                assert(m.skip(1)[i - 1] == m[i]);
            }
        }
    }
}

/// What `rank` says of a sorted list: keys from there on are not before `k`, and a key that is
/// present stands there.
pub proof fn lemma_rank_sorted<K: OrderedKey, V>(m: Seq<(K::V, V)>, k: K::V)
    requires
        sorted::<K, V>(m),
    ensures
        forall|i: int|
            rank::<K, V>(m, k) <= i < m.len() ==> !K::before(#[trigger] m[i].0, k),
        forall|i: int|
            rank::<K, V>(m, k) < i < m.len() ==> K::before(k, #[trigger] m[i].0),
        forall|i: int|
            0 <= i < m.len() && #[trigger] m[i].0 == k ==> i == rank::<K, V>(m, k),
{
    lemma_rank::<K, V>(m, k);
    let r = rank::<K, V>(m, k);
    assert forall|i: int| r <= i < m.len() implies !K::before(#[trigger] m[i].0, k) by {
        if i > r && K::before(m[i].0, k) {
            assert(K::before(m[r].0, m[i].0));
            K::order_is_transitive(m[r].0, m[i].0, k);
        }
    }
    assert forall|i: int| r < i < m.len() implies K::before(k, #[trigger] m[i].0) by {
        assert(K::before(m[r].0, m[i].0));
        K::order_is_total(m[r].0, k);
        if K::before(k, m[r].0) {
            K::order_is_transitive(k, m[r].0, m[i].0);
        }
    }
    assert forall|i: int| 0 <= i < m.len() && #[trigger] m[i].0 == k implies i == r by {
        K::order_is_total(k, k);
    }
}

/// A position with only smaller keys before it and no smaller key at it is the rank.
pub proof fn lemma_rank_is<K: OrderedKey, V>(m: Seq<(K::V, V)>, k: K::V, n: int)
    requires
        0 <= n <= m.len(),
        forall|i: int| 0 <= i < n ==> K::before(#[trigger] m[i].0, k),
        n < m.len() ==> !K::before(m[n].0, k),
    ensures
        rank::<K, V>(m, k) == n,
{
    lemma_rank::<K, V>(m, k);
    let r = rank::<K, V>(m, k);
    if r < n {
        assert(K::before(m[r].0, k));
    }
    if n < r {
        assert(K::before(m[n].0, k));
    }
}

/// Storing a value keeps the list sorted, makes the value the one that is found under its key,
/// and leaves what is found under every other key.
pub proof fn lemma_with<K: OrderedKey, V>(m: Seq<(K::V, V)>, k: K::V, v: V)
    requires
        sorted::<K, V>(m),
    ensures
        sorted::<K, V>(with::<K, V>(m, k, v)),
        lookup::<K, V>(with::<K, V>(m, k, v), k) == Some(v),
        forall|q: K::V|
            q != k ==> #[trigger] lookup::<K, V>(with::<K, V>(m, k, v), q) == lookup::<K, V>(m, q),
{
    lemma_rank::<K, V>(m, k);
    lemma_rank_sorted::<K, V>(m, k);
    K::order_is_total(k, k);
    let r = rank::<K, V>(m, k);
    let n = with::<K, V>(m, k, v);
    let present = r < m.len() && m[r].0 == k;
    assert forall|i: int, j: int| 0 <= i < j < n.len() implies K::before(
        #[trigger] n[i].0,
        #[trigger] n[j].0,
    ) by {
        if !present {
            let p = if i < r { i } else { i - 1 };
            let q = if j < r { j } else { j - 1 };
            if i == r {
                assert(n[j] == m[q]);
                if q == r {
                    K::order_is_total(m[r].0, k);
                }
            } else if j == r {
                assert(n[i] == m[i]);
            } else {
                assert(n[i] == m[p] && n[j] == m[q]);
            }
        } else {
            assert(n[i].0 == m[i].0 && n[j].0 == m[j].0);
        }
    }
    lemma_rank_is::<K, V>(n, k, r);
    assert forall|q: K::V| q != k implies #[trigger] lookup::<K, V>(n, q) == lookup::<K, V>(
        m,
        q,
    ) by {
        lemma_rank::<K, V>(m, q);
        lemma_rank_sorted::<K, V>(m, q);
        lemma_rank::<K, V>(n, q);
        lemma_rank_sorted::<K, V>(n, q);
        if present {
            assert forall|i: int| 0 <= i < rank::<K, V>(m, q) implies K::before(
                #[trigger] n[i].0,
                q,
            ) by {
                assert(n[i].0 == m[i].0);
            }
            lemma_rank_is::<K, V>(n, q, rank::<K, V>(m, q));
        } else {
            if lookup::<K, V>(m, q) is Some {
                let a = rank::<K, V>(m, q);
                let b = if a < r { a } else { a + 1 };
                assert(n[b] == m[a]);
            }
            if lookup::<K, V>(n, q) is Some {
                let b = rank::<K, V>(n, q);
                let a = if b < r { b } else { b - 1 };
                assert(n[b] == m[a]);
            }
        }
    }
}

/// In a sorted list, to hold a key is to have a value found under it.
pub proof fn lemma_has<K: OrderedKey, V>(m: Seq<(K::V, V)>, k: K::V)
    requires
        sorted::<K, V>(m),
    ensures
        has::<K, V>(m, k) <==> lookup::<K, V>(m, k) is Some,
{
    lemma_rank::<K, V>(m, k);
    lemma_rank_sorted::<K, V>(m, k);
    if has::<K, V>(m, k) {
        let i = choose|i: int| 0 <= i < m.len() && #[trigger] m[i].0 == k;
        assert(i == rank::<K, V>(m, k));
    }
}

/// The entries with `f` applied to each value.
pub open spec fn mapped<K: OrderedKey, V, W>(
    m: Seq<(K::V, V)>,
    f: spec_fn(V) -> W,
) -> Seq<(K::V, W)> {
    m.map_values(|e: (K::V, V)| (e.0, f(e.1)))
}

/// Applying a function to the values changes neither the order, nor where a key stands, nor what
/// is stored under it otherwise.
pub proof fn lemma_mapped<K: OrderedKey, V, W>(
    m: Seq<(K::V, V)>,
    f: spec_fn(V) -> W,
    k: K::V,
    v: V,
)
    ensures
        sorted::<K, W>(mapped::<K, V, W>(m, f)) == sorted::<K, V>(m),
        rank::<K, W>(mapped::<K, V, W>(m, f), k) == rank::<K, V>(m, k),
        lookup::<K, W>(mapped::<K, V, W>(m, f), k) == (match lookup::<K, V>(m, k) {
            Some(x) => Some(f(x)),
            None => None,
        }),
        mapped::<K, V, W>(with::<K, V>(m, k, v), f) == with::<K, W>(
            mapped::<K, V, W>(m, f),
            k,
            f(v),
        ),
{
    let n = mapped::<K, V, W>(m, f);
    lemma_rank::<K, V>(m, k);
    assert forall|i: int| 0 <= i < rank::<K, V>(m, k) implies K::before(#[trigger] n[i].0, k) by {
        assert(n[i].0 == m[i].0);
    }
    lemma_rank_is::<K, W>(n, k, rank::<K, V>(m, k));
    if sorted::<K, V>(m) {
        assert forall|i: int, j: int| 0 <= i < j < n.len() implies K::before(
            #[trigger] n[i].0,
            #[trigger] n[j].0,
        ) by {
            assert(n[i].0 == m[i].0 && n[j].0 == m[j].0);
        }
    }
    if sorted::<K, W>(n) {
        assert forall|i: int, j: int| 0 <= i < j < m.len() implies K::before(
            #[trigger] m[i].0,
            #[trigger] m[j].0,
        ) by {
            assert(n[i].0 == m[i].0 && n[j].0 == m[j].0);
        }
    }
    assert(mapped::<K, V, W>(with::<K, V>(m, k, v), f) =~= with::<K, W>(n, k, f(v)));
}

/// Storing twice under one key keeps the second value.
pub proof fn lemma_with_twice<K: OrderedKey, V>(m: Seq<(K::V, V)>, k: K::V, a: V, b: V)
    requires
        sorted::<K, V>(m),
    ensures
        with::<K, V>(with::<K, V>(m, k, a), k, b) == with::<K, V>(m, k, b),
{
    lemma_with::<K, V>(m, k, a);
    lemma_rank::<K, V>(m, k);
    lemma_rank_sorted::<K, V>(m, k);
    let n = with::<K, V>(m, k, a);
    lemma_rank_sorted::<K, V>(n, k);
    let r = rank::<K, V>(m, k);
    assert(n[r].0 == k);
    assert(rank::<K, V>(n, k) == r);
    assert(with::<K, V>(n, k, b) =~= with::<K, V>(m, k, b));
}

/// Storing under two different keys gives the same list in either order.
pub proof fn lemma_with_commutes<K: OrderedKey, V>(
    m: Seq<(K::V, V)>,
    p: K::V,
    a: V,
    q: K::V,
    b: V,
)
    requires
        sorted::<K, V>(m),
        p != q,
    ensures
        with::<K, V>(with::<K, V>(m, p, a), q, b) == with::<K, V>(with::<K, V>(m, q, b), p, a),
{
    let x = with::<K, V>(with::<K, V>(m, p, a), q, b);
    let y = with::<K, V>(with::<K, V>(m, q, b), p, a);
    lemma_with::<K, V>(m, p, a);
    lemma_with::<K, V>(m, q, b);
    lemma_with::<K, V>(with::<K, V>(m, p, a), q, b);
    lemma_with::<K, V>(with::<K, V>(m, q, b), p, a);
    assert forall|k: K::V| lookup::<K, V>(x, k) == lookup::<K, V>(y, k) by {
        if k == p {
            assert(lookup::<K, V>(x, p) == lookup::<K, V>(with::<K, V>(m, p, a), p));
        } else if k == q {
            assert(lookup::<K, V>(y, q) == lookup::<K, V>(with::<K, V>(m, q, b), q));
        } else {
            assert(lookup::<K, V>(x, k) == lookup::<K, V>(with::<K, V>(m, p, a), k));
            assert(lookup::<K, V>(y, k) == lookup::<K, V>(with::<K, V>(m, q, b), k));
        }
    }
    lemma_same_lookups::<K, V>(x, y);
}

/// A sorted list is determined by what is found in it.
pub proof fn lemma_same_lookups<K: OrderedKey, V>(x: Seq<(K::V, V)>, y: Seq<(K::V, V)>)
    requires
        sorted::<K, V>(x),
        sorted::<K, V>(y),
        forall|k: K::V| #[trigger] lookup::<K, V>(x, k) == lookup::<K, V>(y, k),
    ensures
        x == y,
    decreases x.len(),
{
    if x.len() == 0 {
        if y.len() > 0 {
            lemma_found_at::<K, V>(y, 0);
            assert(lookup::<K, V>(x, y[0].0) is None);
        }
        assert(x =~= y);
    } else {
        let n = x.len() - 1;
        lemma_found_at::<K, V>(x, n);
        assert(lookup::<K, V>(y, x[n].0) is Some);
        lemma_rank::<K, V>(y, x[n].0);
        let j = rank::<K, V>(y, x[n].0);
        assert(y[j].0 == x[n].0);
        if j < y.len() - 1 {
            let l = y.len() - 1;
            lemma_found_at::<K, V>(y, l);
            assert(lookup::<K, V>(x, y[l].0) is Some);
            lemma_rank::<K, V>(x, y[l].0);
            let i = rank::<K, V>(x, y[l].0);
            assert(K::before(y[j].0, y[l].0));
            K::order_is_total(y[l].0, x[n].0);
            if i < n {
                assert(K::before(x[i].0, x[n].0));
            }
        }
        let a = x.drop_last();
        let b = y.drop_last();
        assert forall|i: int, j: int| 0 <= i < j < a.len() implies K::before(
            #[trigger] a[i].0,
            #[trigger] a[j].0,
        ) by {
            assert(a[i] == x[i] && a[j] == x[j]);
        }
        assert forall|i: int, j: int| 0 <= i < j < b.len() implies K::before(
            #[trigger] b[i].0,
            #[trigger] b[j].0,
        ) by {
            assert(b[i] == y[i] && b[j] == y[j]);
        }
        assert forall|k: K::V| #[trigger] lookup::<K, V>(a, k) == lookup::<K, V>(b, k) by {
            lemma_drop_last::<K, V>(x, k);
            lemma_drop_last::<K, V>(y, k);
            assert(lookup::<K, V>(x, k) == lookup::<K, V>(y, k));
        }
        lemma_same_lookups::<K, V>(a, b);
        assert(x =~= a.push(x.last()));
        assert(y =~= b.push(y.last()));
    }
}

/// Every entry of a sorted list is found under its key.
pub proof fn lemma_found_at<K: OrderedKey, V>(m: Seq<(K::V, V)>, i: int)
    requires
        sorted::<K, V>(m),
        0 <= i < m.len(),
    ensures
        rank::<K, V>(m, m[i].0) == i,
        lookup::<K, V>(m, m[i].0) == Some(m[i].1),
{
    lemma_rank::<K, V>(m, m[i].0);
    lemma_rank_sorted::<K, V>(m, m[i].0);
}

/// Without its last entry, a sorted list holds all else that it held.
proof fn lemma_drop_last<K: OrderedKey, V>(m: Seq<(K::V, V)>, k: K::V)
    requires
        sorted::<K, V>(m),
        m.len() > 0,
    ensures
        lookup::<K, V>(m.drop_last(), k) == (if k == m.last().0 {
            None
        } else {
            lookup::<K, V>(m, k)
        }),
{
    let a = m.drop_last();
    assert forall|i: int, j: int| 0 <= i < j < a.len() implies K::before(
        #[trigger] a[i].0,
        #[trigger] a[j].0,
    ) by {
        assert(a[i] == m[i] && a[j] == m[j]);
    }
    lemma_rank::<K, V>(m, k);
    lemma_rank_sorted::<K, V>(m, k);
    lemma_rank::<K, V>(a, k);
    lemma_rank_sorted::<K, V>(a, k);
    if lookup::<K, V>(a, k) is Some {
        let i = rank::<K, V>(a, k);
        assert(m[i].0 == k);
    }
    if lookup::<K, V>(m, k) is Some && k != m.last().0 {
        let i = rank::<K, V>(m, k);
        assert(a[i].0 == k);
    }
    if k == m.last().0 {
        lemma_found_at::<K, V>(m, m.len() - 1);
    }
}

/// Where `k` stands, or would stand, and whether it is there.
pub fn find<K: OrderedKey, V>(m: &Vec<(K, V)>, k: &K) -> (r: (usize, bool))
    requires
        sorted::<K, V>(entries(m@)),
    ensures
        r.0 == rank::<K, V>(entries(m@), k@),
        r.0 <= m@.len(),
        r.1 == (lookup::<K, V>(entries(m@), k@) is Some),
        r.1 ==> r.0 < m@.len() && m@[r.0 as int].0@ == k@,
{
    let ghost e = entries(m@);
    let mut lo: usize = 0;
    let mut hi: usize = m.len();
    while lo < hi
        invariant
            lo <= hi <= m@.len(),
            e == entries(m@),
            sorted::<K, V>(e),
            forall|i: int| 0 <= i < lo ==> K::before(#[trigger] e[i].0, k@),
            forall|i: int| hi <= i < e.len() ==> !K::before(#[trigger] e[i].0, k@),
        decreases hi - lo,
    {
        let mid: usize = lo + (hi - lo) / 2;
        proof {
            lemma_rank::<K, V>(e, k@);
            lemma_rank_sorted::<K, V>(e, k@);
        }
        if m[mid].0.comes_before(k) {
            assert(e[mid as int].0 == m@[mid as int].0@);
            lo = mid + 1;
        } else {
            assert(e[mid as int].0 == m@[mid as int].0@);
            hi = mid;
        }
    }
    proof {
        lemma_rank_is::<K, V>(e, k@, lo as int);
    }
    if lo < m.len() {
        assert(e[lo as int].0 == m@[lo as int].0@);
        let found = m[lo].0.same_key(k);
        (lo, found)
    } else {
        (lo, false)
    }
}

/// The value that `m` holds for `k`.
pub fn get<'a, K: OrderedKey, V>(m: &'a Vec<(K, V)>, k: &K) -> (r: Option<&'a V>)
    requires
        sorted::<K, V>(entries(m@)),
    ensures
        match r {
            Some(v) => lookup::<K, V>(entries(m@), k@) == Some(*v),
            None => lookup::<K, V>(entries(m@), k@) is None,
        },
{
    let (i, found) = find(m, k);
    if found {
        assert(entries(m@)[i as int].1 == m@[i as int].1);
        Some(&m[i].1)
    } else {
        None
    }
}

/// Whether `m` holds `k`.
pub fn contains_key<K: OrderedKey, V>(m: &Vec<(K, V)>, k: &K) -> (r: bool)
    requires
        sorted::<K, V>(entries(m@)),
    ensures
        r == has::<K, V>(entries(m@), k@),
{
    proof {
        lemma_has::<K, V>(entries(m@), k@);
    }
    let (_, found) = find(m, k);
    found
}

/// Stores `v` under `k`.
pub fn put<K: OrderedKey, V>(m: &mut Vec<(K, V)>, k: K, v: V)
    requires
        sorted::<K, V>(entries(old(m)@)),
    ensures
        entries(final(m)@) == with::<K, V>(entries(old(m)@), k@, v),
        sorted::<K, V>(entries(final(m)@)),
{
    let ghost before = m@;
    let ghost e = entries(before);
    proof {
        lemma_with::<K, V>(e, k@, v);
    }
    let (i, found) = find(m, &k);
    if found {
        m.set(i, (k, v));
        assert(entries(m@) =~= e.update(i as int, (k@, v)));
    } else {
        m.insert(i, (k, v));
        assert(entries(m@) =~= e.insert(i as int, (k@, v)));
    }
}

} // verus!
