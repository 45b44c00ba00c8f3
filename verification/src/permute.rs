//! The orders of a few things, one after the other.

use vstd::prelude::*;

verus! {

/// The last position, up to `i`, whose value is above the one before it, 0 if there is none.
pub open spec fn last_rise(v: Seq<usize>, i: int) -> int
    decreases i,
{
    if i <= 0 || v[i - 1] < v[i] { i } else { last_rise(v, i - 1) }
}

/// The last position, up to `j`, whose value is above `x`.
pub open spec fn last_above(v: Seq<usize>, x: usize, j: int) -> int
    decreases j,
{
    if j <= 0 || v[j] > x { j } else { last_above(v, x, j - 1) }
}

/// Two values of a list change places.
pub open spec fn exchanged(v: Seq<usize>, i: int, j: int) -> Seq<usize> {
    v.update(i, v[j]).update(j, v[i])
}

/// A list with the order of its values from `i` on turned round.
pub open spec fn turned_from(v: Seq<usize>, i: int) -> Seq<usize> {
    Seq::new(v.len(), |k: int| if k < i { v[k] } else { v[v.len() - 1 - (k - i)] })
}

/// The next order of a list in the order of orders, and whether there is one; behind the last comes the
/// first.
pub open spec fn next_order(v: Seq<usize>) -> (Seq<usize>, bool) {
    let n = v.len() as int;
    let i = last_rise(v, n - 1);
    if n < 2 {
        (v, false)
    } else if i <= 0 {
        (turned_from(v, 0), false)
    } else {
        (turned_from(exchanged(v, i - 1, last_above(v, v[i - 1], n - 1)), i), true)
    }
}

proof fn lemma_exchanged(v: Seq<usize>, i: int, j: int)
    requires
        0 <= i < v.len(),
        0 <= j < v.len(),
    ensures
        exchanged(v, i, j).to_multiset() == v.to_multiset(),
        exchanged(v, i, j).len() == v.len(),
{
    vstd::seq_lib::to_multiset_update(v, i, v[j]);
    vstd::seq_lib::to_multiset_update(v.update(i, v[j]), j, v[i]);
    v.to_multiset_ensures();
    assert(v.to_multiset().count(v[i]) > 0) by {
        assert(v.contains(v[i]));
    }
    assert(exchanged(v, i, j).to_multiset() =~= v.to_multiset());
}

proof fn lemma_turned(v: Seq<usize>, i: int)
    requires
        0 <= i <= v.len(),
    ensures
        turned_from(v, i).to_multiset() == v.to_multiset(),
    decreases v.len() - i,
{
    let n = v.len() as int;
    if n - i <= 1 {
        assert(turned_from(v, i) =~= v);
    } else {
        // Exchange the ends, then turn round what lies between them.
        let w = exchanged(v, i, n - 1);
        lemma_exchanged(v, i, n - 1);
        lemma_inner(w, i + 1, n - 1);
        assert(turned_from(v, i) =~= turned_between(w, i + 1, n - 1));
    }
}

spec fn turned_between(v: Seq<usize>, i: int, e: int) -> Seq<usize> {
    Seq::new(v.len(), |k: int| if i <= k < e { v[e - 1 - (k - i)] } else { v[k] })
}

proof fn lemma_inner(v: Seq<usize>, i: int, e: int)
    requires
        0 <= i <= v.len(),
        e <= v.len(),
    ensures
        turned_between(v, i, e).to_multiset() == v.to_multiset(),
    decreases e - i,
{
    if e - i <= 1 {
        assert(turned_between(v, i, e) =~= v);
    } else {
        let w = exchanged(v, i, e - 1);
        lemma_exchanged(v, i, e - 1);
        lemma_inner(w, i + 1, e - 1);
        assert(turned_between(v, i, e) =~= turned_between(w, i + 1, e - 1));
    }
}

proof fn lemma_last_rise(v: Seq<usize>, i: int)
    requires
        0 <= i < v.len() || i == 0,
    ensures
        0 <= last_rise(v, i) <= i,
        last_rise(v, i) > 0 ==> v[last_rise(v, i) - 1] < v[last_rise(v, i)],
    decreases i,
{
    if i > 0 && !(v[i - 1] < v[i]) {
        lemma_last_rise(v, i - 1);
    }
}

proof fn lemma_last_above(v: Seq<usize>, x: usize, j: int, k: int)
    requires
        0 <= k <= j < v.len(),
        v[k] > x,
    ensures
        k <= last_above(v, x, j) <= j,
        v[last_above(v, x, j)] > x,
    decreases j,
{
    if !(v[j] > x) {
        lemma_last_above(v, x, j - 1, k);
    }
}

/// The next order has the same values, and where there is one it is greater: the first value that
/// differs is above the one it replaces.
pub proof fn law_next_order_is_greater(v: Seq<usize>)
    ensures
        next_order(v).0.to_multiset() == v.to_multiset(),
        next_order(v).0.len() == v.len(),
        next_order(v).1 ==> exists|k: int| 0 <= k < v.len() && #[trigger] next_order(v).0[k] > v[k]
            && forall|j: int| 0 <= j < k ==> next_order(v).0[j] == v[j],
{
    let n = v.len() as int;
    if n >= 2 {
        let i = last_rise(v, n - 1);
        lemma_last_rise(v, n - 1);
        if i <= 0 {
            lemma_turned(v, 0);
        } else {
            lemma_last_above(v, v[i - 1], n - 1, i);
            let j = last_above(v, v[i - 1], n - 1);
            lemma_exchanged(v, i - 1, j);
            lemma_turned(exchanged(v, i - 1, j), i);
            assert(next_order(v).0[i - 1] == v[j]);
        }
    }
}

/// Put a list into its next order. `false`, and the first order, behind the last.
pub fn next_permutation(v: &mut Vec<usize>) -> (r: bool)
    ensures
        (final(v)@, r) == next_order(old(v)@),
        final(v)@.to_multiset() == old(v)@.to_multiset(),
        final(v)@.len() == old(v)@.len(),
{
    let ghost v0 = v@;
    proof {
        law_next_order_is_greater(v0);
    }
    let n: usize = v.len();
    if n < 2 {
        return false;
    }
    let mut i: usize = n - 1;
    while i > 0 && v[i - 1] >= v[i]
        invariant
            v@ == v0,
            n == v0.len(),
            i < n,
            last_rise(v0, i as int) == last_rise(v0, n - 1),
        decreases i,
    {
        i = i - 1;
    }
    if i > 0 {
        let x: usize = v[i - 1];
        let mut j: usize = n - 1;
        proof {
            lemma_last_above(v0, x, n - 1, i as int);
        }
        while v[j] <= x
            invariant
                v@ == v0,
                n == v0.len(),
                0 < i < n,
                i <= last_above(v0, x, n - 1),
                v0[last_above(v0, x, n - 1)] > x,
                j < n,
                last_above(v0, x, j as int) == last_above(v0, x, n - 1),
                last_above(v0, x, n - 1) <= j,
            decreases j,
        {
            assert(j > 0) by {
                if j == 0 {
                    assert(last_above(v0, x, 0) == 0);
                }
            }
            proof {
                lemma_last_above(v0, x, j - 1, last_above(v0, x, n - 1));
            }
            j = j - 1;
        }
        let y: usize = v[j];
        v.set(i - 1, y);
        v.set(j, x);
        assert(v@ =~= exchanged(v0, i - 1, j as int));
    }
    let ghost w = v@;
    let rose: bool = i > 0;
    let mut a: usize = i;
    let mut b: usize = n;
    while a < b && b - a > 1
        invariant
            v@.len() == n,
            w.len() == n,
            i <= a <= b <= n,
            a - i == n - b,
            forall|k: int| 0 <= k < n && !(a <= k < b) ==> #[trigger] v@[k] == turned_from(w, i as int)[k],
            forall|k: int| a <= k < b ==> #[trigger] v@[k] == w[k],
        decreases b - a,
    {
        let x: usize = v[a];
        let y: usize = v[b - 1];
        v.set(a, y);
        v.set(b - 1, x);
        a = a + 1;
        b = b - 1;
    }
    assert(v@ =~= turned_from(w, i as int));
    rose
}

} // verus!
