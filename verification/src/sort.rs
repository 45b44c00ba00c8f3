//! A verified merge sort, over values with an order of their own and over indices into a table.

use vstd::prelude::*;
use vstd::relations::{sorted_by, total_ordering};

verus! {

/// A total order on keys that verified code can ask for.
pub trait Order<K: Copy> {
    /// Whether `a` comes before `b`, or is the same.
    spec fn leq(&self, a: K, b: K) -> bool;

    /// The keys that may be compared.
    spec fn knows(&self, k: K) -> bool;

    /// The order is total: two keys that each come before the other are the same key.
    proof fn order_laws(&self)
        ensures
            total_ordering(|a: K, b: K| self.leq(a, b)),
    ;

    fn at_most(&self, a: K, b: K) -> (r: bool)
        requires
            self.knows(a),
            self.knows(b),
        ensures
            r == self.leq(a, b),
    ;
}

/// Ascending in an order.
pub open spec fn ascending<K: Copy, O: Order<K>>(o: O, s: Seq<K>) -> bool {
    forall|i: int, j: int| 0 <= i < j < s.len() ==> o.leq(#[trigger] s[i], #[trigger] s[j])
}

/// The ascending arrangement of a collection of keys is unique.
pub proof fn lemma_ascending_unique<K: Copy, O: Order<K>>(o: O, a: Seq<K>, b: Seq<K>)
    requires
        ascending(o, a),
        ascending(o, b),
        a.to_multiset() == b.to_multiset(),
    ensures
        a == b,
{
    o.order_laws();
    let leq = |x: K, y: K| o.leq(x, y);
    assert(sorted_by(a, leq));
    assert(sorted_by(b, leq));
    vstd::seq_lib::lemma_sorted_unique(a, b, leq);
    assert(a =~= b);
}

/// Merge two ascending lists.
fn merge<K: Copy, O: Order<K>>(o: &O, a: &Vec<K>, b: &Vec<K>) -> (r: Vec<K>)
    requires
        ascending(*o, a@),
        ascending(*o, b@),
        forall|k: int| 0 <= k < a@.len() ==> o.knows(#[trigger] a@[k]),
        forall|k: int| 0 <= k < b@.len() ==> o.knows(#[trigger] b@[k]),
    ensures
        ascending(*o, r@),
        r@.to_multiset() == a@.to_multiset().add(b@.to_multiset()),
        r@.len() == a@.len() + b@.len(),
{
    let mut out: Vec<K> = Vec::new();
    let mut i: usize = 0;
    let mut j: usize = 0;
    proof {
        o.order_laws();
        assert(a@.subrange(0, 0) =~= Seq::<K>::empty());
        assert(b@.subrange(0, 0) =~= Seq::<K>::empty());
        a@.subrange(0, 0).to_multiset_ensures();
        b@.subrange(0, 0).to_multiset_ensures();
        out@.to_multiset_ensures();
        assert(out@.to_multiset() =~= a@.subrange(0, 0).to_multiset().add(b@.subrange(0, 0).to_multiset()));
    }
    while i < a.len() || j < b.len()
        invariant
            i <= a@.len(),
            j <= b@.len(),
            ascending(*o, a@),
            ascending(*o, b@),
            forall|k: int| 0 <= k < a@.len() ==> o.knows(#[trigger] a@[k]),
            forall|k: int| 0 <= k < b@.len() ==> o.knows(#[trigger] b@[k]),
            total_ordering(|x: K, y: K| o.leq(x, y)),
            out@.len() == i + j,
            ascending(*o, out@),
            out@.to_multiset() == a@.subrange(0, i as int).to_multiset().add(b@.subrange(0, j as int).to_multiset()),
            forall|k: int| 0 <= k < out@.len() && i < a@.len() ==> o.leq(#[trigger] out@[k], a@[i as int]),
            forall|k: int| 0 <= k < out@.len() && j < b@.len() ==> o.leq(#[trigger] out@[k], b@[j as int]),
        decreases a@.len() - i + b@.len() - j,
    {
        let ghost before = out@;
        let ghost leq = |x: K, y: K| o.leq(x, y);
        let take_a: bool = if i >= a.len() { false } else if j >= b.len() { true } else { o.at_most(a[i], b[j]) };
        if take_a {
            let v = a[i];
            proof {
                if j < b@.len() {
                    assert(o.leq(v, b@[j as int]));
                }
                if i + 1 < a@.len() {
                    assert(o.leq(v, a@[i + 1]));
                }
                assert(leq(v, v));
                before.to_multiset_ensures();
                a@.subrange(0, i as int).to_multiset_ensures();
                assert(a@.subrange(0, i + 1) =~= a@.subrange(0, i as int).push(v));
                assert forall|k: int| 0 <= k < before.len() && i + 1 < a@.len() implies o.leq(#[trigger] before[k], a@[i + 1]) by {
                    assert(leq(before[k], v) && leq(v, a@[i + 1]));
                    assert(leq(before[k], a@[i + 1]));
                }
            }
            out.push(v);
            i = i + 1;
            assert(out@.to_multiset() =~= a@.subrange(0, i as int).to_multiset().add(b@.subrange(0, j as int).to_multiset()));
        } else {
            let v = b[j];
            proof {
                if i < a@.len() {
                    assert(leq(v, a@[i as int]) || leq(a@[i as int], v));
                    assert(o.leq(v, a@[i as int]));
                }
                if j + 1 < b@.len() {
                    assert(o.leq(v, b@[j + 1]));
                }
                assert(leq(v, v));
                before.to_multiset_ensures();
                b@.subrange(0, j as int).to_multiset_ensures();
                assert(b@.subrange(0, j + 1) =~= b@.subrange(0, j as int).push(v));
                assert forall|k: int| 0 <= k < before.len() && j + 1 < b@.len() implies o.leq(#[trigger] before[k], b@[j + 1]) by {
                    assert(leq(before[k], v) && leq(v, b@[j + 1]));
                    assert(leq(before[k], b@[j + 1]));
                }
            }
            out.push(v);
            j = j + 1;
            assert(out@.to_multiset() =~= a@.subrange(0, i as int).to_multiset().add(b@.subrange(0, j as int).to_multiset()));
        }
    }
    proof {
        assert(a@.subrange(0, i as int) =~= a@);
        assert(b@.subrange(0, j as int) =~= b@);
    }
    out
}

/// A rearrangement of known keys holds known keys.
pub proof fn lemma_rearranged<K>(a: Seq<K>, b: Seq<K>, p: spec_fn(K) -> bool)
    requires
        a.to_multiset() == b.to_multiset(),
        forall|k: int| 0 <= k < a.len() ==> p(#[trigger] a[k]),
    ensures
        forall|k: int| 0 <= k < b.len() ==> p(#[trigger] b[k]),
        a.len() == b.len(),
{
    a.to_multiset_ensures();
    b.to_multiset_ensures();
    assert forall|k: int| 0 <= k < b.len() implies p(#[trigger] b[k]) by {
        assert(b.contains(b[k]));
        assert(b.to_multiset().count(b[k]) > 0);
        assert(a.to_multiset().count(b[k]) > 0);
        assert(a.contains(b[k]));
    }
}

/// The keys of a list in ascending order.
pub fn sorted_in<K: Copy, O: Order<K>>(o: &O, v: &Vec<K>) -> (r: Vec<K>)
    requires
        forall|k: int| 0 <= k < v@.len() ==> o.knows(#[trigger] v@[k]),
    ensures
        ascending(*o, r@),
        r@.to_multiset() == v@.to_multiset(),
        r@.len() == v@.len(),
    decreases v@.len(),
{
    let n: usize = v.len();
    if n <= 1 {
        let mut out: Vec<K> = Vec::new();
        if n == 1 {
            out.push(v[0]);
        }
        assert(out@ =~= v@);
        return out;
    }
    let mid: usize = n / 2;
    let mut lo: Vec<K> = Vec::new();
    let mut hi: Vec<K> = Vec::new();
    let mut i: usize = 0;
    while i < mid
        invariant
            i <= mid <= n == v@.len(),
            lo@ == v@.subrange(0, i as int),
        decreases mid - i,
    {
        lo.push(v[i]);
        i = i + 1;
        assert(lo@ =~= v@.subrange(0, i as int));
    }
    while i < n
        invariant
            mid <= i <= n == v@.len(),
            hi@ == v@.subrange(mid as int, i as int),
        decreases n - i,
    {
        hi.push(v[i]);
        i = i + 1;
        assert(hi@ =~= v@.subrange(mid as int, i as int));
    }
    let a = sorted_in(o, &lo);
    let b = sorted_in(o, &hi);
    proof {
        let p = |k: K| o.knows(k);
        lemma_rearranged(lo@, a@, p);
        lemma_rearranged(hi@, b@, p);
        assert(v@ =~= lo@ + hi@);
        vstd::seq_lib::lemma_multiset_commutative(lo@, hi@);
    }
    merge(o, &a, &b)
}

/// The sorted arrangement does not depend on how the list was arranged before.
pub proof fn law_sort_ignores_input_order<K: Copy, O: Order<K>>(o: O, a: Seq<K>, b: Seq<K>, sa: Seq<K>, sb: Seq<K>)
    requires
        a.to_multiset() == b.to_multiset(),
        ascending(o, sa),
        sa.to_multiset() == a.to_multiset(),
        ascending(o, sb),
        sb.to_multiset() == b.to_multiset(),
    ensures
        sa == sb,
{
    lemma_ascending_unique(o, sa, sb);
}

/// Values with a total order of their own.
pub trait Ranked: Copy {
    /// Whether `self` comes before `other`, or is the same.
    spec fn leq(self, other: Self) -> bool;

    proof fn rank_laws()
        ensures
            total_ordering(|a: Self, b: Self| a.leq(b)),
    ;

    fn at_most(self, other: Self) -> (r: bool)
        ensures
            r == self.leq(other),
    ;
}

/// The order that values have of their own.
pub struct Natural;

impl<K: Ranked> Order<K> for Natural {
    open spec fn leq(&self, a: K, b: K) -> bool {
        a.leq(b)
    }

    open spec fn knows(&self, k: K) -> bool {
        true
    }

    proof fn order_laws(&self) {
        K::rank_laws();
        let f = |a: K, b: K| a.leq(b);
        let g = |a: K, b: K| <Natural as Order<K>>::leq(self, a, b);
        assert(f =~= g);
    }

    fn at_most(&self, a: K, b: K) -> (r: bool) {
        a.at_most(b)
    }
}

/// Ascending in the values' own order.
pub open spec fn in_order<T: Ranked>(s: Seq<T>) -> bool {
    ascending(Natural, s)
}

/// The values of a list in ascending order.
pub fn sorted<T: Ranked>(v: &Vec<T>) -> (r: Vec<T>)
    ensures
        in_order(r@),
        r@.to_multiset() == v@.to_multiset(),
        r@.len() == v@.len(),
{
    sorted_in(&Natural, v)
}

impl Ranked for i32 {
    open spec fn leq(self, other: i32) -> bool {
        self <= other
    }

    proof fn rank_laws() {
    }

    fn at_most(self, other: i32) -> (r: bool) {
        self <= other
    }
}

/// A number with the position it had, ordered by number and then by position: sorting by it keeps
/// equal numbers in their order.
#[derive(Debug, Clone, Copy, PartialEq, Eq, Structural)]
pub struct Keyed {
    pub key: i64,
    pub pos: usize,
}

impl Ranked for Keyed {
    open spec fn leq(self, other: Keyed) -> bool {
        self.key < other.key || self.key == other.key && self.pos <= other.pos
    }

    proof fn rank_laws() {
    }

    fn at_most(self, other: Keyed) -> (r: bool) {
        self.key < other.key || (self.key == other.key && self.pos <= other.pos)
    }
}

/// Numbers with their positions.
pub open spec fn keyed(keys: Seq<i64>) -> Seq<Keyed> {
    Seq::new(keys.len(), |k: int| Keyed { key: keys[k], pos: k as usize })
}

/// `order` lists the positions of some numbers by rising number, equal numbers in their order.
pub open spec fn is_stable_order(keys: Seq<i64>, order: Seq<usize>) -> bool {
    &&& order.len() == keys.len()
    &&& forall|i: int| 0 <= i < order.len() ==> #[trigger] order[i] < keys.len()
    &&& forall|i: int, j: int| 0 <= i < j < order.len() ==>
        keys[#[trigger] order[i] as int] < keys[#[trigger] order[j] as int]
            || keys[order[i] as int] == keys[order[j] as int] && order[i] < order[j]
}

/// There is one stable order.
pub proof fn lemma_stable_order_unique(keys: Seq<i64>, a: Seq<usize>, b: Seq<usize>)
    requires
        keys.len() <= usize::MAX,
        is_stable_order(keys, a),
        is_stable_order(keys, b),
    ensures
        a == b,
{
    let ka = Seq::new(a.len(), |k: int| Keyed { key: keys[a[k] as int], pos: a[k] });
    let kb = Seq::new(b.len(), |k: int| Keyed { key: keys[b[k] as int], pos: b[k] });
    lemma_order_is_rearranged(keys, a);
    lemma_order_is_rearranged(keys, b);
    assert(in_order(ka));
    assert(in_order(kb));
    lemma_ascending_unique(Natural, ka, kb);
    assert forall|k: int| 0 <= k < a.len() implies a[k] == b[k] by {
        assert(ka[k].pos == a[k] && kb[k].pos == b[k]);
    }
    assert(a =~= b);
}

proof fn lemma_order_is_rearranged(keys: Seq<i64>, a: Seq<usize>)
    requires
        keys.len() <= usize::MAX,
        is_stable_order(keys, a),
    ensures
        Seq::new(a.len(), |k: int| Keyed { key: keys[a[k] as int], pos: a[k] }).to_multiset() == keyed(keys).to_multiset(),
{
    let ka = Seq::new(a.len(), |k: int| Keyed { key: keys[a[k] as int], pos: a[k] });
    let kk = keyed(keys);
    if keys.len() > 0 {
        assert forall|i: int, j: int| 0 <= i < ka.len() && 0 <= j < ka.len() && i != j implies ka[i] != ka[j] by {
            if i < j {
                assert(a[i] != a[j]);
            } else {
                assert(a[j] != a[i]);
            }
        }
        assert(ka.no_duplicates());
        assert forall|i: int, j: int| 0 <= i < kk.len() && 0 <= j < kk.len() && i != j implies kk[i] != kk[j] by {
            assert(kk[i].pos != kk[j].pos);
        }
        assert(kk.no_duplicates());
        ka.unique_seq_to_set();
        kk.unique_seq_to_set();
        assert(ka.to_set().subset_of(kk.to_set())) by {
            assert forall|e: Keyed| #[trigger] ka.to_set().contains(e) implies kk.to_set().contains(e) by {
                let k = choose|k: int| 0 <= k < ka.len() && ka[k] == e;
                assert(kk[a[k] as int] == e);
            }
        }
        vstd::set_lib::lemma_subset_equality(ka.to_set(), kk.to_set());
        ka.lemma_multiset_has_no_duplicates();
        kk.lemma_multiset_has_no_duplicates();
        assert forall|e: Keyed| ka.to_multiset().count(e) == kk.to_multiset().count(e) by {
            ka.to_multiset_ensures();
            kk.to_multiset_ensures();
            assert(ka.contains(e) <==> ka.to_set().contains(e));
            assert(kk.contains(e) <==> kk.to_set().contains(e));
            if ka.contains(e) {
                assert(ka.to_multiset().contains(e));
                assert(kk.to_multiset().contains(e));
            } else {
                assert(!kk.contains(e));
                assert(ka.to_multiset().count(e) == 0);
            }
        }
        assert(ka.to_multiset() =~= kk.to_multiset());
    } else {
        assert(ka =~= kk);
    }
}

/// The positions of some numbers by rising number, equal numbers in their order.
pub open spec fn the_order(keys: Seq<i64>) -> Seq<usize> {
    choose|order: Seq<usize>| is_stable_order(keys, order)
}

/// The positions of some numbers by rising number, equal numbers in their order.
pub fn stable_order(keys: &Vec<i64>) -> (r: Vec<usize>)
    ensures
        is_stable_order(keys@, r@),
        r@ == the_order(keys@),
{
    let n: usize = keys.len();
    let mut v: Vec<Keyed> = Vec::new();
    let mut k: usize = 0;
    while k < n
        invariant
            n == keys@.len(),
            k <= n,
            v@ == keyed(keys@).subrange(0, k as int),
        decreases n - k,
    {
        v.push(Keyed { key: keys[k], pos: k });
        k = k + 1;
        assert(v@ =~= keyed(keys@).subrange(0, k as int));
    }
    assert(v@ =~= keyed(keys@));
    let ks = sorted(&v);
    proof {
        let p = |e: Keyed| e.pos < n && e.key == keys@[e.pos as int];
        lemma_rearranged(v@, ks@, p);
        assert(v@.no_duplicates()) by {
            assert forall|i: int, j: int| 0 <= i < v@.len() && 0 <= j < v@.len() && i != j implies v@[i] != v@[j] by {
                assert(v@[i].pos != v@[j].pos);
            }
        }
        v@.lemma_multiset_has_no_duplicates();
        ks@.lemma_multiset_has_no_duplicates_conv();
        assert forall|i: int| 0 <= i < ks@.len() implies (#[trigger] ks@[i]).pos < n && ks@[i].key == keys@[ks@[i].pos as int] by {
            assert(p(ks@[i]));
        }
    }
    let mut out: Vec<usize> = Vec::new();
    let mut i: usize = 0;
    while i < ks.len()
        invariant
            i <= ks@.len(),
            out@ == Seq::new(i as nat, |k: int| ks@[k].pos),
        decreases ks@.len() - i,
    {
        out.push(ks[i].pos);
        i = i + 1;
        assert(out@ =~= Seq::new(i as nat, |k: int| ks@[k].pos));
    }
    proof {
        assert forall|i: int, j: int| 0 <= i < j < out@.len() implies
            keys@[#[trigger] out@[i] as int] < keys@[#[trigger] out@[j] as int]
                || keys@[out@[i] as int] == keys@[out@[j] as int] && out@[i] < out@[j] by {
            assert(ks@[i].leq(ks@[j]));
            assert(ks@[i] != ks@[j]);
        }
        lemma_stable_order_unique(keys@, out@, the_order(keys@));
    }
    out
}

/// Names ordered character by character; equal names by their position.
pub struct ByName<'a> {
    pub names: &'a Vec<String>,
}

/// The name at a position, empty past the end.
pub open spec fn name_at(names: Seq<String>, i: int) -> Seq<char> {
    if i < names.len() { names[i]@ } else { Seq::empty() }
}

impl<'a> Order<usize> for ByName<'a> {
    open spec fn leq(&self, a: usize, b: usize) -> bool {
        let (x, y) = (name_at(self.names@, a as int), name_at(self.names@, b as int));
        crate::text::text_less(x, y) || x == y && a <= b
    }

    open spec fn knows(&self, k: usize) -> bool {
        k < self.names@.len()
    }

    proof fn order_laws(&self) {
        let leq = |a: usize, b: usize| self.leq(a, b);
        assert forall|a: usize, b: usize| #[trigger] leq(a, b) && #[trigger] leq(b, a) implies a == b by {
            crate::text::lemma_text_less_antisym(name_at(self.names@, a as int), name_at(self.names@, b as int));
        }
        assert forall|a: usize, b: usize, c: usize| #[trigger] leq(a, b) && #[trigger] leq(b, c) implies leq(a, c) by {
            let (x, y, z) = (name_at(self.names@, a as int), name_at(self.names@, b as int), name_at(self.names@, c as int));
            if crate::text::text_less(x, y) && crate::text::text_less(y, z) {
                crate::text::lemma_text_less_trans(x, y, z);
            }
        }
        assert forall|a: usize, b: usize| #[trigger] leq(a, b) || #[trigger] leq(b, a) by {
            crate::text::lemma_text_less_total(name_at(self.names@, a as int), name_at(self.names@, b as int));
        }
    }

    fn at_most(&self, a: usize, b: usize) -> (r: bool) {
        let x = self.names[a].as_str();
        let y = self.names[b].as_str();
        crate::text::comes_before(x, y) || (crate::text::same_text(x, y) && a <= b)
    }
}

} // verus!
