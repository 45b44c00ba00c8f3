//! Counting by name.

use vstd::prelude::*;
use crate::text::{comes_before, lemma_text_less_antisym, lemma_text_less_total, lemma_text_less_trans, same_text, text_less};

verus! {

/// How many of the first `n` keys are a name.
pub open spec fn count_of(keys: Seq<Seq<char>>, name: Seq<char>, n: int) -> int
    decreases n,
{
    if n <= 0 { 0 } else { count_of(keys, name, n - 1) + (if keys[n - 1] == name { 1int } else { 0 }) }
}

/// The first `n` counts together.
pub open spec fn counts_sum(v: Seq<(String, usize)>, n: int) -> int
    decreases n,
{
    if n <= 0 { 0 } else { counts_sum(v, n - 1) + v[n - 1].1 }
}

/// Whether a table has a name.
pub open spec fn has_name(v: Seq<(String, usize)>, name: Seq<char>) -> bool {
    exists|i: int| 0 <= i < v.len() && (#[trigger] v[i]).0@ == name
}

/// `v` counts the keys: every key once, in the order of the names, with how often it occurs. The counts
/// together are the number of keys.
pub open spec fn is_tally(v: Seq<(String, usize)>, keys: Seq<Seq<char>>) -> bool {
    &&& forall|i: int, j: int| 0 <= i < j < v.len() ==> text_less((#[trigger] v[i]).0@, (#[trigger] v[j]).0@)
    &&& forall|i: int| 0 <= i < v.len() ==> (#[trigger] v[i]).1 == count_of(keys, v[i].0@, keys.len() as int)
    &&& forall|k: int| 0 <= k < keys.len() ==> has_name(v, #[trigger] keys[k])
    &&& forall|i: int| 0 <= i < v.len() ==> keys.contains((#[trigger] v[i]).0@)
    &&& counts_sum(v, v.len() as int) == keys.len()
}

proof fn lemma_count_push(keys: Seq<Seq<char>>, key: Seq<char>, name: Seq<char>, n: int)
    requires
        0 <= n <= keys.len(),
    ensures
        count_of(keys.push(key), name, n) == count_of(keys, name, n),
        0 <= count_of(keys, name, n) <= n,
    decreases n,
{
    if n > 0 {
        lemma_count_push(keys, key, name, n - 1);
    }
}

proof fn lemma_absent(keys: Seq<Seq<char>>, name: Seq<char>, n: int)
    requires
        0 <= n <= keys.len(),
        !keys.contains(name),
    ensures
        count_of(keys, name, n) == 0,
    decreases n,
{
    if n > 0 {
        assert(keys.contains(keys[n - 1]));
        lemma_absent(keys, name, n - 1);
    }
}

proof fn lemma_sum_same(a: Seq<(String, usize)>, b: Seq<(String, usize)>, n: int)
    requires
        0 <= n <= a.len(),
        n <= b.len(),
        forall|k: int| 0 <= k < n ==> (#[trigger] a[k]).1 == b[k].1,
    ensures
        counts_sum(a, n) == counts_sum(b, n),
    decreases n,
{
    if n > 0 {
        lemma_sum_same(a, b, n - 1);
        assert(a[n - 1].1 == b[n - 1].1);
    }
}

/// A table with one count more at one place.
proof fn lemma_sum_more(a: Seq<(String, usize)>, b: Seq<(String, usize)>, i: int, n: int)
    requires
        0 <= i < n <= a.len(),
        a.len() == b.len(),
        b[i].1 == a[i].1 + 1,
        forall|k: int| 0 <= k < n && k != i ==> (#[trigger] a[k]).1 == b[k].1,
    ensures
        counts_sum(b, n) == counts_sum(a, n) + 1,
    decreases n,
{
    if i == n - 1 {
        lemma_sum_same(a, b, n - 1);
    } else {
        lemma_sum_more(a, b, i, n - 1);
        assert(a[n - 1].1 == b[n - 1].1);
    }
}

/// A table with an entry more.
proof fn lemma_sum_insert(a: Seq<(String, usize)>, e: (String, usize), i: int, n: int)
    requires
        0 <= i <= n <= a.len(),
    ensures
        counts_sum(a.insert(i, e), n + 1) == counts_sum(a, n) + e.1,
    decreases n,
{
    let b = a.insert(i, e);
    if i == n {
        lemma_sum_same(a, b, n);
        assert(b[n] == e);
    } else {
        lemma_sum_insert(a, e, i, n - 1);
        assert(b[n] == a[n - 1]);
    }
}

/// Count one key more.
pub fn count_up(v: &mut Vec<(String, usize)>, key: String, Ghost(keys): Ghost<Seq<Seq<char>>>)
    requires
        is_tally(old(v)@, keys),
        keys.len() < usize::MAX,
    ensures
        is_tally(final(v)@, keys.push(key@)),
{
    let ghost v0 = v@;
    let ghost now = keys.push(key@);
    let n: usize = v.len();
    let mut i: usize = 0;
    while i < n && comes_before(v[i].0.as_str(), key.as_str())
        invariant
            n == v@.len(),
            v@ == v0,
            i <= n,
            forall|k: int| 0 <= k < i ==> text_less((#[trigger] v0[k]).0@, key@),
        decreases n - i,
    {
        i = i + 1;
    }
    proof {
        assert forall|name: Seq<char>| #[trigger] count_of(now, name, now.len() as int)
            == count_of(keys, name, keys.len() as int) + (if key@ == name { 1int } else { 0 }) by {
            lemma_count_push(keys, key@, name, keys.len() as int);
        }
        assert(now[keys.len() as int] == key@);
    }
    if i < n && same_text(v[i].0.as_str(), key.as_str()) {
        let count: usize = v[i].1;
        proof {
            lemma_count_push(keys, key@, key@, keys.len() as int);
        }
        v.set(i, (key, count + 1));
        proof {
            lemma_sum_more(v0, v@, i as int, n as int);
            assert forall|k: int| 0 <= k < v@.len() implies (#[trigger] v@[k]).1 == count_of(now, v@[k].0@, now.len() as int) && now.contains(v@[k].0@) by {
                if k == i {
                    assert(now[keys.len() as int] == key@);
                } else {
                    if k < i {
                        assert(text_less(v0[k].0@, v0[i as int].0@));
                    } else {
                        assert(text_less(v0[i as int].0@, v0[k].0@));
                    }
                    if v0[k].0@ == key@ {
                        lemma_text_less_antisym(key@, key@);
                    }
                    assert(keys.contains(v0[k].0@));
                    let q = choose|q: int| 0 <= q < keys.len() && keys[q] == v0[k].0@;
                    assert(now[q] == v0[k].0@);
                }
            }
            assert forall|k: int| 0 <= k < now.len() implies has_name(v@, #[trigger] now[k]) by {
                if k < keys.len() {
                    assert(has_name(v0, keys[k]));
                    let q = choose|q: int| 0 <= q < v0.len() && (#[trigger] v0[q]).0@ == keys[k];
                    assert(v@[q].0@ == now[k]);
                } else {
                    assert(v@[i as int].0@ == now[k]);
                }
            }
        }
    } else {
        proof {
            if i < n {
                lemma_text_less_total(v0[i as int].0@, key@);
            }
            assert forall|k: int| i <= k < n implies text_less(key@, (#[trigger] v0[k]).0@) by {
                if k > i {
                    assert(text_less(v0[i as int].0@, v0[k].0@));
                    lemma_text_less_trans(key@, v0[i as int].0@, v0[k].0@);
                }
            }
            assert forall|k: int| 0 <= k < n implies (#[trigger] v0[k]).0@ != key@ by {
                if v0[k].0@ == key@ {
                    lemma_text_less_antisym(key@, key@);
                }
            }
            if keys.contains(key@) {
                let q = choose|q: int| 0 <= q < keys.len() && keys[q] == key@;
                assert(has_name(v0, keys[q]));
            }
            lemma_absent(keys, key@, keys.len() as int);
            lemma_sum_insert(v0, (key, 1usize), i as int, n as int);
        }
        v.insert(i, (key, 1));
        proof {
            assert forall|k: int| 0 <= k < v@.len() implies (#[trigger] v@[k]).1 == count_of(now, v@[k].0@, now.len() as int) && now.contains(v@[k].0@) by {
                if k == i {
                    assert(now[keys.len() as int] == key@);
                } else {
                    let o = if k < i { k } else { k - 1 };
                    assert(v@[k] == v0[o]);
                    assert(keys.contains(v0[o].0@));
                    let q = choose|q: int| 0 <= q < keys.len() && keys[q] == v0[o].0@;
                    assert(now[q] == v0[o].0@);
                }
            }
            assert forall|a: int, b: int| 0 <= a < b < v@.len() implies text_less((#[trigger] v@[a]).0@, (#[trigger] v@[b]).0@) by {
                let (x, y) = (if a < i { a } else { a - 1 }, if b < i { b } else { b - 1 });
                if a != i {
                    assert(v@[a] == v0[x]);
                }
                if b != i {
                    assert(v@[b] == v0[y]);
                }
            }
            assert forall|k: int| 0 <= k < now.len() implies has_name(v@, #[trigger] now[k]) by {
                if k < keys.len() {
                    assert(has_name(v0, keys[k]));
                    let q = choose|q: int| 0 <= q < v0.len() && (#[trigger] v0[q]).0@ == keys[k];
                    assert(v@[if q < i { q } else { q + 1 }].0@ == now[k]);
                } else {
                    assert(v@[i as int].0@ == now[k]);
                }
            }
        }
    }
}

/// The key that an excluded instance is counted under: its master's type and its placement status.
pub open spec fn exclusion_key(master_type: Seq<char>, status: Seq<char>) -> Seq<char> {
    master_type + "/"@ + status
}

/// The key that an excluded instance is counted under.
pub fn exclusion_key_of(master_type: &str, status: &str) -> (r: String)
    ensures
        r@ == exclusion_key(master_type@, status@),
{
    let mut s: String = master_type.to_owned();
    s.append("/");
    s.append(status);
    s
}

} // verus!
