//! Sequences of things that have a key: their order and their stable sort.
use vstd::prelude::*;
use crate::order;
use crate::order::{order_keys, KeyOrder};

verus! {

/// The values that a sequence of executable values stands for.
pub open spec fn views<T: View>(s: Seq<T>) -> Seq<T::V> {
    Seq::new(s.len(), |i: int| s[i]@)
}

/// A value with a key by which it is ordered.
pub trait Keyed: View + Sized {
    /// The key of what the value stands for.
    spec fn key_of(v: Self::V) -> Seq<u8>;

    /// The key.
    fn key_bytes(&self) -> (k: &[u8])
        ensures
            k@ == Self::key_of(self@),
    ;
}

/// The keys do not descend.
pub open spec fn sorted_by_key<M>(s: Seq<M>, key: spec_fn(M) -> Seq<u8>) -> bool {
    forall|i: int, j: int|
        #![trigger s[i], s[j]]
        0 <= i < j < s.len() ==> order::key_le(key(s[i]), key(s[j]))
}

/// The keys ascend, so that none occurs twice.
pub open spec fn strictly_sorted<M>(s: Seq<M>, key: spec_fn(M) -> Seq<u8>) -> bool {
    forall|i: int, j: int|
        #![trigger s[i], s[j]]
        0 <= i < j < s.len() ==> order::key_lt(key(s[i]), key(s[j]))
}

/// `m` put into `s` behind everything whose key is not greater, counted from the
/// right.
pub open spec fn insert_stably<M>(s: Seq<M>, m: M, key: spec_fn(M) -> Seq<u8>) -> Seq<M>
    decreases s.len(),
{
    if s.len() == 0 || !order::key_lt(key(m), key(s.last())) {
        s.push(m)
    } else {
        insert_stably(s.drop_last(), m, key).push(s.last())
    }
}

/// `s` sorted by key; what has the same key stays in the order it had.
pub open spec fn stable_sort<M>(s: Seq<M>, key: spec_fn(M) -> Seq<u8>) -> Seq<M>
    decreases s.len(),
{
    if s.len() == 0 {
        s
    } else {
        insert_stably(stable_sort(s.drop_last(), key), s.last(), key)
    }
}

/// Inserting keeps what was there and adds the one value.
proof fn lemma_insert_multiset<M>(s: Seq<M>, m: M, key: spec_fn(M) -> Seq<u8>)
    ensures
        insert_stably(s, m, key).to_multiset() == s.to_multiset().insert(m),
        insert_stably(s, m, key).len() == s.len() + 1,
    decreases s.len(),
{
    broadcast use vstd::seq_lib::group_to_multiset_ensures;

    if s.len() == 0 || !order::key_lt(key(m), key(s.last())) {
    } else {
        lemma_insert_multiset(s.drop_last(), m, key);
        assert(s =~= s.drop_last().push(s.last()));
        assert(insert_stably(s, m, key).to_multiset() =~= s.to_multiset().insert(m));
    }
}

/// Sorting loses nothing and adds nothing.
pub proof fn law_sort_keeps_all<M>(s: Seq<M>, key: spec_fn(M) -> Seq<u8>)
    ensures
        stable_sort(s, key).to_multiset() == s.to_multiset(),
        stable_sort(s, key).len() == s.len(),
    decreases s.len(),
{
    broadcast use vstd::seq_lib::group_to_multiset_ensures;

    if s.len() > 0 {
        law_sort_keeps_all(s.drop_last(), key);
        lemma_insert_multiset(stable_sort(s.drop_last(), key), s.last(), key);
        assert(s =~= s.drop_last().push(s.last()));
    }
}

/// Every value of the result of an insertion was there or is the new one.
proof fn lemma_insert_members<M>(s: Seq<M>, m: M, key: spec_fn(M) -> Seq<u8>, i: int)
    requires
        0 <= i < insert_stably(s, m, key).len(),
    ensures
        insert_stably(s, m, key)[i] == m || s.contains(insert_stably(s, m, key)[i]),
    decreases s.len(),
{
    if s.len() == 0 || !order::key_lt(key(m), key(s.last())) {
        if i < s.len() {
            assert(s.push(m)[i] == s[i]);
        }
    } else {
        let t = insert_stably(s.drop_last(), m, key);
        if i < t.len() {
            lemma_insert_members(s.drop_last(), m, key, i);
            if t[i] != m {
                let j = choose|j: int| 0 <= j < s.drop_last().len() && s.drop_last()[j] == t[i];
                assert(s[j] == t[i]);
            }
        } else {
            assert(t.push(s.last())[i] == s.last());
            assert(s[s.len() - 1] == s.last());
        }
    }
}

/// Inserting into a sorted sequence gives a sorted one.
proof fn lemma_insert_sorted<M>(s: Seq<M>, m: M, key: spec_fn(M) -> Seq<u8>)
    requires
        sorted_by_key(s, key),
    ensures
        sorted_by_key(insert_stably(s, m, key), key),
    decreases s.len(),
{
    let out = insert_stably(s, m, key);
    lemma_insert_multiset(s, m, key);
    if s.len() == 0 {
    } else if !order::key_lt(key(m), key(s.last())) {
        assert forall|i: int, j: int| 0 <= i < j < out.len() implies order::key_le(
            key(#[trigger] out[i]),
            key(#[trigger] out[j]),
        ) by {
            if j == s.len() {
                order::lemma_key_total(key(m), key(s.last()));
                assert(order::key_le(key(s.last()), key(m)));
                if i < s.len() - 1 {
                    assert(order::key_le(key(s[i]), key(s[s.len() - 1])));
                    if key(s[i]) != key(s.last()) && key(s.last()) != key(m) {
                        order::lemma_key_transitive(key(s[i]), key(s.last()), key(m));
                    }
                }
            } else {
                assert(out[i] == s[i] && out[j] == s[j]);
            }
        }
    } else {
        let t = s.drop_last();
        assert(sorted_by_key(t, key)) by {
            assert forall|i: int, j: int| 0 <= i < j < t.len() implies order::key_le(
                key(#[trigger] t[i]),
                key(#[trigger] t[j]),
            ) by {
                assert(t[i] == s[i] && t[j] == s[j]);
            }
        }
        lemma_insert_sorted(t, m, key);
        let u = insert_stably(t, m, key);
        lemma_insert_multiset(t, m, key);
        assert forall|i: int, j: int| 0 <= i < j < out.len() implies order::key_le(
            key(#[trigger] out[i]),
            key(#[trigger] out[j]),
        ) by {
            if j == out.len() - 1 {
                assert(out[j] == s.last());
                assert(out[i] == u[i]);
                lemma_insert_members(t, m, key, i);
                if u[i] != m {
                    let k = choose|k: int| 0 <= k < t.len() && t[k] == u[i];
                    assert(s[k] == t[k]);
                    assert(order::key_le(key(s[k]), key(s[s.len() - 1])));
                }
            } else {
                assert(out[i] == u[i] && out[j] == u[j]);
            }
        }
    }
}

/// What was sorted is in order.
pub proof fn law_sort_ascends<M>(s: Seq<M>, key: spec_fn(M) -> Seq<u8>)
    ensures
        sorted_by_key(stable_sort(s, key), key),
    decreases s.len(),
{
    if s.len() > 0 {
        law_sort_ascends(s.drop_last(), key);
        lemma_insert_sorted(stable_sort(s.drop_last(), key), s.last(), key);
    }
}

/// Sorting changes nothing about a sequence that is in order.
pub proof fn lemma_sort_of_sorted<M>(s: Seq<M>, key: spec_fn(M) -> Seq<u8>)
    requires
        sorted_by_key(s, key),
    ensures
        stable_sort(s, key) == s,
    decreases s.len(),
{
    if s.len() > 0 {
        let t = s.drop_last();
        assert forall|i: int, j: int| 0 <= i < j < t.len() implies order::key_le(
            key(#[trigger] t[i]),
            key(#[trigger] t[j]),
        ) by {
            assert(t[i] == s[i] && t[j] == s[j]);
        }
        lemma_sort_of_sorted(t, key);
        if t.len() > 0 {
            let (a, b) = (s[s.len() - 2], s[s.len() - 1]);
            assert(order::key_le(key(a), key(b)));
            assert(t.last() == a);
            if key_lt_of(key, b, a) {
                order::lemma_key_asymmetric(key(b), key(a));
            }
        }
        assert(s =~= t.push(s.last()));
    }
}

/// Keys that ascend do not descend.
pub proof fn lemma_strict_is_sorted<M>(s: Seq<M>, key: spec_fn(M) -> Seq<u8>)
    requires
        strictly_sorted(s, key),
    ensures
        sorted_by_key(s, key),
{
}

spec fn key_lt_of<M>(key: spec_fn(M) -> Seq<u8>, a: M, b: M) -> bool {
    order::key_lt(key(a), key(b))
}

/// Sorts by key; what has the same key stays in the order it had.
pub fn sort_by_key<T: Keyed>(v: Vec<T>) -> (out: Vec<T>)
    ensures
        views(out@) == stable_sort(views(v@), |m: T::V| T::key_of(m)),
{
    let ghost key = |m: T::V| T::key_of(m);
    let mut out: Vec<T> = Vec::new();
    let mut rest: Vec<T> = v;
    let ghost all = views(v@);
    let ghost mut done: int = 0;
    proof {
        assert(views(out@) =~= stable_sort(all.take(0), key));
        assert(views(rest@) =~= all.skip(0));
    }
    while rest.len() > 0
        invariant
            0 <= done <= all.len(),
            views(rest@) == all.skip(done),
            views(out@) == stable_sort(all.take(done), key),
            key == (|m: T::V| T::key_of(m)),
        decreases rest@.len(),
    {
        let ghost before = views(rest@);
        let item: T = rest.remove(0);
        proof {
            assert(before[0] == item@);
            assert(all.skip(done).len() > 0 && all.skip(done)[0] == all[done]);
            assert(item@ == all[done]);
            assert(views(rest@) =~= before.skip(1));
            assert(before.skip(1) =~= all.skip(done + 1));
            assert(all.take(done + 1).drop_last() =~= all.take(done));
            assert(all.take(done + 1).last() == item@);
            done = done + 1;
        }
        insert_one(&mut out, item);
    }
    assert(views(rest@).len() == 0);
    assert(all.take(done) =~= all);
    out
}

/// Inserts one value behind everything whose key is not greater.
fn insert_one<T: Keyed>(v: &mut Vec<T>, item: T)
    ensures
        views(final(v)@) == insert_stably(views(old(v)@), item@, |m: T::V| T::key_of(m)),
{
    let ghost key = |m: T::V| T::key_of(m);
    let ghost all = views(v@);
    let mut at: usize = v.len();
    assert(all.take(at as int) =~= all);
    assert(insert_stably(all, item@, key) =~= insert_stably(all.take(at as int), item@, key)
        + all.skip(at as int));
    while at > 0
        invariant
            at <= v@.len(),
            all == views(v@),
            key == (|m: T::V| T::key_of(m)),
            insert_stably(all, item@, key) == insert_stably(all.take(at as int), item@, key)
                + all.skip(at as int),
        ensures
            at > 0 ==> !order::key_lt(key(item@), key(all[at - 1])),
        decreases at,
    {
        assert(all.take(at as int).last() == all[at - 1]);
        if matches!(order_keys(item.key_bytes(), v[at - 1].key_bytes()), KeyOrder::Before) {
            proof {
                assert(all.take(at as int).drop_last() =~= all.take(at - 1));
                let front = insert_stably(all.take(at - 1), item@, key);
                assert(front.push(all[at - 1]) + all.skip(at as int) =~= front + all.skip(at - 1));
            }
            at = at - 1;
        } else {
            break;
        }
    }
    proof {
        if at > 0 {
            assert(all.take(at as int).last() == all[at - 1]);
        }
        assert(insert_stably(all.take(at as int), item@, key) =~= all.take(at as int).push(item@));
        assert(all.take(at as int).push(item@) + all.skip(at as int) =~= all.insert(
            at as int,
            item@,
        ));
    }
    v.insert(at, item);
    assert(views(v@) =~= all.insert(at as int, item@));
}

/// The entry has the key.
pub open spec fn has_this_key<M>(key: spec_fn(M) -> Seq<u8>, k: Seq<u8>) -> spec_fn(M) -> bool {
    |m: M| key(m) == k
}

proof fn lemma_filter_push<M>(s: Seq<M>, m: M, p: spec_fn(M) -> bool)
    ensures
        s.push(m).filter(p) == (if p(m) {
            s.filter(p).push(m)
        } else {
            s.filter(p)
        }),
{
    reveal_with_fuel(Seq::filter, 1);
    assert(s.push(m).drop_last() =~= s);
    assert(s.push(m).last() == m);
}

proof fn lemma_insert_stable<M>(s: Seq<M>, m: M, key: spec_fn(M) -> Seq<u8>, k: Seq<u8>)
    ensures
        insert_stably(s, m, key).filter(has_this_key(key, k)) == s.push(m).filter(
            has_this_key(key, k),
        ),
    decreases s.len(),
{
    let p = has_this_key(key, k);
    if s.len() > 0 && order::key_lt(key(m), key(s.last())) {
        let (front, last) = (s.drop_last(), s.last());
        order::lemma_key_asymmetric(key(m), key(last));
        lemma_insert_stable(front, m, key, k);
        lemma_filter_push(insert_stably(front, m, key), last, p);
        lemma_filter_push(front, m, p);
        lemma_filter_push(front, last, p);
        lemma_filter_push(s, m, p);
        assert(front.push(last) =~= s);
    }
}

/// Sorting keeps the order of entries with the same key.
pub proof fn law_sort_is_stable<M>(s: Seq<M>, key: spec_fn(M) -> Seq<u8>, k: Seq<u8>)
    ensures
        stable_sort(s, key).filter(has_this_key(key, k)) == s.filter(has_this_key(key, k)),
    decreases s.len(),
{
    let p = has_this_key(key, k);
    if s.len() > 0 {
        let front = s.drop_last();
        law_sort_is_stable(front, key, k);
        lemma_insert_stable(stable_sort(front, key), s.last(), key, k);
        lemma_filter_push(stable_sort(front, key), s.last(), p);
        lemma_filter_push(front, s.last(), p);
        assert(front.push(s.last()) =~= s);
    }
}

} // verus!
