//! A map from keys to values, kept in the order of the keys.
use vstd::prelude::*;
use crate::order;
use crate::order::{order_keys, KeyOrder};

verus! {

/// The pairs are in ascending order of their keys.
pub open spec fn ascending<M>(s: Seq<(Seq<u8>, M)>) -> bool {
    forall|i: int, j: int|
        #![trigger s[i], s[j]]
        0 <= i < j < s.len() ==> order::key_lt(s[i].0, s[j].0)
}

/// Some pair has the key `k`.
pub open spec fn has_key<M>(s: Seq<(Seq<u8>, M)>, k: Seq<u8>) -> bool {
    exists|i: int| 0 <= i < s.len() && (#[trigger] s[i]).0 == k
}

/// The place of the pair with the key `k`.
pub open spec fn place<M>(s: Seq<(Seq<u8>, M)>, k: Seq<u8>) -> int {
    choose|i: int| 0 <= i < s.len() && (#[trigger] s[i]).0 == k
}

/// The map that the pairs list.
pub open spec fn listed<M>(s: Seq<(Seq<u8>, M)>) -> Map<Seq<u8>, M> {
    Map::new(|k: Seq<u8>| has_key(s, k), |k: Seq<u8>| s[place(s, k)].1)
}

/// `s` lists the entries of `m` in ascending order of the keys.
pub open spec fn lists<M>(s: Seq<(Seq<u8>, M)>, m: Map<Seq<u8>, M>) -> bool {
    ascending(s) && listed(s) == m
}

/// Where the pairs ascend, each of them is an entry of the map.
pub proof fn lemma_listed<M>(s: Seq<(Seq<u8>, M)>, i: int)
    requires
        ascending(s),
        0 <= i < s.len(),
    ensures
        has_key(s, s[i].0),
        place(s, s[i].0) == i,
        listed(s)[s[i].0] == s[i].1,
        listed(s).dom().contains(s[i].0),
{
    let k = s[i].0;
    let j = place(s, k);
    assert(s[j].0 == k);
    order::lemma_key_irreflexive(k);
    if j < i {
        assert(order::key_lt(s[j].0, s[i].0));
    } else if i < j {
        assert(order::key_lt(s[i].0, s[j].0));
    }
}

/// Two ascending listings of one map are the same.
pub proof fn law_listing_unique<M>(a: Seq<(Seq<u8>, M)>, b: Seq<(Seq<u8>, M)>)
    requires
        ascending(a),
        ascending(b),
        listed(a) == listed(b),
    ensures
        a == b,
    decreases a.len(),
{
    if a.len() == 0 {
        if b.len() > 0 {
            lemma_listed(b, 0);
            assert(has_key(a, b[0].0));
        }
        assert(a =~= b);
    } else {
        lemma_listed(a, a.len() - 1);
        let (ka, va) = a.last();
        assert(has_key(b, ka));
        let j = place(b, ka);
        assert(b[j].0 == ka);
        lemma_listed(b, j);
        if j < b.len() - 1 {
            let kb = b.last().0;
            lemma_listed(b, b.len() - 1);
            assert(has_key(a, kb));
            let i = place(a, kb);
            assert(order::key_lt(b[j].0, b[b.len() - 1].0));
            if i < a.len() - 1 {
                assert(order::key_lt(a[i].0, a[a.len() - 1].0));
                order::lemma_key_asymmetric(ka, kb);
            } else {
                order::lemma_key_irreflexive(ka);
            }
        }
        let (a1, b1) = (a.drop_last(), b.drop_last());
        lemma_drop_last(a);
        lemma_drop_last(b);
        law_listing_unique(a1, b1);
        assert(a =~= a1.push(a.last()));
        assert(b =~= b1.push(b.last()));
    }
}

/// Without its last pair a listing lists the map without that key.
pub proof fn lemma_drop_last<M>(s: Seq<(Seq<u8>, M)>)
    requires
        ascending(s),
        s.len() > 0,
    ensures
        ascending(s.drop_last()),
        listed(s.drop_last()) == listed(s).remove(s.last().0),
{
    let t = s.drop_last();
    assert forall|i: int, j: int| 0 <= i < j < t.len() implies order::key_lt(
        (#[trigger] t[i]).0,
        (#[trigger] t[j]).0,
    ) by {
        assert(t[i] == s[i] && t[j] == s[j]);
    }
    lemma_listed(s, s.len() - 1);
    assert forall|k: Seq<u8>| #[trigger] listed(t).dom().contains(k) implies listed(s).remove(
        s.last().0,
    ).dom().contains(k) && listed(s)[k] == listed(t)[k] by {
        let i = place(t, k);
        assert(t[i] == s[i]);
        lemma_listed(s, i);
        lemma_listed(t, i);
    }
    assert forall|k: Seq<u8>| listed(s).remove(s.last().0).dom().contains(k) implies #[trigger] listed(
        t,
    ).dom().contains(k) by {
        let i = place(s, k);
        assert(s[i].0 == k);
        assert(t[i] == s[i]);
    }
    assert(listed(t) =~= listed(s).remove(s.last().0));
}

/// A map from keys to values, kept in the order of the keys.
pub struct KeyMap<T: View> {
    entries: Vec<(Vec<u8>, T)>,
}

/// The pairs that executable pairs stand for.
pub open spec fn pairs<T: View>(s: Seq<(Vec<u8>, T)>) -> Seq<(Seq<u8>, T::V)> {
    Seq::new(s.len(), |i: int| (s[i].0@, s[i].1@))
}

impl<T: View> View for KeyMap<T> {
    type V = Map<Seq<u8>, T::V>;

    closed spec fn view(&self) -> Map<Seq<u8>, T::V> {
        listed(pairs(self.entries@))
    }
}

/// Putting a pair into its place in a listing.
proof fn lemma_insert_new<M>(s: Seq<(Seq<u8>, M)>, at: int, k: Seq<u8>, m: M)
    requires
        ascending(s),
        0 <= at <= s.len(),
        forall|i: int| 0 <= i < at ==> order::key_lt((#[trigger] s[i]).0, k),
        forall|i: int| at <= i < s.len() ==> order::key_lt(k, (#[trigger] s[i]).0),
    ensures
        ascending(s.insert(at, (k, m))),
        listed(s.insert(at, (k, m))) == listed(s).insert(k, m),
{
    let t = s.insert(at, (k, m));
    assert forall|i: int, j: int| 0 <= i < j < t.len() implies order::key_lt(
        (#[trigger] t[i]).0,
        (#[trigger] t[j]).0,
    ) by {
        let a = if i < at {
            i
        } else {
            i - 1
        };
        let b = if j < at {
            j
        } else {
            j - 1
        };
        if i == at {
            assert(t[j] == s[j - 1]);
        } else if j == at {
            assert(t[i] == s[i]);
        } else {
            assert(t[i] == s[a] && t[j] == s[b]);
        }
    }
    lemma_same_entries(t, listed(s).insert(k, m), at, s);
}

/// Putting a pair behind a listing.
pub proof fn lemma_append<M>(s: Seq<(Seq<u8>, M)>, k: Seq<u8>, m: M)
    requires
        ascending(s),
        forall|i: int| 0 <= i < s.len() ==> order::key_lt((#[trigger] s[i]).0, k),
    ensures
        ascending(s.push((k, m))),
        listed(s.push((k, m))) == listed(s).insert(k, m),
{
    lemma_insert_new(s, s.len() as int, k, m);
    assert(s.insert(s.len() as int, (k, m)) =~= s.push((k, m)));
}

proof fn lemma_same_entries<M>(
    t: Seq<(Seq<u8>, M)>,
    want: Map<Seq<u8>, M>,
    at: int,
    s: Seq<(Seq<u8>, M)>,
)
    requires
        ascending(t),
        ascending(s),
        0 <= at < t.len(),
        t == s.insert(at, t[at]),
        at <= s.len(),
        want == listed(s).insert(t[at].0, t[at].1),
    ensures
        listed(t) == want,
{
    lemma_listed(t, at);
    assert forall|x: Seq<u8>| #[trigger] want.dom().contains(x) implies listed(t).dom().contains(x)
        && listed(t)[x] == want[x] by {
        if x != t[at].0 {
            let i = place(s, x);
            assert(s[i].0 == x);
            lemma_listed(s, i);
            let j = if i < at {
                i
            } else {
                i + 1
            };
            assert(t[j] == s[i]);
            lemma_listed(t, j);
        }
    }
    assert forall|x: Seq<u8>| #[trigger] listed(t).dom().contains(x) implies want.dom().contains(
        x,
    ) by {
        let j = place(t, x);
        assert(t[j].0 == x);
        if j != at {
            let i = if j < at {
                j
            } else {
                j - 1
            };
            assert(t[j] == s[i]);
            lemma_listed(s, i);
        }
    }
    assert(listed(t) =~= want);
}

/// Replacing the value of a pair.
proof fn lemma_update<M>(s: Seq<(Seq<u8>, M)>, at: int, m: M)
    requires
        ascending(s),
        0 <= at < s.len(),
    ensures
        ascending(s.update(at, (s[at].0, m))),
        listed(s.update(at, (s[at].0, m))) == listed(s).insert(s[at].0, m),
{
    let k = s[at].0;
    let t = s.update(at, (k, m));
    assert forall|i: int, j: int| 0 <= i < j < t.len() implies order::key_lt(
        (#[trigger] t[i]).0,
        (#[trigger] t[j]).0,
    ) by {
        assert(t[i].0 == s[i].0 && t[j].0 == s[j].0);
    }
    let want = listed(s).insert(k, m);
    lemma_listed(t, at);
    assert forall|x: Seq<u8>| #[trigger] want.dom().contains(x) implies listed(t).dom().contains(x)
        && listed(t)[x] == want[x] by {
        if x != k {
            let i = place(s, x);
            assert(s[i].0 == x);
            lemma_listed(s, i);
            assert(t[i] == s[i]);
            lemma_listed(t, i);
        }
    }
    assert forall|x: Seq<u8>| #[trigger] listed(t).dom().contains(x) implies want.dom().contains(
        x,
    ) by {
        let j = place(t, x);
        assert(t[j].0 == x);
        lemma_listed(s, j);
    }
    assert(listed(t) =~= want);
}

/// Taking a pair out of a listing.
proof fn lemma_remove<M>(s: Seq<(Seq<u8>, M)>, at: int)
    requires
        ascending(s),
        0 <= at < s.len(),
    ensures
        ascending(s.remove(at)),
        listed(s.remove(at)) == listed(s).remove(s[at].0),
{
    let k = s[at].0;
    let t = s.remove(at);
    assert forall|i: int, j: int| 0 <= i < j < t.len() implies order::key_lt(
        (#[trigger] t[i]).0,
        (#[trigger] t[j]).0,
    ) by {
        let a = if i < at {
            i
        } else {
            i + 1
        };
        let b = if j < at {
            j
        } else {
            j + 1
        };
        assert(t[i] == s[a] && t[j] == s[b]);
    }
    let want = listed(s).remove(k);
    lemma_listed(s, at);
    assert forall|x: Seq<u8>| #[trigger] want.dom().contains(x) implies listed(t).dom().contains(x)
        && listed(t)[x] == want[x] by {
        let i = place(s, x);
        assert(s[i].0 == x);
        lemma_listed(s, i);
        let j = if i < at {
            i
        } else {
            i - 1
        };
        assert(t[j] == s[i]);
        lemma_listed(t, j);
    }
    assert forall|x: Seq<u8>| #[trigger] listed(t).dom().contains(x) implies want.dom().contains(
        x,
    ) by {
        let j = place(t, x);
        let i = if j < at {
            j
        } else {
            j + 1
        };
        assert(t[j] == s[i]);
        lemma_listed(s, i);
    }
    assert(listed(t) =~= want);
}

impl<T: View> KeyMap<T> {
    #[verifier::type_invariant]
    spec fn inv(self) -> bool {
        ascending(pairs(self.entries@))
    }

    /// The empty map.
    pub fn new() -> (m: KeyMap<T>)
        ensures
            m@ == Map::<Seq<u8>, T::V>::empty(),
    {
        let entries: Vec<(Vec<u8>, T)> = Vec::new();
        assert(listed(pairs(entries@)) =~= Map::empty());
        KeyMap { entries }
    }

    /// How many keys come before `key`, and whether `key` is there.
    fn find(&self, key: &[u8]) -> (r: (bool, usize))
        ensures
            r.1 <= self.entries@.len(),
            forall|i: int|
                0 <= i < r.1 ==> order::key_lt((#[trigger] self.entries@[i]).0@, key@),
            r.0 ==> r.1 < self.entries@.len() && self.entries@[r.1 as int].0@ == key@,
            !r.0 ==> forall|i: int|
                r.1 <= i < self.entries@.len() ==> order::key_lt(
                    key@,
                    (#[trigger] self.entries@[i]).0@,
                ),
    {
        proof {
            use_type_invariant(self);
        }
        let ghost s = pairs(self.entries@);
        let mut left: usize = 0;
        let mut right: usize = self.entries.len();
        while left < right
            invariant
                left <= right <= self.entries@.len(),
                s == pairs(self.entries@),
                ascending(s),
                forall|i: int|
                    0 <= i < left ==> order::key_lt((#[trigger] self.entries@[i]).0@, key@),
                forall|i: int|
                    right <= i < self.entries@.len() ==> order::key_lt(
                        key@,
                        (#[trigger] self.entries@[i]).0@,
                    ),
            decreases right - left,
        {
            let mid: usize = left + (right - left) / 2;
            match order_keys(self.entries[mid].0.as_slice(), key) {
                KeyOrder::Same => {
                    assert forall|i: int| 0 <= i < mid implies order::key_lt(
                        (#[trigger] self.entries@[i]).0@,
                        key@,
                    ) by {
                        assert(order::key_lt(s[i].0, s[mid as int].0));
                    }
                    return (true, mid);
                },
                KeyOrder::Before => {
                    assert forall|i: int| 0 <= i < mid + 1 implies order::key_lt(
                        (#[trigger] self.entries@[i]).0@,
                        key@,
                    ) by {
                        if i < mid {
                            assert(order::key_lt(s[i].0, s[mid as int].0));
                            order::lemma_key_transitive(s[i].0, s[mid as int].0, key@);
                        }
                    }
                    left = mid + 1;
                },
                KeyOrder::After => {
                    assert forall|i: int| mid <= i < self.entries@.len() implies order::key_lt(
                        key@,
                        (#[trigger] self.entries@[i]).0@,
                    ) by {
                        if mid < i {
                            assert(order::key_lt(s[mid as int].0, s[i].0));
                            order::lemma_key_transitive(key@, s[mid as int].0, s[i].0);
                        }
                    }
                    right = mid;
                },
            }
        }
        (false, left)
    }

    /// The value of `key`.
    pub fn get(&self, key: &[u8]) -> (r: Option<&T>)
        ensures
            match r {
                Some(value) => self@.dom().contains(key@) && self@[key@] == value@,
                None => !self@.dom().contains(key@),
            },
    {
        proof {
            use_type_invariant(self);
        }
        let ghost s = pairs(self.entries@);
        let (found, at) = self.find(key);
        if found {
            proof {
                lemma_listed(s, at as int);
            }
            Some(&self.entries[at].1)
        } else {
            proof {
                if has_key(s, key@) {
                    let i = place(s, key@);
                    assert(s[i].0 == key@);
                    order::lemma_key_irreflexive(key@);
                    assert(order::key_lt(self.entries@[i].0@, key@) || order::key_lt(
                        key@,
                        self.entries@[i].0@,
                    ));
                }
            }
            None
        }
    }

    /// Sets the value of `key`.
    pub fn insert(&mut self, key: Vec<u8>, value: T)
        ensures
            final(self)@ == old(self)@.insert(key@, value@),
    {
        proof {
            use_type_invariant(&*self);
        }
        let (found, at) = self.find(key.as_slice());
        let ghost s = pairs(self.entries@);
        let ghost (k, v) = (key@, value@);
        let mut fresh: KeyMap<T> = KeyMap::new();
        std::mem::swap(self, &mut fresh);
        let KeyMap { mut entries } = fresh;
        if found {
            entries.set(at, (key, value));
            proof {
                assert(pairs(entries@) =~= s.update(at as int, (s[at as int].0, v)));
                lemma_update(s, at as int, v);
            }
        } else {
            proof {
                assert forall|i: int| 0 <= i < at implies order::key_lt((#[trigger] s[i]).0, k) by {
                    assert(s[i].0 == entries@[i].0@);
                }
                assert forall|i: int| at <= i < s.len() implies order::key_lt(
                    k,
                    (#[trigger] s[i]).0,
                ) by {
                    assert(s[i].0 == entries@[i].0@);
                }
                lemma_insert_new(s, at as int, k, v);
            }
            entries.insert(at, (key, value));
            assert(pairs(entries@) =~= s.insert(at as int, (k, v)));
        }
        *self = KeyMap { entries };
    }

    /// Takes `key` out.
    pub fn remove(&mut self, key: &[u8])
        ensures
            final(self)@ == old(self)@.remove(key@),
    {
        proof {
            use_type_invariant(&*self);
        }
        let ghost s = pairs(self.entries@);
        let (found, at) = self.find(key);
        if found {
            let mut fresh: KeyMap<T> = KeyMap::new();
            std::mem::swap(self, &mut fresh);
            let KeyMap { mut entries } = fresh;
            entries.remove(at);
            proof {
                assert(pairs(entries@) =~= s.remove(at as int));
                lemma_remove(s, at as int);
            }
            *self = KeyMap { entries };
        } else {
            proof {
                if has_key(s, key@) {
                    let i = place(s, key@);
                    assert(s[i].0 == key@);
                    order::lemma_key_irreflexive(key@);
                    assert(order::key_lt(self.entries@[i].0@, key@) || order::key_lt(
                        key@,
                        self.entries@[i].0@,
                    ));
                }
                assert(self@.remove(key@) =~= self@);
            }
        }
    }

    /// The number of keys.
    pub fn len(&self) -> (n: usize)
        ensures
            n == self@.dom().len(),
            self@.dom().finite(),
    {
        proof {
            use_type_invariant(self);
            lemma_listing_len(pairs(self.entries@));
        }
        self.entries.len()
    }

    /// The entries, in ascending order of the keys.
    pub fn into_entries(self) -> (out: Vec<(Vec<u8>, T)>)
        ensures
            lists(pairs(out@), self@),
    {
        proof {
            use_type_invariant(&self);
        }
        self.entries
    }
}

/// A listing is as long as its map is large.
pub proof fn lemma_listing_len<M>(s: Seq<(Seq<u8>, M)>)
    requires
        ascending(s),
    ensures
        listed(s).dom().finite(),
        listed(s).dom().len() == s.len(),
    decreases s.len(),
{
    if s.len() == 0 {
        assert(listed(s).dom() =~= Set::empty());
    } else {
        lemma_drop_last(s);
        lemma_listing_len(s.drop_last());
        lemma_listed(s, s.len() - 1);
        assert(listed(s).dom() =~= listed(s.drop_last()).dom().insert(s.last().0));
    }
}

} // verus!
