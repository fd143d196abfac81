//! A key-value column kept in ascending key order.
use vstd::prelude::*;

verus! {

/// A column key: a total, strict order and an equality test.
pub trait ColumnKey: Copy + Sized {
    spec fn lt(self, other: Self) -> bool;

    fn less(&self, other: &Self) -> (r: bool)
        ensures
            r == self.lt(*other),
    ;

    fn same(&self, other: &Self) -> (r: bool)
        ensures
            r == (*self == *other),
    ;

    proof fn lemma_order(a: Self, b: Self, c: Self)
        ensures
            !a.lt(a),
            a.lt(b) && b.lt(c) ==> a.lt(c),
            a != b ==> a.lt(b) || b.lt(a),
    ;
}

/// Entries in strictly ascending key order.
pub struct Column<K, V> {
    entries: Vec<(K, V)>,
}

/// Whether `s` is in strictly ascending key order.
pub open spec fn ascending<K: ColumnKey, V>(s: Seq<(K, V)>) -> bool {
    forall|i: int, j: int| 0 <= i < j < s.len() ==> (#[trigger] s[i]).0.lt((#[trigger] s[j]).0)
}

/// The map that the entries `s` spell.
pub open spec fn as_map<K: ColumnKey, V>(s: Seq<(K, V)>) -> Map<K, V> {
    Map::new(
        |k: K| exists|i: int| 0 <= i < s.len() && (#[trigger] s[i]).0 == k,
        |k: K| s[choose|i: int| 0 <= i < s.len() && (#[trigger] s[i]).0 == k].1,
    )
}

pub proof fn lemma_as_map_at<K: ColumnKey, V>(s: Seq<(K, V)>, i: int)
    requires
        ascending(s),
        0 <= i < s.len(),
    ensures
        as_map(s).contains_key(s[i].0),
        as_map(s)[s[i].0] == s[i].1,
{
    let k = s[i].0;
    assert(as_map(s).dom().contains(k));
    let j = choose|j: int| 0 <= j < s.len() && (#[trigger] s[j]).0 == k;
    if j != i {
        K::lemma_order(s[i].0, s[i].0, s[i].0);
        if j < i {
            assert(s[j].0.lt(s[i].0));
        } else {
            assert(s[i].0.lt(s[j].0));
        }
    }
}

impl<K: ColumnKey, V: Copy> View for Column<K, V> {
    type V = Map<K, V>;

    closed spec fn view(&self) -> Map<K, V> {
        as_map(self.entries@)
    }
}

impl<K: ColumnKey, V: Copy> Column<K, V> {
    pub closed spec fn entries_spec(&self) -> Seq<(K, V)> {
        self.entries@
    }

    pub closed spec fn wf(&self) -> bool {
        ascending(self.entries@)
    }

    pub fn new() -> (r: Self)
        ensures
            r.wf(),
            r@ == Map::<K, V>::empty(),
    {
        let r = Column { entries: Vec::new() };
        proof {
            assert(r@ =~= Map::<K, V>::empty());
        }
        r
    }

    /// The first position whose key is not below `k`.
    fn position(&self, k: &K) -> (r: usize)
        requires
            self.wf(),
        ensures
            r <= self.entries@.len(),
            forall|j: int| 0 <= j < r ==> (#[trigger] self.entries@[j]).0.lt(*k),
            r < self.entries@.len() ==> !self.entries@[r as int].0.lt(*k),
    {
        let mut i: usize = 0;
        while i < self.entries.len()
            invariant
                i <= self.entries@.len(),
                forall|j: int| 0 <= j < i ==> (#[trigger] self.entries@[j]).0.lt(*k),
            decreases self.entries@.len() - i,
        {
            if !self.entries[i].0.less(k) {
                return i;
            }
            i = i + 1;
        }
        i
    }

    pub fn get(&self, k: &K) -> (r: Option<V>)
        requires
            self.wf(),
        ensures
            r == (if self@.contains_key(*k) {
                Some(self@[*k])
            } else {
                None
            }),
    {
        let p = self.position(k);
        if p < self.entries.len() && self.entries[p].0.same(k) {
            proof {
                lemma_as_map_at(self.entries@, p as int);
            }
            Some(self.entries[p].1)
        } else {
            proof {
                if self@.contains_key(*k) {
                    let j = choose|j: int| 0 <= j < self.entries@.len() && (#[trigger] self.entries@[j]).0 == *k;
                    K::lemma_order(*k, *k, *k);
                    if j >= p {
                        if j > p {
                            assert(self.entries@[p as int].0.lt(self.entries@[j].0));
                            K::lemma_order(self.entries@[p as int].0, *k, *k);
                        }
                        K::lemma_order(self.entries@[p as int].0, *k, self.entries@[p as int].0);
                    }
                }
            }
            None
        }
    }

    /// Writes `v` under `k`.
    pub fn put(&mut self, k: K, v: V)
        requires
            old(self).wf(),
        ensures
            final(self).wf(),
            final(self)@ == old(self)@.insert(k, v),
    {
        let p = self.position(&k);
        let ghost s0 = self.entries@;
        if p < self.entries.len() && self.entries[p].0.same(&k) {
            self.entries.remove(p);
            self.entries.insert(p, (k, v));
            proof {
                let s1 = self.entries@;
                assert(s1 =~= s0.update(p as int, (k, v)));
                assert(ascending(s1)) by {
                    assert forall|i: int, j: int| 0 <= i < j < s1.len() implies (#[trigger] s1[i]).0.lt(
                        (#[trigger] s1[j]).0,
                    ) by {
                        assert(s0[i].0.lt(s0[j].0));
                    }
                }
                lemma_update_map(s0, p as int, v);
            }
        } else {
            self.entries.insert(p, (k, v));
            proof {
                let s1 = self.entries@;
                assert(ascending(s1)) by {
                    assert forall|i: int, j: int| 0 <= i < j < s1.len() implies (#[trigger] s1[i]).0.lt(
                        (#[trigger] s1[j]).0,
                    ) by {
                        if p < s0.len() {
                            K::lemma_order(k, s0[p as int].0, s0[p as int].0);
                        }
                        if i < p && j == p {
                        } else if i < p && j > p {
                            assert(s1[j] == s0[j - 1]);
                        } else if i == p && j > p {
                            assert(s1[j] == s0[j - 1]);
                            if j - 1 > p {
                                assert(s0[p as int].0.lt(s0[j - 1].0));
                                K::lemma_order(k, s0[p as int].0, s0[j - 1].0);
                            }
                        } else if i > p {
                            assert(s1[i] == s0[i - 1]);
                            assert(s1[j] == s0[j - 1]);
                        }
                    }
                }
                lemma_insert_map(s0, p as int, k, v);
            }
        }
    }

    /// Removes what is stored under `k`.
    pub fn delete(&mut self, k: &K)
        requires
            old(self).wf(),
        ensures
            final(self).wf(),
            final(self)@ == old(self)@.remove(*k),
    {
        let p = self.position(k);
        let ghost s0 = self.entries@;
        if p < self.entries.len() && self.entries[p].0.same(k) {
            self.entries.remove(p);
            proof {
                let s1 = self.entries@;
                assert(ascending(s1)) by {
                    assert forall|i: int, j: int| 0 <= i < j < s1.len() implies (#[trigger] s1[i]).0.lt(
                        (#[trigger] s1[j]).0,
                    ) by {
                        if i < p && j >= p {
                            assert(s1[j] == s0[j + 1]);
                        } else if i >= p {
                            assert(s1[i] == s0[i + 1]);
                            assert(s1[j] == s0[j + 1]);
                        }
                    }
                }
                lemma_remove_map(s0, p as int);
            }
        } else {
            proof {
                assert(!old(self)@.contains_key(*k)) by {
                    if as_map(s0).contains_key(*k) {
                        let j = choose|j: int| 0 <= j < s0.len() && (#[trigger] s0[j]).0 == *k;
                        K::lemma_order(*k, *k, *k);
                        if j >= p {
                            if j > p {
                                assert(s0[p as int].0.lt(s0[j].0));
                            }
                            K::lemma_order(s0[p as int].0, *k, s0[p as int].0);
                        }
                    }
                }
                assert(as_map(s0).remove(*k) =~= as_map(s0));
            }
        }
    }

    /// The entries in ascending key order.
    pub fn entries(&self) -> (r: &Vec<(K, V)>)
        ensures
            r@ == self.entries_spec(),
    {
        &self.entries
    }

    pub proof fn lemma_entries(&self)
        requires
            self.wf(),
        ensures
            ascending(self.entries_spec()),
            self@ == as_map(self.entries_spec()),
    {
    }
}

proof fn lemma_update_map<K: ColumnKey, V>(s0: Seq<(K, V)>, p: int, v: V)
    requires
        ascending(s0),
        0 <= p < s0.len(),
        ascending(s0.update(p, (s0[p].0, v))),
    ensures
        as_map(s0.update(p, (s0[p].0, v))) == as_map(s0).insert(s0[p].0, v),
{
    let k = s0[p].0;
    let s1 = s0.update(p, (k, v));
    assert forall|x: K| #[trigger] as_map(s1).contains_key(x) <==> as_map(s0).insert(k, v).contains_key(x) by {
        if as_map(s0).contains_key(x) {
            let j = choose|j: int| 0 <= j < s0.len() && (#[trigger] s0[j]).0 == x;
            assert(s1[j].0 == x);
        }
        if as_map(s1).contains_key(x) {
            let j = choose|j: int| 0 <= j < s1.len() && (#[trigger] s1[j]).0 == x;
            assert(s0[j].0 == x);
        }
        if x == k {
            assert(s1[p].0 == x);
        }
    }
    assert forall|x: K| #[trigger] as_map(s1).contains_key(x) implies as_map(s1)[x] == as_map(s0).insert(
        k,
        v,
    )[x] by {
        let j = choose|j: int| 0 <= j < s1.len() && (#[trigger] s1[j]).0 == x;
        lemma_as_map_at(s1, j);
        if j != p {
            assert(s0[j] == s1[j]);
            lemma_as_map_at(s0, j);
            K::lemma_order(x, x, x);
            if j < p {
                assert(s1[j].0.lt(s1[p].0));
            } else {
                assert(s1[p].0.lt(s1[j].0));
            }
            assert(x != k);
        }
    }
    assert(as_map(s1) =~= as_map(s0).insert(k, v));
}

proof fn lemma_insert_map<K: ColumnKey, V>(s0: Seq<(K, V)>, p: int, k: K, v: V)
    requires
        ascending(s0),
        0 <= p <= s0.len(),
        ascending(s0.insert(p, (k, v))),
    ensures
        as_map(s0.insert(p, (k, v))) == as_map(s0).insert(k, v),
{
    let s1 = s0.insert(p, (k, v));
    assert forall|x: K| #[trigger] as_map(s1).contains_key(x) <==> as_map(s0).insert(k, v).contains_key(x) by {
        if as_map(s0).contains_key(x) {
            let j = choose|j: int| 0 <= j < s0.len() && (#[trigger] s0[j]).0 == x;
            if j < p {
                assert(s1[j].0 == x);
            } else {
                assert(s1[j + 1].0 == x);
            }
        }
        if as_map(s1).contains_key(x) {
            let j = choose|j: int| 0 <= j < s1.len() && (#[trigger] s1[j]).0 == x;
            if j < p {
                assert(s0[j].0 == x);
            } else if j > p {
                assert(s0[j - 1].0 == x);
            }
        }
        if x == k {
            assert(s1[p].0 == x);
        }
    }
    assert forall|x: K| #[trigger] as_map(s1).contains_key(x) implies as_map(s1)[x] == as_map(s0).insert(
        k,
        v,
    )[x] by {
        let j = choose|j: int| 0 <= j < s1.len() && (#[trigger] s1[j]).0 == x;
        lemma_as_map_at(s1, j);
        if j < p {
            assert(s0[j] == s1[j]);
            lemma_as_map_at(s0, j);
            lemma_as_map_at(s1, p);
        } else if j > p {
            assert(s0[j - 1] == s1[j]);
            lemma_as_map_at(s0, j - 1);
            lemma_as_map_at(s1, p);
        }
    }
    assert(as_map(s1) =~= as_map(s0).insert(k, v));
}

proof fn lemma_remove_map<K: ColumnKey, V>(s0: Seq<(K, V)>, p: int)
    requires
        ascending(s0),
        0 <= p < s0.len(),
        ascending(s0.remove(p)),
    ensures
        as_map(s0.remove(p)) == as_map(s0).remove(s0[p].0),
{
    let k = s0[p].0;
    let s1 = s0.remove(p);
    assert forall|x: K| #[trigger] as_map(s1).contains_key(x) <==> as_map(s0).remove(k).contains_key(x) by {
        if as_map(s0).contains_key(x) && x != k {
            let j = choose|j: int| 0 <= j < s0.len() && (#[trigger] s0[j]).0 == x;
            if j < p {
                assert(s1[j].0 == x);
            } else {
                assert(j != p);
                assert(s1[j - 1].0 == x);
            }
        }
        if as_map(s1).contains_key(x) {
            let j = choose|j: int| 0 <= j < s1.len() && (#[trigger] s1[j]).0 == x;
            if j < p {
                assert(s0[j].0 == x);
                assert(s0[j].0.lt(s0[p].0));
                K::lemma_order(x, x, x);
            } else {
                assert(s0[j + 1].0 == x);
                assert(s0[p].0.lt(s0[j + 1].0));
                K::lemma_order(x, x, x);
            }
        }
    }
    assert forall|x: K| #[trigger] as_map(s1).contains_key(x) implies as_map(s1)[x] == as_map(s0).remove(
        k,
    )[x] by {
        let j = choose|j: int| 0 <= j < s1.len() && (#[trigger] s1[j]).0 == x;
        lemma_as_map_at(s1, j);
        if j < p {
            lemma_as_map_at(s0, j);
        } else {
            lemma_as_map_at(s0, j + 1);
        }
    }
    assert(as_map(s1) =~= as_map(s0).remove(k));
}

} // verus!
