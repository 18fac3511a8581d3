//! A map from text keys to values, kept as a list of entries in which no key
//! occurs twice.
use vstd::prelude::*;
use crate::text::{eq_chars, subvec, views};

verus! {

/// Entries with text keys.
pub struct AssocList<V> {
    entries: Vec<(Vec<char>, V)>,
}

/// No key occurs twice.
pub open spec fn keys_unique<V>(e: Seq<(Vec<char>, V)>) -> bool {
    forall|i: int, j: int| 0 <= i < j < e.len() ==> #[trigger] e[i].0@ != #[trigger] e[j].0@
}

/// Some entry has key `k`.
pub open spec fn has_key<V>(e: Seq<(Vec<char>, V)>, k: Seq<char>) -> bool {
    exists|i: int| 0 <= i < e.len() && #[trigger] e[i].0@ == k
}

/// The map that the entries stand for.
pub open spec fn assoc_map<V: DeepView>(e: Seq<(Vec<char>, V)>) -> Map<Seq<char>, V::V> {
    Map::new(
        |k: Seq<char>| has_key(e, k),
        |k: Seq<char>| e[choose|i: int| 0 <= i < e.len() && #[trigger] e[i].0@ == k].1.deep_view(),
    )
}

proof fn lemma_assoc_at<V: DeepView>(e: Seq<(Vec<char>, V)>, i: int)
    requires
        keys_unique(e),
        0 <= i < e.len(),
    ensures
        assoc_map(e).dom().contains(e[i].0@),
        assoc_map(e)[e[i].0@] == e[i].1.deep_view(),
{
    let k = e[i].0@;
    assert(has_key(e, k));
    let j = choose|j: int| 0 <= j < e.len() && #[trigger] e[j].0@ == k;
    if j != i {
        if j < i {
            assert(e[j].0@ != e[i].0@);
        } else {
            assert(e[i].0@ != e[j].0@);
        }
    }
}

impl<V: DeepView> View for AssocList<V> {
    type V = Map<Seq<char>, V::V>;

    closed spec fn view(&self) -> Map<Seq<char>, V::V> {
        assoc_map(self.entries@)
    }
}

impl<V: DeepView> AssocList<V> {
    /// The entries have distinct keys.
    pub closed spec fn wf(&self) -> bool {
        keys_unique(self.entries@)
    }

    /// An empty map.
    pub fn new() -> (m: Self)
        ensures
            m.wf(),
            m@ == Map::<Seq<char>, V::V>::empty(),
    {
        let m = AssocList { entries: Vec::new() };
        assert(m@ =~= Map::<Seq<char>, V::V>::empty());
        m
    }

    fn find(&self, key: &[char]) -> (r: Option<usize>)
        requires
            self.wf(),
        ensures
            r matches Some(i) ==> i < self.entries@.len() && self.entries@[i as int].0@ == key@,
            r is None ==> !has_key(self.entries@, key@),
    {
        let mut i: usize = 0;
        while i < self.entries.len()
            invariant
                i <= self.entries@.len(),
                forall|j: int| 0 <= j < i ==> #[trigger] self.entries@[j].0@ != key@,
            decreases self.entries@.len() - i,
        {
            if eq_chars(self.entries[i].0.as_slice(), key) {
                return Some(i);
            }
            i = i + 1;
        }
        None
    }

    /// The value under `key`.
    pub fn get(&self, key: &[char]) -> (r: Option<&V>)
        requires
            self.wf(),
        ensures
            r matches Some(v) ==> self@.dom().contains(key@) && v.deep_view() == self@[key@],
            r is None ==> !self@.dom().contains(key@),
    {
        match self.find(key) {
            Some(i) => {
                proof {
                    lemma_assoc_at(self.entries@, i as int);
                }
                Some(&self.entries[i].1)
            },
            None => None,
        }
    }

    /// Sets the value under `key`, replacing any value it had.
    pub fn insert(&mut self, key: Vec<char>, value: V)
        requires
            old(self).wf(),
        ensures
            final(self).wf(),
            final(self)@ == old(self)@.insert(key@, value.deep_view()),
    {
        let ghost k = key@;
        let ghost vv = value.deep_view();
        let ghost old_map = self@;
        match self.find(key.as_slice()) {
            Some(i) => {
                let ghost before = self.entries@;
                self.entries.remove(i);
                self.entries.push((key, value));
                let ghost after = self.entries@;
                assert forall|a: int, b: int| 0 <= a < b < after.len() implies #[trigger] after[a].0@
                    != #[trigger] after[b].0@ by {
                    let oa = if a < i {
                        a
                    } else {
                        a + 1
                    };
                    if b == after.len() - 1 {
                        assert(after[a] == before[oa]);
                        if oa < i {
                            assert(before[oa].0@ != before[i as int].0@);
                        } else {
                            assert(before[i as int].0@ != before[oa].0@);
                        }
                    } else {
                        let ob = if b < i {
                            b
                        } else {
                            b + 1
                        };
                        assert(after[a] == before[oa]);
                        assert(after[b] == before[ob]);
                    }
                }
                proof {
                    lemma_assoc_at(after, after.len() - 1);
                    assert forall|q: Seq<char>| #![auto]
                        self@.dom().contains(q) == old_map.insert(k, vv).dom().contains(q) by {
                        if q != k {
                            if has_key(before, q) {
                                let j = choose|j: int| 0 <= j < before.len() && #[trigger] before[j].0@ == q;
                                let nj = if j < i {
                                    j
                                } else {
                                    j - 1
                                };
                                assert(after[nj] == before[j]);
                            }
                            if has_key(after, q) {
                                let j = choose|j: int| 0 <= j < after.len() && #[trigger] after[j].0@ == q;
                                if j < after.len() - 1 {
                                    let oj = if j < i {
                                        j
                                    } else {
                                        j + 1
                                    };
                                    assert(after[j] == before[oj]);
                                }
                            }
                        }
                    }
                    assert forall|q: Seq<char>| #[trigger] self@.dom().contains(q) implies self@[q]
                        == old_map.insert(k, vv)[q] by {
                        if q != k {
                            let j = choose|j: int| 0 <= j < after.len() && #[trigger] after[j].0@ == q;
                            assert(j < after.len() - 1);
                            let oj = if j < i {
                                j
                            } else {
                                j + 1
                            };
                            assert(after[j] == before[oj]);
                            lemma_assoc_at(after, j);
                            lemma_assoc_at(before, oj);
                        }
                    }
                    assert(self@ =~= old_map.insert(k, vv));
                }
            },
            None => {
                let ghost before = self.entries@;
                self.entries.push((key, value));
                let ghost after = self.entries@;
                assert forall|a: int, b: int| 0 <= a < b < after.len() implies #[trigger] after[a].0@
                    != #[trigger] after[b].0@ by {
                    if b == after.len() - 1 {
                        assert(after[a] == before[a]);
                        if before[a].0@ == k {
                            assert(has_key(before, k));
                        }
                    } else {
                        assert(after[a] == before[a]);
                        assert(after[b] == before[b]);
                    }
                }
                proof {
                    lemma_assoc_at(after, after.len() - 1);
                    assert forall|q: Seq<char>| #![auto]
                        self@.dom().contains(q) == old_map.insert(k, vv).dom().contains(q) by {
                        if q != k {
                            if has_key(before, q) {
                                let j = choose|j: int| 0 <= j < before.len() && #[trigger] before[j].0@ == q;
                                assert(after[j] == before[j]);
                            }
                            if has_key(after, q) {
                                let j = choose|j: int| 0 <= j < after.len() && #[trigger] after[j].0@ == q;
                                assert(j < after.len() - 1);
                                assert(after[j] == before[j]);
                            }
                        }
                    }
                    assert forall|q: Seq<char>| #[trigger] self@.dom().contains(q) implies self@[q]
                        == old_map.insert(k, vv)[q] by {
                        if q != k {
                            let j = choose|j: int| 0 <= j < after.len() && #[trigger] after[j].0@ == q;
                            assert(j < after.len() - 1);
                            assert(after[j] == before[j]);
                            lemma_assoc_at(after, j);
                            lemma_assoc_at(before, j);
                        }
                    }
                    assert(self@ =~= old_map.insert(k, vv));
                }
            },
        }
    }

    /// Removes and returns the value under `key`.
    pub fn take(&mut self, key: &[char]) -> (r: Option<V>)
        requires
            old(self).wf(),
        ensures
            final(self).wf(),
            final(self)@ == old(self)@.remove(key@),
            r matches Some(v) ==> old(self)@.dom().contains(key@) && v.deep_view() == old(
                self,
            )@[key@],
            r is None ==> !old(self)@.dom().contains(key@),
    {
        let ghost old_map = self@;
        match self.find(key) {
            Some(i) => {
                let ghost before = self.entries@;
                proof {
                    lemma_assoc_at(before, i as int);
                }
                let (_, v) = self.entries.remove(i);
                let ghost after = self.entries@;
                assert forall|a: int, b: int| 0 <= a < b < after.len() implies #[trigger] after[a].0@
                    != #[trigger] after[b].0@ by {
                    let oa = if a < i {
                        a
                    } else {
                        a + 1
                    };
                    let ob = if b < i {
                        b
                    } else {
                        b + 1
                    };
                    assert(after[a] == before[oa]);
                    assert(after[b] == before[ob]);
                }
                proof {
                    assert forall|q: Seq<char>| #![auto]
                        self@.dom().contains(q) == old_map.remove(key@).dom().contains(q) by {
                        if has_key(after, q) {
                            let j = choose|j: int| 0 <= j < after.len() && #[trigger] after[j].0@ == q;
                            let oj = if j < i {
                                j
                            } else {
                                j + 1
                            };
                            assert(after[j] == before[oj]);
                            if q == key@ {
                                if oj < i {
                                    assert(before[oj].0@ != before[i as int].0@);
                                } else {
                                    assert(before[i as int].0@ != before[oj].0@);
                                }
                            }
                        }
                        if q != key@ && has_key(before, q) {
                            let j = choose|j: int| 0 <= j < before.len() && #[trigger] before[j].0@ == q;
                            assert(j != i);
                            let nj = if j < i {
                                j
                            } else {
                                j - 1
                            };
                            assert(after[nj] == before[j]);
                        }
                    }
                    assert forall|q: Seq<char>| #[trigger] self@.dom().contains(q) implies self@[q]
                        == old_map.remove(key@)[q] by {
                        let j = choose|j: int| 0 <= j < after.len() && #[trigger] after[j].0@ == q;
                        let oj = if j < i {
                            j
                        } else {
                            j + 1
                        };
                        assert(after[j] == before[oj]);
                        lemma_assoc_at(after, j);
                        lemma_assoc_at(before, oj);
                    }
                    assert(self@ =~= old_map.remove(key@));
                }
                Some(v)
            },
            None => {
                assert(self@ =~= old_map.remove(key@));
                None
            },
        }
    }

    /// The number of keys.
    pub fn len(&self) -> (n: usize)
        requires
            self.wf(),
        ensures
            n == self@.dom().len(),
    {
        proof {
            lemma_assoc_len(self.entries@);
        }
        self.entries.len()
    }

    /// The keys, each once.
    pub fn keys(&self) -> (r: Vec<Vec<char>>)
        requires
            self.wf(),
        ensures
            r@.len() == self@.dom().len(),
            views(r@).no_duplicates(),
            forall|k: Seq<char>| #[trigger] self@.dom().contains(k) <==> views(r@).contains(k),
    {
        proof {
            lemma_assoc_len(self.entries@);
        }
        let mut r: Vec<Vec<char>> = Vec::new();
        let mut i: usize = 0;
        while i < self.entries.len()
            invariant
                i <= self.entries@.len(),
                keys_unique(self.entries@),
                r@.len() == i,
                forall|j: int| 0 <= j < i ==> #[trigger] r@[j]@ == self.entries@[j].0@,
            decreases self.entries@.len() - i,
        {
            let k = subvec(self.entries[i].0.as_slice(), 0, self.entries[i].0.len());
            assert(k@ =~= self.entries@[i as int].0@);
            r.push(k);
            i = i + 1;
        }
        let ghost rv = views(r@);
        assert forall|a: int, b: int| 0 <= a < rv.len() && 0 <= b < rv.len() && a != b implies rv[a]
            != rv[b] by {
            assert(rv[a] == self.entries@[a].0@ && rv[b] == self.entries@[b].0@);
            if a < b {
                assert(self.entries@[a].0@ != self.entries@[b].0@);
            } else {
                assert(self.entries@[b].0@ != self.entries@[a].0@);
            }
        }
        assert forall|k: Seq<char>| #[trigger] self@.dom().contains(k) <==> rv.contains(k) by {
            if self@.dom().contains(k) {
                let j = choose|j: int| 0 <= j < self.entries@.len() && #[trigger] self.entries@[j].0@ == k;
                assert(rv[j] == k);
            }
            if rv.contains(k) {
                let j = choose|j: int| 0 <= j < rv.len() && rv[j] == k;
                assert(self.entries@[j].0@ == k);
                assert(has_key(self.entries@, k));
            }
        }
        r
    }

    /// The key and value of the `i`-th entry.
    pub fn entry(&self, i: usize) -> (r: (&Vec<char>, &V))
        requires
            self.wf(),
            i < self@.dom().len(),
        ensures
            self@.dom().contains(r.0@),
            self@[r.0@] == r.1.deep_view(),
    {
        proof {
            lemma_assoc_len(self.entries@);
            lemma_assoc_at(self.entries@, i as int);
        }
        (&self.entries[i].0, &self.entries[i].1)
    }
}

/// The map has as many keys as there are entries.
proof fn lemma_assoc_len<V: DeepView>(e: Seq<(Vec<char>, V)>)
    requires
        keys_unique(e),
    ensures
        assoc_map(e).dom().finite(),
        assoc_map(e).dom().len() == e.len(),
    decreases e.len(),
{
    if e.len() == 0 {
        assert(assoc_map(e).dom() =~= Set::<Seq<char>>::empty());
    } else {
        let init = e.drop_last();
        assert forall|a: int, b: int| 0 <= a < b < init.len() implies #[trigger] init[a].0@
            != #[trigger] init[b].0@ by {
            assert(init[a] == e[a] && init[b] == e[b]);
        }
        lemma_assoc_len(init);
        let k = e.last().0@;
        assert(!has_key(init, k)) by {
            if has_key(init, k) {
                let j = choose|j: int| 0 <= j < init.len() && #[trigger] init[j].0@ == k;
                assert(e[j].0@ != e[e.len() - 1].0@);
            }
        }
        assert(assoc_map(e).dom() =~= assoc_map(init).dom().insert(k)) by {
            assert forall|q: Seq<char>| #![auto]
                assoc_map(e).dom().contains(q) == assoc_map(init).dom().insert(k).contains(q) by {
                if has_key(e, q) && q != k {
                    let j = choose|j: int| 0 <= j < e.len() && #[trigger] e[j].0@ == q;
                    assert(j < e.len() - 1);
                    assert(init[j] == e[j]);
                }
                if has_key(init, q) {
                    let j = choose|j: int| 0 <= j < init.len() && #[trigger] init[j].0@ == q;
                    assert(e[j] == init[j]);
                }
                if q == k {
                    assert(e[e.len() - 1].0@ == k);
                }
            }
        }
    }
}

} // verus!
