//! A map keyed by transaction ids, kept in key order.

use vstd::prelude::*;

verus! {

/// A map from `u64` ids to values; iteration is in increasing id order.
#[derive(Debug)]
pub struct IdMap<V> {
    entries: Vec<(u64, V)>,
}

/// Whether the ids of a list of entries increase strictly.
pub open spec fn ids_increase<V>(s: Seq<(u64, V)>) -> bool {
    forall|i: int, j: int| 0 <= i < j < s.len() ==> (#[trigger] s[i]).0 < (#[trigger] s[j]).0
}

/// Whether a list of entries holds an id.
pub open spec fn has_id<V>(s: Seq<(u64, V)>, id: u64) -> bool {
    exists|i: int| 0 <= i < s.len() && (#[trigger] s[i]).0 == id
}

/// The value that a list of entries gives an id.
pub open spec fn value_of<V>(s: Seq<(u64, V)>, id: u64) -> V {
    let i = choose|i: int| 0 <= i < s.len() && (#[trigger] s[i]).0 == id;
    s[i].1
}

/// The map that a list of entries stands for.
pub open spec fn map_of<V>(s: Seq<(u64, V)>) -> Map<u64, V> {
    Map::new(|id: u64| has_id(s, id), |id: u64| value_of(s, id))
}

proof fn lemma_at<V>(s: Seq<(u64, V)>, i: int)
    requires
        ids_increase(s),
        0 <= i < s.len(),
    ensures
        map_of(s).contains_key(s[i].0),
        map_of(s)[s[i].0] == s[i].1,
{
    let j = choose|j: int| 0 <= j < s.len() && (#[trigger] s[j]).0 == s[i].0;
    assert(s[i].0 == s[i].0);
    assert(has_id(s, s[i].0));
    assert(i == j);
}

proof fn lemma_dom<V>(s: Seq<(u64, V)>, id: u64)
    ensures
        map_of(s).contains_key(id) == has_id(s, id),
        has_id(s, id) ==> map_of(s)[id] == value_of(s, id),
{
}

/// The ids of a list of entries.
pub open spec fn ids_of<V>(s: Seq<(u64, V)>) -> Seq<u64> {
    Seq::new(s.len(), |i: int| s[i].0)
}

impl<V> View for IdMap<V> {
    type V = Map<u64, V>;

    closed spec fn view(&self) -> Map<u64, V> {
        map_of(self.entries@)
    }
}

impl<V> IdMap<V> {
    /// The entries in increasing id order.
    pub closed spec fn pairs(&self) -> Seq<(u64, V)> {
        self.entries@
    }

    pub closed spec fn wf(&self) -> bool {
        ids_increase(self.entries@)
    }

    /// The entries list every id once, in increasing order.
    pub proof fn lemma_pairs(&self)
        requires
            self.wf(),
        ensures
            ids_increase(self.pairs()),
            self@ == map_of(self.pairs()),
            forall|i: int|
                0 <= i < self.pairs().len() ==> self@.contains_key((#[trigger] self.pairs()[i]).0)
                    && self@[self.pairs()[i].0] == self.pairs()[i].1,
            forall|id: u64| #[trigger]
                self@.contains_key(id) ==> exists|i: int|
                    0 <= i < self.pairs().len() && (#[trigger] self.pairs()[i]).0 == id,
    {
        assert forall|i: int| 0 <= i < self.pairs().len() implies self@.contains_key(
            (#[trigger] self.pairs()[i]).0,
        ) && self@[self.pairs()[i].0] == self.pairs()[i].1 by {
            lemma_at(self.entries@, i);
        }
        assert forall|id: u64| #[trigger] self@.contains_key(id) implies exists|i: int|
            0 <= i < self.pairs().len() && (#[trigger] self.pairs()[i]).0 == id by {
            lemma_dom(self.entries@, id);
            let i = choose|i: int|
                0 <= i < self.entries@.len() && (#[trigger] self.entries@[i]).0 == id;
            assert(self.pairs()[i].0 == id);
        }
    }

    pub fn new() -> (m: Self)
        ensures
            m.wf(),
            m@ == Map::<u64, V>::empty(),
            m.pairs() == Seq::<(u64, V)>::empty(),
    {
        let m = IdMap { entries: Vec::new() };
        assert(m@ =~= Map::<u64, V>::empty());
        m
    }

    pub fn len(&self) -> (n: usize)
        ensures
            n == self.pairs().len(),
    {
        self.entries.len()
    }

    /// The entry with the `i`-th smallest id.
    pub fn at(&self, i: usize) -> (e: &(u64, V))
        requires
            i < self.pairs().len(),
        ensures
            *e == self.pairs()[i as int],
    {
        &self.entries[i]
    }

    /// How many ids are smaller than `id`.
    fn rank(&self, id: u64) -> (r: usize)
        requires
            self.wf(),
        ensures
            r <= self.entries@.len(),
            forall|i: int| 0 <= i < r ==> (#[trigger] self.entries@[i]).0 < id,
            forall|i: int| r <= i < self.entries@.len() ==> (#[trigger] self.entries@[i]).0 >= id,
    {
        let mut lo: usize = 0;
        let mut hi: usize = self.entries.len();
        while lo < hi
            invariant
                self.wf(),
                lo <= hi <= self.entries@.len(),
                forall|i: int| 0 <= i < lo ==> (#[trigger] self.entries@[i]).0 < id,
                forall|i: int|
                    hi <= i < self.entries@.len() ==> (#[trigger] self.entries@[i]).0 >= id,
            decreases hi - lo,
        {
            let mid: usize = lo + (hi - lo) / 2;
            if self.entries[mid].0 < id {
                lo = mid + 1;
            } else {
                hi = mid;
            }
        }
        lo
    }

    pub fn contains(&self, id: u64) -> (b: bool)
        requires
            self.wf(),
        ensures
            b == self@.contains_key(id),
    {
        let r: usize = self.rank(id);
        let b = r < self.entries.len() && self.entries[r].0 == id;
        proof {
            if b {
                lemma_at(self.entries@, r as int);
            }
        }
        b
    }

    pub fn get(&self, id: u64) -> (v: Option<&V>)
        requires
            self.wf(),
        ensures
            v is Some <==> self@.contains_key(id),
            v matches Some(x) ==> *x == self@[id],
    {
        let r: usize = self.rank(id);
        if r < self.entries.len() && self.entries[r].0 == id {
            proof {
                lemma_at(self.entries@, r as int);
            }
            Some(&self.entries[r].1)
        } else {
            None
        }
    }

    /// Puts a value under an id, replacing the one that was there.
    pub fn insert(&mut self, id: u64, v: V)
        requires
            old(self).wf(),
        ensures
            final(self).wf(),
            final(self)@ == old(self)@.insert(id, v),
    {
        let r: usize = self.rank(id);
        let ghost s = self.entries@;
        if r < self.entries.len() && self.entries[r].0 == id {
            self.entries.set(r, (id, v));
            proof {
                assert(self.entries@ == s.update(r as int, (id, v)));
            }
        } else {
            self.entries.insert(r, (id, v));
            proof {
                assert(self.entries@ == s.insert(r as int, (id, v)));
            }
        }
        proof {
            let t = self.entries@;
            assert(ids_increase(t));
            assert(t[r as int] == (id, v));
            lemma_at(t, r as int);
            assert forall|x: u64| x != id implies has_id(t, x) == has_id(s, x) && (has_id(s, x)
                ==> value_of(t, x) == value_of(s, x)) by {
                if has_id(s, x) {
                    let i = choose|i: int| 0 <= i < s.len() && (#[trigger] s[i]).0 == x;
                    lemma_at(s, i);
                    let j = if t.len() > s.len() && i >= r {
                        i + 1
                    } else {
                        i
                    };
                    assert(t[j] == s[i]);
                    lemma_at(t, j);
                }
                if has_id(t, x) {
                    let j = choose|j: int| 0 <= j < t.len() && (#[trigger] t[j]).0 == x;
                    let i = if t.len() > s.len() && j > r {
                        j - 1
                    } else {
                        j
                    };
                    assert(t[j] == s[i]);
                }
            }
            assert(final(self)@ =~= old(self)@.insert(id, v));
        }
    }

    /// Drops an id, if it is there.
    pub fn remove(&mut self, id: u64)
        requires
            old(self).wf(),
        ensures
            final(self).wf(),
            final(self)@ == old(self)@.remove(id),
    {
        let r: usize = self.rank(id);
        let ghost s = self.entries@;
        if r < self.entries.len() && self.entries[r].0 == id {
            self.entries.remove(r);
            proof {
                let t = self.entries@;
                assert(t == s.remove(r as int));
                assert forall|x: u64| x != id implies has_id(t, x) == has_id(s, x) && (has_id(s, x)
                    ==> value_of(t, x) == value_of(s, x)) by {
                    if has_id(s, x) {
                        let i = choose|i: int| 0 <= i < s.len() && (#[trigger] s[i]).0 == x;
                        lemma_at(s, i);
                        let j = if i > r {
                            i - 1
                        } else {
                            i
                        };
                        assert(t[j] == s[i]);
                        lemma_at(t, j);
                    }
                    if has_id(t, x) {
                        let j = choose|j: int| 0 <= j < t.len() && (#[trigger] t[j]).0 == x;
                        let i = if j >= r {
                            j + 1
                        } else {
                            j
                        };
                        assert(t[j] == s[i]);
                    }
                }
                assert(!has_id(t, id));
                assert(final(self)@ =~= old(self)@.remove(id));
            }
        } else {
            assert(!has_id(s, id));
            assert(final(self)@ =~= old(self)@.remove(id));
        }
    }
}

} // verus!
