use vstd::prelude::*;

verus! {

/// Key of the cross-entity weight index: rectangles are ordered by weight,
/// then start time, then entity id, so extraction of the least-weight
/// rectangle is deterministic.
#[derive(Debug, Clone, Copy, PartialEq, Eq, Structural)]
pub struct StatemapRectWeight {
    pub weight: u64,
    pub start: u64,
    pub entity: usize,
}

/// Strict lexicographic order on (weight, start, entity).
pub open spec fn wk_lt(a: StatemapRectWeight, b: StatemapRectWeight) -> bool {
    ||| a.weight < b.weight
    ||| (a.weight == b.weight && a.start < b.start)
    ||| (a.weight == b.weight && a.start == b.start && a.entity < b.entity)
}

pub open spec fn wk_le(a: StatemapRectWeight, b: StatemapRectWeight) -> bool {
    wk_lt(a, b) || a == b
}

/// An ordered set of `StatemapRectWeight` keys, held as a strictly
/// ascending vector; it stands in for the ordered-set collection the
/// rectangle budget is enforced with.
#[derive(Debug)]
pub struct WeightIndex {
    pub entries: Vec<StatemapRectWeight>,
}

impl View for WeightIndex {
    type V = Set<StatemapRectWeight>;

    open spec fn view(&self) -> Set<StatemapRectWeight> {
        self.entries@.to_set()
    }
}

impl WeightIndex {
    pub open spec fn inv(&self) -> bool {
        forall|i: int, j: int|
            0 <= i < j < self.entries@.len() ==> wk_lt(self.entries@[i], self.entries@[j])
    }

    pub proof fn lemma_inv_facts(&self)
        requires
            self.inv(),
        ensures
            self@.finite(),
            self@.len() == self.entries@.len(),
    {
        broadcast use vstd::seq_lib::group_seq_lib_default, vstd::set_lib::group_set_lib_default, vstd::set::group_set_axioms;

        assert(self.entries@.no_duplicates()) by {
            assert forall|i: int, j: int|
                0 <= i < self.entries@.len() && 0 <= j < self.entries@.len() && i != j
                implies self.entries@[i] != self.entries@[j] by {
                if i < j {
                    assert(wk_lt(self.entries@[i], self.entries@[j]));
                } else {
                    assert(wk_lt(self.entries@[j], self.entries@[i]));
                }
            }
        }
        self.entries@.unique_seq_to_set();
    }

    pub fn new() -> (r: Self)
        ensures
            r.inv(),
            r@ == Set::<StatemapRectWeight>::empty(),
            r@.len() == 0,
    {
        let r = WeightIndex { entries: Vec::new() };
        proof {
            assert(r.entries@.to_set() =~= Set::<StatemapRectWeight>::empty());
            r.lemma_inv_facts();
        }
        r
    }

    pub fn len(&self) -> (n: usize)
        requires
            self.inv(),
        ensures
            n == self@.len(),
    {
        proof {
            self.lemma_inv_facts();
        }
        self.entries.len()
    }

    pub fn contains(&self, k: &StatemapRectWeight) -> (r: bool)
        requires
            self.inv(),
        ensures
            r == self@.contains(*k),
    {
        let mut i: usize = 0;
        while i < self.entries.len()
            invariant
                i <= self.entries@.len(),
                forall|j: int| 0 <= j < i ==> self.entries@[j] != *k,
            decreases self.entries@.len() - i,
        {
            if self.entries[i] == *k {
                proof {
                    assert(self.entries@.contains(*k));
                }
                return true;
            }
            i = i + 1;
        }
        proof {
            assert(!self.entries@.contains(*k));
        }
        false
    }

    /// Adds `k`; a key already present stays as the single copy.
    pub fn insert(&mut self, k: StatemapRectWeight)
        requires
            old(self).inv(),
        ensures
            final(self).inv(),
            final(self)@ == old(self)@.insert(k),
    {
        let mut i: usize = 0;
        while i < self.entries.len() && wk_lt_exec(&self.entries[i], &k)
            invariant
                i <= self.entries@.len(),
                forall|j: int| 0 <= j < i ==> wk_lt(self.entries@[j], k),
                self.entries@ == old(self).entries@,
            decreases self.entries@.len() - i,
        {
            i = i + 1;
        }
        if i < self.entries.len() && self.entries[i] == k {
            proof {
                assert(self.entries@.contains(k));
                assert(old(self)@.contains(k));
                assert(final(self)@ =~= old(self)@.insert(k));
            }
            return;
        }
        let ghost s0 = self.entries@;
        self.entries.insert(i, k);
        proof {
            assert(forall|j: int| i < j < s0.len() + 1 ==> self.entries@[j] == s0[j - 1]);
            assert forall|p: int, q: int|
                0 <= p < q < self.entries@.len() implies wk_lt(self.entries@[p], self.entries@[q]) by {
                if p < i && q == i {
                } else if p == i && q > i {
                    if !(i < s0.len() && wk_lt(k, s0[q - 1])) {
                        assert(wk_lt(s0[i as int], s0[q - 1]) || q - 1 == i);
                        assert(!wk_lt(s0[i as int], k));
                        assert(s0[i as int] != k);
                        assert(wk_lt(k, s0[i as int]));
                    }
                } else {
                }
            }
            lemma_seq_insert_to_set(s0, i as int, k);
            assert(final(self)@ =~= old(self)@.insert(k));
        }
    }

    /// Removes `k` if present.
    pub fn remove(&mut self, k: &StatemapRectWeight)
        requires
            old(self).inv(),
        ensures
            final(self).inv(),
            final(self)@ == old(self)@.remove(*k),
    {
        let mut i: usize = 0;
        while i < self.entries.len()
            invariant
                i <= self.entries@.len(),
                forall|j: int| 0 <= j < i ==> self.entries@[j] != *k,
                self.entries@ == old(self).entries@,
                forall|p: int, q: int|
                    0 <= p < q < self.entries@.len() ==> wk_lt(self.entries@[p], self.entries@[q]),
            decreases self.entries@.len() - i,
        {
            if self.entries[i] == *k {
                let ghost s0 = self.entries@;
                self.entries.remove(i);
                proof {
                    assert(forall|j: int|
                        0 <= j < self.entries@.len() ==> self.entries@[j] == (if j < i {
                            s0[j]
                        } else {
                            s0[j + 1]
                        }));
                    assert forall|p: int, q: int|
                        0 <= p < q < self.entries@.len() implies wk_lt(
                        self.entries@[p],
                        self.entries@[q],
                    ) by {
                        if q < i {
                            assert(wk_lt(s0[p], s0[q]));
                        } else if p < i {
                            assert(wk_lt(s0[p], s0[q + 1]));
                        } else {
                            assert(wk_lt(s0[p + 1], s0[q + 1]));
                        }
                    }
                    lemma_seq_remove_to_set(s0, i as int);
                    assert(final(self)@ =~= old(self)@.remove(*k));
                }
                return;
            }
            i = i + 1;
        }
        proof {
            assert(!self.entries@.contains(*k));
            assert(!old(self)@.contains(*k));
            assert(final(self)@ =~= old(self)@.remove(*k));
        }
    }

    /// The least key in lexicographic (weight, start, entity) order.
    pub fn min(&self) -> (k: StatemapRectWeight)
        requires
            self.inv(),
            self@.len() > 0,
        ensures
            self@.contains(k),
            forall|k2: StatemapRectWeight| self@.contains(k2) ==> wk_le(k, k2),
    {
        proof {
            self.lemma_inv_facts();
            assert(self.entries@.contains(self.entries@[0]));
        }
        let k = self.entries[0];
        proof {
            assert forall|k2: StatemapRectWeight| self@.contains(k2) implies wk_le(k, k2) by {
                let j = choose|j: int| 0 <= j < self.entries@.len() && self.entries@[j] == k2;
                if j > 0 {
                    assert(wk_lt(self.entries@[0], self.entries@[j]));
                }
            }
        }
        k
    }
}

pub fn wk_lt_exec(a: &StatemapRectWeight, b: &StatemapRectWeight) -> (r: bool)
    ensures
        r == wk_lt(*a, *b),
{
    if a.weight != b.weight {
        a.weight < b.weight
    } else if a.start != b.start {
        a.start < b.start
    } else {
        a.entity < b.entity
    }
}

proof fn lemma_seq_insert_to_set(s: Seq<StatemapRectWeight>, i: int, a: StatemapRectWeight)
    requires
        0 <= i <= s.len(),
    ensures
        s.insert(i, a).to_set() == s.to_set().insert(a),
{
    broadcast use vstd::set::group_set_axioms;

    let t = s.insert(i, a);
    assert forall|x: StatemapRectWeight| t.to_set().contains(x) implies s.to_set().insert(
        a,
    ).contains(x) by {
        let j = choose|j: int| 0 <= j < t.len() && t[j] == x;
        if j < i {
            assert(s[j] == x);
        } else if j == i {
        } else {
            assert(s[j - 1] == x);
        }
    }
    assert forall|x: StatemapRectWeight| s.to_set().insert(a).contains(x) implies t.to_set().contains(
        x,
    ) by {
        if x == a {
            assert(t[i] == x);
        } else {
            let j = choose|j: int| 0 <= j < s.len() && s[j] == x;
            if j < i {
                assert(t[j] == x);
            } else {
                assert(t[j + 1] == x);
            }
        }
    }
    assert(t.to_set() =~= s.to_set().insert(a));
}

proof fn lemma_seq_remove_to_set(s: Seq<StatemapRectWeight>, i: int)
    requires
        0 <= i < s.len(),
        forall|p: int, q: int| 0 <= p < q < s.len() ==> wk_lt(s[p], s[q]),
    ensures
        s.remove(i).to_set() == s.to_set().remove(s[i]),
{
    broadcast use vstd::set::group_set_axioms;

    let t = s.remove(i);
    assert forall|x: StatemapRectWeight| t.to_set().contains(x) implies s.to_set().remove(
        s[i],
    ).contains(x) by {
        let j = choose|j: int| 0 <= j < t.len() && t[j] == x;
        if j < i {
            assert(s[j] == x);
            if x == s[i] {
                assert(wk_lt(s[j], s[i as int]));
            }
        } else {
            assert(s[j + 1] == x);
            if x == s[i] {
                assert(wk_lt(s[i as int], s[j + 1]));
            }
        }
    }
    assert forall|x: StatemapRectWeight| s.to_set().remove(s[i]).contains(x) implies t.to_set().contains(
        x,
    ) by {
        let j = choose|j: int| 0 <= j < s.len() && s[j] == x;
        if j < i {
            assert(t[j] == x);
        } else if j == i {
        } else {
            assert(t[j - 1] == x);
        }
    }
    assert(t.to_set() =~= s.to_set().remove(s[i]));
}

} // verus!
