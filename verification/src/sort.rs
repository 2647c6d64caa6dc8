use vstd::prelude::*;
use crate::entity::chain_ok;
use crate::entity::lemma_state_total_fits;
use crate::entity::lemma_state_total_prefix_bound;
use crate::entity::lemma_state_total_take_step;
use crate::entity::rects_state_total;
use crate::statemap::Statemap;
use crate::statemap::StatemapError;

verus! {

/// The natural (human) order on two strings: digit runs compare by
/// value, everything else by character.
pub uninterp spec fn natural_cmp(a: Seq<char>, b: Seq<char>) -> int;

/// Relies on natord::compare: a deterministic comparison of two strings
/// in natural order whose verdict flips when its arguments swap.
#[verifier::external_body]
fn natural_compare(a: &str, b: &str) -> (r: i8)
    ensures
        -1 <= r <= 1 && r as int == natural_cmp(a@, b@) && natural_cmp(b@, a@) == -(r as int),
{
    match natord::compare(a, b) {
        std::cmp::Ordering::Less => -1,
        std::cmp::Ordering::Equal => 0,
        std::cmp::Ordering::Greater => 1,
    }
}

/// The render order: more total time in the chosen state first, ties in
/// natural order of the entity names.
pub open spec fn sort_le(ta: int, na: Seq<char>, tb: int, nb: Seq<char>) -> bool {
    ta > tb || (ta == tb && natural_cmp(na, nb) <= 0)
}

impl Statemap {
    /// Total nanoseconds entity `e` ascribes to the chosen state (0 when
    /// sorting carries no state).
    pub open spec fn sort_total(&self, e: int, sortby: Option<usize>) -> int {
        match sortby {
            Option::Some(st) => rects_state_total(self.entities@[e].rects@, st as int),
            Option::None => 0,
        }
    }

    fn entity_total(&self, e: usize, sortby: &Option<usize>) -> (t: u64)
        requires
            (e as int) < self.entities@.len(),
            self.closed_entity_ok(e as int),
            (match sortby {
                Some(st) => (st as int) < self.states@.len(),
                None => true,
            }),
        ensures
            t == self.sort_total(e as int, *sortby),
    {
        match sortby {
            None => 0,
            Some(st) => {
                let stv: usize = *st;
                let ghost rects = self.entities@[e as int].rects@;
                proof {
                    assert forall|j: int|
                        0 <= j < rects.len() implies 0 <= stv < (#[trigger] rects[j].states@).len() by {}
                    lemma_state_total_fits(rects, stv as int);
                    assert(rects.take(0) =~= Seq::<crate::rect::StatemapRect>::empty());
                }
                let nr = self.entities[e].rects.len();
                let mut acc: u64 = 0;
                let mut i: usize = 0;
                while i < nr
                    invariant
                        i <= nr,
                        (e as int) < self.entities@.len(),
                        stv < self.states@.len(),
                        self.closed_entity_ok(e as int),
                        nr == rects.len(),
                        rects == self.entities@[e as int].rects@,
                        acc == rects_state_total(rects.take(i as int), stv as int),
                        rects_state_total(rects, stv as int) <= u64::MAX,
                    decreases nr - i,
                {
                    proof {
                        assert forall|j: int|
                            0 <= j < rects.len() implies 0 <= stv < (
                            #[trigger] rects[j].states@).len() by {}
                        lemma_state_total_take_step(rects, i as int, stv as int);
                        lemma_state_total_prefix_bound(rects, i as int + 1, stv as int);
                        assert(chain_ok(rects));
                    }
                    acc = acc + self.entities[e].rects[i].states[stv];
                    i = i + 1;
                }
                proof {
                    assert(rects.take(nr as int) =~= rects);
                }
                acc
            },
        }
    }

    /// Whether entity `a` sorts at or before entity `b`; a negative
    /// verdict certifies the reverse order.
    fn order_le(&self, a: usize, b: usize, sortby: &Option<usize>) -> (r: bool)
        requires
            (a as int) < self.entities@.len(),
            (b as int) < self.entities@.len(),
            self.closed_entity_ok(a as int),
            self.closed_entity_ok(b as int),
            (match sortby {
                Some(st) => (st as int) < self.states@.len(),
                None => true,
            }),
        ensures
            r == sort_le(
                self.sort_total(a as int, *sortby),
                self.entities@[a as int].name@,
                self.sort_total(b as int, *sortby),
                self.entities@[b as int].name@,
            ),
            !r ==> sort_le(
                self.sort_total(b as int, *sortby),
                self.entities@[b as int].name@,
                self.sort_total(a as int, *sortby),
                self.entities@[a as int].name@,
            ),
    {
        let ta = self.entity_total(a, sortby);
        let tb = self.entity_total(b, sortby);
        if ta != tb {
            ta > tb
        } else {
            let c = natural_compare(self.entities[a].name.as_str(), self.entities[b].name.as_str());
            c <= 0
        }
    }

    /// The entity ids in render order: descending total time in the
    /// chosen state, ties in natural name order.  With no sort state,
    /// totals are all alike and natural name order alone decides.
    #[verifier::rlimit(100)]
    pub fn sort(&self, sortby: Option<usize>) -> (r: Vec<usize>)
        requires
            forall|e: int| 0 <= e < self.entities@.len() ==> #[trigger] self.closed_entity_ok(e),
            (match sortby {
                Some(st) => (st as int) < self.states@.len(),
                None => true,
            }),
        ensures
            r@.len() == self.entities@.len(),
            forall|k: int| 0 <= k < r@.len() ==> (#[trigger] r@[k]) < self.entities@.len(),
            forall|k1: int, k2: int| 0 <= k1 < k2 < r@.len() ==> r@[k1] != r@[k2],
            forall|k: int|
                0 <= k < r@.len() - 1 ==> sort_le(
                    self.sort_total(#[trigger] r@[k] as int, sortby),
                    self.entities@[r@[k] as int].name@,
                    self.sort_total(r@[k + 1] as int, sortby),
                    self.entities@[r@[k + 1] as int].name@,
                ),
    {
        let n = self.entities.len();
        let mut v: Vec<usize> = Vec::new();
        let mut i: usize = 0;
        while i < n
            invariant
                i <= n,
                v@.len() == i,
                forall|k: int| 0 <= k < i ==> (#[trigger] v@[k]) == k,
            decreases n - i,
        {
            v.push(i);
            i = i + 1;
        }
        if n == 0 {
            return v;
        }
        let ghost me = *self;
        let mut i: usize = 1;
        while i < n
            invariant
                forall|e: int| 0 <= e < me.entities@.len() ==> #[trigger] me.closed_entity_ok(e),
                (match sortby {
                    Some(st) => (st as int) < me.states@.len(),
                    None => true,
                }),
                me == *self,
                1 <= i <= n,
                n == self.entities@.len(),
                v@.len() == n,
                forall|k: int| 0 <= k < n ==> (#[trigger] v@[k]) < n,
                forall|k1: int, k2: int| 0 <= k1 < k2 < n ==> v@[k1] != v@[k2],
                forall|k: int|
                    0 <= k < i - 1 ==> sort_le(
                        self.sort_total(#[trigger] v@[k] as int, sortby),
                        self.entities@[v@[k] as int].name@,
                        self.sort_total(v@[k + 1] as int, sortby),
                        self.entities@[v@[k + 1] as int].name@,
                    ),
            decreases n - i,
        {
            let ghost p0 = v@;
            let mut j: usize = i;
            let mut done = false;
            while j > 0 && !done
                invariant
                    forall|e: int|
                        0 <= e < me.entities@.len() ==> #[trigger] me.closed_entity_ok(e),
                    (match sortby {
                        Some(st) => (st as int) < me.states@.len(),
                        None => true,
                    }),
                    me == *self,
                    0 <= j <= i < n,
                    n == self.entities@.len(),
                    v@.len() == n,
                    p0.len() == n,
                    forall|k: int| 0 <= k < n ==> (#[trigger] p0[k]) < n,
                    forall|k1: int, k2: int| 0 <= k1 < k2 < n ==> p0[k1] != p0[k2],
                    forall|k: int|
                        0 <= k < i - 1 ==> sort_le(
                            self.sort_total(#[trigger] p0[k] as int, sortby),
                            self.entities@[p0[k] as int].name@,
                            self.sort_total(p0[k + 1] as int, sortby),
                            self.entities@[p0[k + 1] as int].name@,
                        ),
                    v@ =~= p0.take(j as int) + seq![p0[i as int]] + p0.subrange(j as int, i as int)
                        + p0.skip(i as int + 1),
                    j < i ==> sort_le(
                        self.sort_total(p0[i as int] as int, sortby),
                        self.entities@[p0[i as int] as int].name@,
                        self.sort_total(p0[j as int] as int, sortby),
                        self.entities@[p0[j as int] as int].name@,
                    ),
                    done ==> j > 0 && sort_le(
                        self.sort_total(v@[j as int - 1] as int, sortby),
                        self.entities@[v@[j as int - 1] as int].name@,
                        self.sort_total(v@[j as int] as int, sortby),
                        self.entities@[v@[j as int] as int].name@,
                    ),
                decreases j + (if done {
                    0int
                } else {
                    1
                }),
            {
                if self.order_le(v[j - 1], v[j], &sortby) {
                    done = true;
                } else {
                    let x = v[j];
                    let y = v[j - 1];
                    v[j] = y;
                    v[j - 1] = x;
                    proof {
                        assert(v@ =~= p0.take(j as int - 1) + seq![p0[i as int]] + p0.subrange(
                            j as int - 1,
                            i as int,
                        ) + p0.skip(i as int + 1));
                    }
                    j = j - 1;
                }
            }
            proof {
                let vi = v@;
                assert forall|k: int|
                    0 <= k < i + 1 - 1 implies sort_le(
                    self.sort_total(#[trigger] vi[k] as int, sortby),
                    self.entities@[vi[k] as int].name@,
                    self.sort_total(vi[k + 1] as int, sortby),
                    self.entities@[vi[k + 1] as int].name@,
                ) by {
                    if k < j - 1 {
                        assert(vi[k] == p0[k] && vi[k + 1] == p0[k + 1]);
                    } else if k == j - 1 {
                        assert(done);
                    } else if k == j {
                        assert(vi[k] == p0[i as int]);
                        if j < i {
                            assert(vi[k + 1] == p0[j as int]);
                        }
                    } else {
                        assert(vi[k] == p0[k - 1] && vi[k + 1] == p0[k]);
                    }
                }
                assert forall|k1: int, k2: int| 0 <= k1 < k2 < n implies v@[k1] != v@[k2] by {
                    let m1 = if k1 < j {
                        k1
                    } else if k1 == j {
                        i as int
                    } else if k1 <= i {
                        k1 - 1
                    } else {
                        k1
                    };
                    let m2 = if k2 < j {
                        k2
                    } else if k2 == j {
                        i as int
                    } else if k2 <= i {
                        k2 - 1
                    } else {
                        k2
                    };
                    assert(v@[k1] == p0[m1] && v@[k2] == p0[m2]);
                    if m1 < m2 {
                        assert(p0[m1] != p0[m2]);
                    } else if m2 < m1 {
                        assert(p0[m2] != p0[m1]);
                    }
                }
            }
            i = i + 1;
        }
        v
    }

    /// Resolves the configured sort key: a declared state name picks
    /// that state; the pseudo-state name `entity`, like no key at all,
    /// picks none; anything else is an error.
    pub fn resolve_sortby(&self, sortby: &Option<String>) -> (r: Result<
        Option<usize>,
        StatemapError,
    >)
        ensures
            (match sortby {
                Some(name) => {
                    if exists|i: int|
                        0 <= i < self.states@.len() && (#[trigger] self.states@[i].name@)
                            == name@ {
                        r matches Ok(o) && o matches Some(st) && (st as int)
                            < self.states@.len() && self.states@[st as int].name@ == name@
                    } else if name@ == "entity"@ {
                        r matches Ok(o) && o is None
                    } else {
                        r matches Err(e) && e.errmsg@ == "cannot sort by state \""@ + name@
                            + "\": no such state"@
                    }
                },
                None => r matches Ok(o) && o is None,
            }),
    {
        match sortby {
            None => Ok(None),
            Some(name) => {
                let ns = self.states.len();
                let mut i: usize = 0;
                while i < ns
                    invariant
                        *sortby == Option::Some(*name),
                        i <= ns,
                        ns == self.states@.len(),
                        forall|k: int| 0 <= k < i ==> (#[trigger] self.states@[k].name@) != name@,
                    decreases ns - i,
                {
                    if crate::json::str_eq(self.states[i].name.as_str(), name.as_str()) {
                        return Ok(Some(i));
                    }
                    i = i + 1;
                }
                if crate::json::str_eq(name.as_str(), "entity") {
                    return Ok(None);
                }
                let mut m = String::from_str("cannot sort by state \"");
                m.append(name.as_str());
                m.append("\": no such state");
                Err(StatemapError { errmsg: m })
            },
        }
    }
}

/// Sorting by the pseudo-state `entity` is sorting with no key at all:
/// as long as no declared state carries that name, both resolve to no
/// state, so the same order (natural order on entity names) governs.
pub proof fn lemma_sort_by_entity_is_default(m: Statemap, name: Seq<char>)
    requires
        name == "entity"@,
        forall|i: int| 0 <= i < m.states@.len() ==> (#[trigger] m.states@[i].name@) != name,
    ensures
        forall|a: int, b: int|
            0 <= a < m.entities@.len() && 0 <= b < m.entities@.len() ==> (sort_le(
                m.sort_total(a, Option::None),
                #[trigger] m.entities@[a].name@,
                m.sort_total(b, Option::None),
                #[trigger] m.entities@[b].name@,
            ) == (natural_cmp(m.entities@[a].name@, m.entities@[b].name@) <= 0)),
{
}

} // verus!
