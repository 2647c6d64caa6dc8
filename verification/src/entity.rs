use vstd::prelude::*;
use crate::rect::StatemapRect;
use crate::rect::seq_sum;
use crate::rect::tags_sum;
use crate::rect::tags_sorted;
use crate::rect::seq_add;
use crate::rect::lemma_seq_sum_nonneg;
use crate::rect::lemma_seq_sum_element;
use crate::rect::lemma_seq_sum_add;
use crate::rect::lemma_seq_sum_single;
use crate::rect::lemma_tags_sum_nonneg;
use crate::rect::subsume_tags;

verus! {

/// One entity: its identity, the currently open interval (`start`,
/// `state`, `tag`), and the list of closed rectangles, kept ascending by
/// start time.  `prev`/`next` fields of the rectangles mirror that order;
/// `last` is the start of the trailing rectangle.
#[derive(Debug)]
pub struct StatemapEntity {
    pub name: String,
    pub id: usize,
    pub description: Option<String>,
    pub last: Option<u64>,
    pub start: Option<u64>,
    pub state: Option<u32>,
    pub tag: Option<usize>,
    pub rects: Vec<StatemapRect>,
}

/// Time a rectangle ascribes to one tag id (0 when untagged).
pub open spec fn rect_tag_val(r: StatemapRect, id: int) -> int {
    match r.tags {
        Some(t) => crate::rect::tag_val(t@, id),
        None => 0,
    }
}

/// The weight a rectangle must carry: its own duration plus both
/// neighbors'.
pub open spec fn weight_at(s: Seq<StatemapRect>, i: int) -> int {
    s[i].duration + (if i > 0 {
        s[i - 1].duration as int
    } else {
        0
    }) + (if i < s.len() - 1 {
        s[i + 1].duration as int
    } else {
        0
    })
}

/// Everything the doubly linked rectangle chain must satisfy at index `i`,
/// apart from the weight: positive duration, contiguity with the next
/// rectangle, link fields naming the true neighbors, the per-state
/// accumulators summing to the duration, and a well-formed tag list.
pub open spec fn chain_ok_at(s: Seq<StatemapRect>, i: int) -> bool {
    &&& s[i].duration > 0
    &&& s[i].start + s[i].duration <= u64::MAX
    &&& (i < s.len() - 1 ==> s[i].start + s[i].duration == s[i + 1].start)
    &&& s[i].prev == (if i == 0 {
        Option::<u64>::None
    } else {
        Option::Some(s[i - 1].start)
    })
    &&& s[i].next == (if i == s.len() - 1 {
        Option::<u64>::None
    } else {
        Option::Some(s[i + 1].start)
    })
    &&& s[i].states_total() == s[i].duration
    &&& s[i].tags_wf()
}

pub open spec fn chain_ok(s: Seq<StatemapRect>) -> bool {
    forall|i: int| 0 <= i < s.len() ==> #[trigger] chain_ok_at(s, i)
}

pub open spec fn weights_ok(s: Seq<StatemapRect>) -> bool {
    forall|i: int| 0 <= i < s.len() ==> (#[trigger] s[i].weight) == weight_at(s, i)
}

/// All rectangles of an entity have one state vector length.
pub open spec fn states_len_uniform(s: Seq<StatemapRect>) -> bool {
    forall|i: int| 0 <= i < s.len() ==> (#[trigger] s[i].states@.len()) == s[0].states@.len()
}

/// Total time the entity's rectangles ascribe to state `st`.
pub open spec fn rects_state_total(s: Seq<StatemapRect>, st: int) -> int
    decreases s.len(),
{
    if s.len() == 0 {
        0
    } else {
        rects_state_total(s.drop_last(), st) + s.last().states@[st]
    }
}

/// Total time the entity's rectangles ascribe to tags.
pub open spec fn rects_tag_total(s: Seq<StatemapRect>) -> int
    decreases s.len(),
{
    if s.len() == 0 {
        0
    } else {
        rects_tag_total(s.drop_last()) + s.last().tag_total()
    }
}

/// No two rectangles of an entity share a start time.
pub open spec fn starts_unique(s: Seq<StatemapRect>) -> bool {
    forall|i: int, j: int| 0 <= i < j < s.len() ==> s[i].start != s[j].start
}

pub open spec fn has_start(s: Seq<StatemapRect>, start: u64) -> bool {
    exists|i: int| 0 <= i < s.len() && s[i].start == start
}

/// The index of the rectangle with the given start (unique when
/// `starts_unique` holds).
pub open spec fn idx_of_start(s: Seq<StatemapRect>, start: u64) -> int {
    choose|i: int| 0 <= i < s.len() && s[i].start == start
}

pub proof fn lemma_idx_of_start(s: Seq<StatemapRect>, start: u64, i: int)
    requires
        starts_unique(s),
        0 <= i < s.len(),
        s[i].start == start,
    ensures
        idx_of_start(s, start) == i,
        has_start(s, start),
{
    assert(has_start(s, start));
    let j = idx_of_start(s, start);
    if j != i {
        if j < i {
            assert(s[j].start != s[i].start);
        } else {
            assert(s[i].start != s[j].start);
        }
    }
}

/// Starts are strictly increasing along the chain; in particular starts
/// are unique.
pub proof fn lemma_chain_starts_increase(s: Seq<StatemapRect>, i: int, j: int)
    requires
        chain_ok(s),
        0 <= i <= j < s.len(),
    ensures
        s[i].start + s[i].duration <= s[j].start + s[j].duration,
        i < j ==> s[i].start < s[j].start,
    decreases j - i,
{
    if i < j {
        assert(chain_ok_at(s, i));
        assert(chain_ok_at(s, i + 1));
        lemma_chain_starts_increase(s, i + 1, j);
    } else {
        assert(chain_ok_at(s, i));
    }
}

pub proof fn lemma_chain_starts_unique(s: Seq<StatemapRect>)
    requires
        chain_ok(s),
    ensures
        starts_unique(s),
{
    assert forall|i: int, j: int| 0 <= i < j < s.len() implies s[i].start != s[j].start by {
        lemma_chain_starts_increase(s, i, j);
    }
}

/// Totals depend only on the per-rectangle contributions, so two lists
/// agreeing pointwise on them have equal totals.
pub proof fn lemma_state_total_congruent(s: Seq<StatemapRect>, t: Seq<StatemapRect>, st: int)
    requires
        s.len() == t.len(),
        forall|i: int| 0 <= i < s.len() ==> s[i].states@ == t[i].states@,
    ensures
        rects_state_total(s, st) == rects_state_total(t, st),
    decreases s.len(),
{
    if s.len() > 0 {
        lemma_state_total_congruent(s.drop_last(), t.drop_last(), st);
    }
}

pub proof fn lemma_tag_total_congruent(s: Seq<StatemapRect>, t: Seq<StatemapRect>)
    requires
        s.len() == t.len(),
        forall|i: int| 0 <= i < s.len() ==> s[i].tag_total() == t[i].tag_total(),
    ensures
        rects_tag_total(s) == rects_tag_total(t),
    decreases s.len(),
{
    if s.len() > 0 {
        lemma_tag_total_congruent(s.drop_last(), t.drop_last());
    }
}

/// Splitting a list splits its totals.
pub proof fn lemma_state_total_split(s: Seq<StatemapRect>, k: int, st: int)
    requires
        0 <= k <= s.len(),
    ensures
        rects_state_total(s, st) == rects_state_total(s.take(k), st) + rects_state_total(
            s.skip(k),
            st,
        ),
    decreases s.len() - k,
{
    if k == s.len() {
        assert(s.take(k) =~= s);
        assert(s.skip(k).len() == 0);
    } else {
        lemma_state_total_split(s, k + 1, st);
        assert(s.take(k + 1).drop_last() =~= s.take(k));
        assert(s.take(k + 1).last() == s[k]);
        lemma_state_total_skip_unfold(s, k, st);
    }
}

proof fn lemma_state_total_empty(t: Seq<StatemapRect>, st: int)
    requires
        t.len() == 0,
    ensures
        rects_state_total(t, st) == 0,
{
}

proof fn lemma_tag_total_empty(t: Seq<StatemapRect>)
    requires
        t.len() == 0,
    ensures
        rects_tag_total(t) == 0,
{
}

/// `total(skip(k)) == s[k] + total(skip(k + 1))`.
proof fn lemma_state_total_skip_unfold(s: Seq<StatemapRect>, k: int, st: int)
    requires
        0 <= k < s.len(),
    ensures
        rects_state_total(s.skip(k), st) == s[k].states@[st] + rects_state_total(s.skip(k + 1), st),
    decreases s.len() - k,
{
    if k == s.len() - 1 {
        assert(s.skip(k).len() == 1);
        assert(s.skip(k).last() == s[k]);
        lemma_state_total_empty(s.skip(k).drop_last(), st);
        lemma_state_total_empty(s.skip(k + 1), st);
    } else {
        lemma_state_total_skip_unfold(s, k + 1, st);
        assert(s.skip(k).drop_last() =~= s.drop_last().skip(k));
        assert(s.skip(k + 1).drop_last() =~= s.drop_last().skip(k + 1));
        lemma_state_total_skip_unfold(s.drop_last(), k, st);
        assert(s.skip(k).last() == s.last());
        assert(s.skip(k + 1).last() == s.last());
    }
}

pub proof fn lemma_tag_total_split(s: Seq<StatemapRect>, k: int)
    requires
        0 <= k <= s.len(),
    ensures
        rects_tag_total(s) == rects_tag_total(s.take(k)) + rects_tag_total(s.skip(k)),
    decreases s.len() - k,
{
    if k == s.len() {
        assert(s.take(k) =~= s);
        assert(s.skip(k).len() == 0);
    } else {
        lemma_tag_total_split(s, k + 1);
        assert(s.take(k + 1).drop_last() =~= s.take(k));
        assert(s.take(k + 1).last() == s[k]);
        lemma_tag_total_skip_unfold(s, k);
    }
}

proof fn lemma_tag_total_skip_unfold(s: Seq<StatemapRect>, k: int)
    requires
        0 <= k < s.len(),
    ensures
        rects_tag_total(s.skip(k)) == s[k].tag_total() + rects_tag_total(s.skip(k + 1)),
    decreases s.len() - k,
{
    if k == s.len() - 1 {
        assert(s.skip(k).len() == 1);
        assert(s.skip(k).last() == s[k]);
        lemma_tag_total_empty(s.skip(k).drop_last());
        lemma_tag_total_empty(s.skip(k + 1));
    } else {
        lemma_tag_total_skip_unfold(s, k + 1);
        assert(s.skip(k).drop_last() =~= s.drop_last().skip(k));
        assert(s.skip(k + 1).drop_last() =~= s.drop_last().skip(k + 1));
        lemma_tag_total_skip_unfold(s.drop_last(), k);
        assert(s.skip(k).last() == s.last());
        assert(s.skip(k + 1).last() == s.last());
    }
}

impl StatemapEntity {
    /// The rectangle list invariant: linked chain, weight identity, state
    /// identity, tag identity.
    pub open spec fn rects_wf(&self) -> bool {
        &&& chain_ok(self.rects@)
        &&& weights_ok(self.rects@)
        &&& states_len_uniform(self.rects@)
    }

    /// `last` names the trailing rectangle.
    pub open spec fn last_ok(&self) -> bool {
        self.last == (if self.rects@.len() == 0 {
            Option::<u64>::None
        } else {
            Option::Some(self.rects@.last().start)
        })
    }

    /// While datums are still arriving, the open interval begins exactly
    /// where the trailing rectangle ends.
    pub open spec fn open_ok(&self) -> bool {
        &&& (self.state is Some <==> self.start is Some)
        &&& (self.rects@.len() > 0 ==> self.start is Some && self.start.unwrap()
            == self.rects@.last().start + self.rects@.last().duration)
    }

    pub open spec fn state_total(&self, st: int) -> int {
        rects_state_total(self.rects@, st)
    }

    pub open spec fn tag_total(&self) -> int {
        rects_tag_total(self.rects@)
    }

    /// All identity fields other than the rectangles and the open
    /// interval.
    pub open spec fn same_identity(&self, other: &Self) -> bool {
        &&& self.name == other.name
        &&& self.id == other.id
        &&& self.description == other.description
    }

    pub fn new(name: &str, id: usize) -> (e: Self)
        ensures
            e.name@ == name@,
            e.id == id,
            e.description is None,
            e.last is None,
            e.start is None,
            e.state is None,
            e.tag is None,
            e.rects@.len() == 0,
            e.rects_wf(),
            e.last_ok(),
            e.open_ok(),
    {
        StatemapEntity {
            name: String::from_str(name),
            start: None,
            description: None,
            last: None,
            state: None,
            tag: None,
            rects: Vec::new(),
            id,
        }
    }

    /// Closes the open interval at `end`: appends one rectangle spanning
    /// `[start, end)` for the open state, links it behind the previous
    /// trailing rectangle, and returns the weight bookkeeping: the prior
    /// trailing rectangle's start with its old and new weight (if any),
    /// and the new rectangle's start and weight.
    pub fn newrect(&mut self, end: u64, nstates: u32) -> (r: (Option<(u64, u64, u64)>, (u64, u64)))
        requires
            old(self).rects_wf(),
            old(self).last_ok(),
            old(self).open_ok(),
            old(self).start is Some,
            old(self).state is Some,
            old(self).state.unwrap() < nstates,
            old(self).start.unwrap() < end,
            forall|i: int|
                0 <= i < old(self).rects@.len() ==> (#[trigger] old(self).rects@[i].states@.len())
                    == nstates,
        ensures
            final(self).rects_wf(),
            final(self).last_ok(),
            final(self).rects@.len() == old(self).rects@.len() + 1,
            forall|i: int|
                0 <= i < final(self).rects@.len()
                    ==> (#[trigger] final(self).rects@[i].states@.len()) == nstates,
            forall|i: int|
                0 <= i < old(self).rects@.len() - 1 ==> final(self).rects@[i] == old(self).rects@[i],
            ({
                let n = old(self).rects@.len() as int;
                let start = old(self).start.unwrap();
                let dur = (end - start) as u64;
                let nr = final(self).rects@[n];
                &&& nr.start == start
                &&& nr.duration == dur
                &&& nr.prev == old(self).last
                &&& nr.next is None
                &&& nr.states@[old(self).state.unwrap() as int] == dur
                &&& (forall|j: int|
                    0 <= j < nstates && j != old(self).state.unwrap() ==> nr.states@[j] == 0)
                &&& nr.weight as int == dur + (if n > 0 {
                    old(self).rects@[n - 1].duration as int
                } else {
                    0
                })
                &&& (match old(self).tag {
                    Some(id) => nr.tags is Some && nr.tags.unwrap()@ == seq![(id, dur)],
                    None => nr.tags is None,
                })
                &&& (n > 0 ==> final(self).rects@[n - 1] == StatemapRect {
                    next: Option::Some(start),
                    weight: (old(self).rects@[n - 1].weight + dur) as u64,
                    ..old(self).rects@[n - 1]
                })
                &&& r.1 == (start, nr.weight)
                &&& r.0 == (if n > 0 {
                    Option::Some(
                        (
                            old(self).rects@[n - 1].start,
                            old(self).rects@[n - 1].weight,
                            (old(self).rects@[n - 1].weight + dur) as u64,
                        ),
                    )
                } else {
                    Option::<(u64, u64, u64)>::None
                })
            }),
            final(self).last == Some(old(self).start.unwrap()),
            final(self).start == old(self).start,
            final(self).state == old(self).state,
            final(self).tag == old(self).tag,
            final(self).same_identity(old(self)),
            forall|st: int|
                0 <= st < nstates ==> #[trigger] final(self).state_total(st)
                    == old(self).state_total(st) + (if st == old(self).state.unwrap() as int {
                    (end - old(self).start.unwrap()) as int
                } else {
                    0
                }),
            final(self).tag_total() == old(self).tag_total() + (if old(self).tag is Some {
                (end - old(self).start.unwrap()) as int
            } else {
                0
            }),
    {
        let start = self.start.unwrap();
        let state = self.state.unwrap();
        let dur = end - start;
        let mut rect = StatemapRect::new(start, dur, state, nstates);

        if let Some(id) = self.tag {
            let tlist: Vec<(usize, u64)> = vec![(id, dur)];
            proof {
                assert(tlist@ =~= seq![(id, dur)]);
                crate::rect::lemma_tags_sum_singleton((id, dur));
            }
            rect.tags = Some(tlist);
        }
        rect.prev = self.last;

        let n = self.rects.len();
        let lhs: Option<(u64, u64, u64)>;
        if n > 0 {
            proof {
                assert(chain_ok_at(self.rects@, n - 1));
                if n >= 2 {
                    assert(chain_ok_at(self.rects@, n - 2));
                    lemma_chain_starts_increase(self.rects@, 0, n - 2);
                }
            }
            let old_w = self.rects[n - 1].weight;
            let ldur = self.rects[n - 1].duration;
            rect.weight = rect.weight + ldur;
            let mut l = self.rects.remove(n - 1);
            l.next = Some(start);
            l.weight = l.weight + dur;
            let new_w = l.weight;
            let lstart = l.start;
            self.rects.insert(n - 1, l);
            proof {
                assert(self.rects@ =~= old(self).rects@.update(
                    n - 1,
                    StatemapRect {
                        next: Option::Some(start),
                        weight: (old(self).rects@[n - 1].weight + dur) as u64,
                        ..old(self).rects@[n - 1]
                    },
                ));
            }
            lhs = Some((lstart, old_w, new_w));
        } else {
            lhs = None;
        }
        let rhs = (rect.start, rect.weight);
        let ghost mid = self.rects@;
        let ghost nr = rect;
        self.rects.push(rect);
        self.last = Some(start);
        proof {
            let s = self.rects@;
            let s0 = old(self).rects@;
            assert(s.drop_last() =~= mid);
            assert forall|i: int| 0 <= i < s.len() implies #[trigger] chain_ok_at(s, i) by {
                if i < s0.len() as int {
                    assert(chain_ok_at(s0, i));
                }
            }
            assert forall|i: int| 0 <= i < s.len() implies (#[trigger] s[i].weight) == weight_at(
                s,
                i,
            ) by {
                if i < s0.len() - 1 {
                    assert(s[i].weight == s0[i].weight);
                    assert(weight_at(s, i) == weight_at(s0, i));
                }
            }
            // totals
            assert forall|st: int| 0 <= st < nstates implies #[trigger] self.state_total(st)
                == old(self).state_total(st) + (if st == state as int {
                dur as int
            } else {
                0
            }) by {
                lemma_state_total_congruent(mid, s0, st);
                assert(rects_state_total(s, st) == rects_state_total(mid, st) + nr.states@[st]);
            }
            lemma_tag_total_congruent(mid, s0);
            assert(rects_tag_total(s) == rects_tag_total(mid) + nr.tag_total());
            match old(self).tag {
                Some(id) => {
                    crate::rect::lemma_tags_sum_singleton((id, dur));
                    assert(nr.tags.unwrap()@ == seq![(id, dur)]);
                    assert(nr.tag_total() == dur as int);
                },
                None => {
                    assert(nr.tag_total() == 0);
                },
            }
        }
        (lhs, rhs)
    }
}

/// The index of the left member of the pair that a subsumption of the
/// rectangle at `vi` merges: the victim's only neighbor when the victim
/// is at either end, otherwise the shorter neighbor (ties to the right).
pub open spec fn merge_index(s: Seq<StatemapRect>, vi: int) -> int {
    if vi == 0 {
        0
    } else if vi == s.len() - 1 {
        vi - 1
    } else if s[vi - 1].duration < s[vi + 1].duration {
        vi - 1
    } else {
        vi
    }
}

/// What the surviving rectangle of a merge of `x` (left) and `y` (right)
/// looks like; its weight is still `x`'s stale weight until the deltas
/// are applied.
pub open spec fn merged_props(m: StatemapRect, x: StatemapRect, y: StatemapRect) -> bool {
    &&& m.start == x.start
    &&& m.duration == x.duration + y.duration
    &&& m.prev == x.prev
    &&& m.next == y.next
    &&& m.weight == x.weight
    &&& m.states@ == seq_add(x.states@, y.states@)
    &&& (m.tags is Some <==> (x.tags is Some || y.tags is Some))
    &&& m.tag_total() == x.tag_total() + y.tag_total()
    &&& (forall|id: int|
        #![trigger rect_tag_val(m, id)]
        rect_tag_val(m, id) == rect_tag_val(x, id) + rect_tag_val(y, id))
    &&& (m.tags is Some ==> tags_sorted(m.tags.unwrap()@))
}

/// `t` is `s` with the adjacent pair at `(a, a + 1)` merged into slot `a`
/// and the successor's back link repointed.
pub open spec fn is_merge_of(t: Seq<StatemapRect>, s: Seq<StatemapRect>, a: int) -> bool {
    &&& 0 <= a < s.len() - 1
    &&& t.len() == s.len() - 1
    &&& (forall|i: int| 0 <= i < a ==> t[i] == s[i])
    &&& (forall|i: int| a + 1 < i < t.len() ==> t[i] == s[i + 1])
    &&& (a + 1 < t.len() ==> t[a + 1] == StatemapRect {
        prev: Option::Some(s[a].start),
        ..s[a + 2]
    })
    &&& merged_props(t[a], s[a], s[a + 1])
}

/// The weight edits a subsumption at `vi` reports, each as a start time
/// paired with a delta (or, for the removed rectangle, its old weight).
pub open spec fn expected_deltas(s: Seq<StatemapRect>, vi: int) -> (
    (Option<u64>, u64),
    (u64, u64),
    (u64, u64),
    (Option<u64>, u64),
) {
    deltas_at(s, merge_index(s, vi))
}

/// The same four edits, phrased over the merge slot directly.
pub open spec fn deltas_at(s: Seq<StatemapRect>, a: int) -> (
    (Option<u64>, u64),
    (u64, u64),
    (u64, u64),
    (Option<u64>, u64),
) {
    (
        (s[a].prev, if a > 0 {
            s[a + 1].duration
        } else {
            0
        }),
        (s[a].start, if a + 2 < s.len() {
            s[a + 2].duration
        } else {
            0
        }),
        (s[a + 1].start, s[a + 1].weight),
        if a + 2 < s.len() {
            (Option::Some(s[a + 2].start), s[a].duration)
        } else {
            (Option::<u64>::None, 0)
        },
    )
}


/// The merged rectangle's accumulators sum to its duration, and its tag
/// list is well formed.
proof fn lemma_merged_sums(t: Seq<StatemapRect>, s: Seq<StatemapRect>, a: int)
    requires
        chain_ok(s),
        states_len_uniform(s),
        is_merge_of(t, s, a),
    ensures
        t[a].states_total() == t[a].duration,
        t[a].tags_wf(),
        forall|st: int|
            0 <= st < s[a].states@.len() ==> t[a].states@[st] == s[a].states@[st]
                + s[a + 1].states@[st],
{
    let x = s[a];
    let y = s[a + 1];
    assert(chain_ok_at(s, a));
    assert(chain_ok_at(s, a + 1));
    assert(x.states@.len() == y.states@.len());
    assert forall|k: int| 0 <= k < x.states@.len() implies x.states@[k] + y.states@[k]
        <= u64::MAX by {
        lemma_seq_sum_element(x.states@, k);
        lemma_seq_sum_element(y.states@, k);
        lemma_seq_sum_nonneg(x.states@);
        lemma_seq_sum_nonneg(y.states@);
    }
    lemma_seq_sum_add(x.states@, y.states@);
    match t[a].tags {
        Some(tl) => {
            assert(tags_sum(tl@) == x.tag_total() + y.tag_total());
            assert(x.tags_wf());
            assert(y.tags_wf());
            if x.tags is Some {
                assert(tags_sum(x.tags.unwrap()@) <= x.duration);
            } else {
                assert(x.tag_total() == 0);
            }
            if y.tags is Some {
                assert(tags_sum(y.tags.unwrap()@) <= y.duration);
            } else {
                assert(y.tag_total() == 0);
            }
        },
        None => {},
    }
}

/// A merge of an adjacent pair keeps the chain well formed and conserves
/// every per-state total and the tag total.
pub proof fn lemma_merge_wf(t: Seq<StatemapRect>, s: Seq<StatemapRect>, a: int)
    requires
        chain_ok(s),
        states_len_uniform(s),
        is_merge_of(t, s, a),
    ensures
        chain_ok(t),
        states_len_uniform(t),
        forall|st: int|
            0 <= st < s[0].states@.len() ==> #[trigger] rects_state_total(t, st)
                == rects_state_total(s, st),
        rects_tag_total(t) == rects_tag_total(s),
{
    assert forall|i: int| 0 <= i < t.len() implies #[trigger] chain_ok_at(t, i) by {
        assert(chain_ok_at(s, a));
        assert(chain_ok_at(s, a + 1));
        lemma_merged_sums(t, s, a);
        if i < a {
            assert(chain_ok_at(s, i));
            if i == a - 1 {
                assert(t[i + 1].start == s[a].start);
            }
        } else if i == a {
            if a + 1 < t.len() {
                assert(chain_ok_at(s, a + 2));
                assert(t[i + 1].start == s[a + 2].start);
            }
        } else if i == a + 1 {
            assert(chain_ok_at(s, i + 1));
            if i < t.len() - 1 {
                assert(t[i + 1] == s[i + 2]);
            }
        } else {
            assert(chain_ok_at(s, i + 1));
            if i - 1 == a + 1 {
                assert(t[i - 1].start == s[i].start);
            } else {
                assert(t[i - 1] == s[i]);
            }
            if i < t.len() - 1 {
                assert(t[i + 1] == s[i + 2]);
            }
        }
    }
    assert forall|i: int| 0 <= i < t.len() implies (#[trigger] t[i].states@.len())
        == t[0].states@.len() by {
        assert(s[0].states@.len() == s[a].states@.len());
        assert(s[a + 1].states@.len() == s[0].states@.len());
        if i != a {
            let oi = if i < a { i } else { i + 1 };
            assert(s[oi].states@.len() == s[0].states@.len());
        }
    }
    let lo = t.take(a);
    let hi = t.skip(a + 1);
    let lo0 = s.take(a);
    let hi0 = s.skip(a + 2);
    assert(hi.len() == hi0.len());
    assert forall|i: int| 0 <= i < hi.len() implies hi[i].states@ == hi0[i].states@
        && hi[i].tag_total() == hi0[i].tag_total() by {
        if i == 0 && a + 1 < t.len() {
            assert(hi[0] == t[a + 1]);
        } else {
            assert(hi[i] == t[a + 1 + i]);
            assert(t[a + 1 + i] == s[a + 2 + i]);
        }
    }
    assert forall|st: int|
        0 <= st < s[0].states@.len() implies #[trigger] rects_state_total(t, st)
        == rects_state_total(s, st) by {
        lemma_state_total_split(t, a, st);
        lemma_state_total_skip_unfold(t, a, st);
        lemma_state_total_split(s, a, st);
        lemma_state_total_skip_unfold(s, a, st);
        lemma_state_total_skip_unfold(s, a + 1, st);
        lemma_state_total_congruent(lo, lo0, st);
        lemma_state_total_congruent(hi, hi0, st);
        assert(s[a].states@.len() == s[0].states@.len());
        assert(s[a + 1].states@.len() == s[0].states@.len());
        lemma_merged_sums(t, s, a);
        assert(t.skip(a + 1) == hi && s.skip(a + 2) == hi0);
    }
    lemma_merged_sums(t, s, a);
    lemma_tag_total_split(t, a);
    lemma_tag_total_skip_unfold(t, a);
    lemma_tag_total_split(s, a);
    lemma_tag_total_skip_unfold(s, a);
    lemma_tag_total_skip_unfold(s, a + 1);
    lemma_tag_total_congruent(lo, lo0);
    lemma_tag_total_congruent(hi, hi0);
}

impl StatemapEntity {
    /// Adds `delta` to the weight of the rectangle starting at `rect` and
    /// returns the weight it had before.
    pub fn addto(&mut self, rect: u64, delta: u64) -> (r: u64)
        requires
            starts_unique(old(self).rects@),
            has_start(old(self).rects@, rect),
            old(self).rects@[idx_of_start(old(self).rects@, rect)].weight + delta <= u64::MAX,
        ensures
            ({
                let i = idx_of_start(old(self).rects@, rect);
                &&& final(self).rects@ == old(self).rects@.update(
                    i,
                    StatemapRect {
                        weight: (old(self).rects@[i].weight + delta) as u64,
                        ..old(self).rects@[i]
                    },
                )
                &&& r == old(self).rects@[i].weight
            }),
            final(self).last == old(self).last,
            final(self).start == old(self).start,
            final(self).state == old(self).state,
            final(self).tag == old(self).tag,
            final(self).same_identity(old(self)),
    {
        let ghost s0 = self.rects@;
        let n0 = self.rects.len();
        let mut i: usize = 0;
        while self.rects[i].start != rect
            invariant
                0 <= i < self.rects@.len(),
                self.rects@ == s0,
                s0.len() == n0,
                forall|j: int| 0 <= j < i ==> s0[j].start != rect,
                has_start(s0, rect),
            decreases self.rects@.len() - i,
        {
            proof {
                let w = choose|w: int| 0 <= w < s0.len() && s0[w].start == rect;
                assert(w > i);
            }
            i = i + 1;
        }
        proof {
            lemma_idx_of_start(s0, rect, i as int);
        }
        let old_w = self.rects[i].weight;
        let mut x = self.rects.remove(i);
        x.weight = x.weight + delta;
        self.rects.insert(i, x);
        proof {
            assert(self.rects@ =~= s0.update(
                i as int,
                StatemapRect { weight: (s0[i as int].weight + delta) as u64, ..s0[i as int] },
            ));
        }
        old_w
    }

    /// Collapses the adjacent pair `(a, a + 1)` into slot `a`: the left
    /// member absorbs the right one's duration, state accumulators and
    /// tags, the chain is relinked, and `last` is refreshed when the pair
    /// ended the chain.  Weights are left for `apply`.
    #[verifier::rlimit(100)]
    fn merge_pair(&mut self, a: usize)
        requires
            chain_ok(old(self).rects@),
            states_len_uniform(old(self).rects@),
            old(self).last_ok(),
            a + 1 < old(self).rects@.len(),
        ensures
            is_merge_of(final(self).rects@, old(self).rects@, a as int),
            final(self).last_ok(),
            final(self).start == old(self).start,
            final(self).state == old(self).state,
            final(self).tag == old(self).tag,
            final(self).same_identity(old(self)),
    {
        let ghost p0 = self.rects@;
        proof {
            assert(chain_ok_at(p0, a as int));
            assert(chain_ok_at(p0, a as int + 1));
            if a as int + 2 < p0.len() {
                assert(chain_ok_at(p0, a as int + 2));
            }
        }
        let n = self.rects.len();
        let y = self.rects.remove(a + 1);
        let mut x = self.rects.remove(a);
        let ghost rem = self.rects@;
        proof {
            assert(x == p0[a as int]);
            assert(y == p0[a as int + 1]);
            assert(rem.len() == p0.len() - 2);
            assert forall|i: int| 0 <= i < rem.len() implies rem[i] == (if i < a as int {
                p0[i]
            } else {
                p0[i + 2]
            }) by {
                assert(p0.remove(a as int + 1)[i] == (if i < a as int + 1 { p0[i] } else { p0[i + 1] }));
            }
            assert(x.states_total() == x.duration);
            assert(y.states_total() == y.duration);
            assert(p0[a as int].duration + p0[a as int + 1].duration <= u64::MAX);
        }

        // absorb the removed rectangle's span
        x.duration = x.duration + y.duration;
        x.next = y.next;

        // fold the per-state accumulators
        let ghost xp0 = x.states@;
        let ghost x_pre = x;
        let mut j: usize = 0;
        while j < x.states.len()
            invariant
                j <= x.states@.len(),
                x.states@.len() == xp0.len(),
                xp0.len() == y.states@.len(),
                forall|k: int| j <= k < xp0.len() ==> x.states@[k] == xp0[k],
                forall|k: int| 0 <= k < j ==> x.states@[k] == (xp0[k] + y.states@[k]) as u64,
                seq_sum(xp0) + seq_sum(y.states@) <= u64::MAX,
                x.start == x_pre.start,
                x.duration == x_pre.duration,
                x.weight == x_pre.weight,
                x.prev == x_pre.prev,
                x.next == x_pre.next,
                x.tags == x_pre.tags,
            decreases x.states@.len() - j,
        {
            proof {
                lemma_seq_sum_element(xp0, j as int);
                lemma_seq_sum_element(y.states@, j as int);
                lemma_seq_sum_nonneg(xp0);
                lemma_seq_sum_nonneg(y.states@);
            }
            x.states[j] = x.states[j] + y.states[j];
            j = j + 1;
        }
        proof {
            assert forall|k: int| 0 <= k < xp0.len() implies xp0[k] + y.states@[k] <= u64::MAX by {
                lemma_seq_sum_element(xp0, k);
                lemma_seq_sum_element(y.states@, k);
                lemma_seq_sum_nonneg(xp0);
                lemma_seq_sum_nonneg(y.states@);
            }
            assert(x.states@ =~= seq_add(xp0, y.states@));
            lemma_seq_sum_add(xp0, y.states@);
        }

        // fold the tags
        let ghost xt0 = x.tags;
        let mut ytags = y.tags;
        if ytags.is_some() {
            let mut yt = ytags.unwrap();
            let xtags = x.tags;
            match xtags {
                Some(mut xt) => {
                    proof {
                        lemma_tags_sum_nonneg(xt@);
                        lemma_tags_sum_nonneg(yt@);
                        assert(p0[a as int].tags_wf());
                        assert(p0[a as int + 1].tags_wf());
                        assert(tags_sum(xt@) <= p0[a as int].duration);
                        assert(tags_sum(yt@) <= p0[a as int + 1].duration);
                    }
                    subsume_tags(&mut xt, &mut yt);
                    x.tags = Some(xt);
                },
                None => {
                    x.tags = Some(yt);
                },
            }
        } else {
            proof {
                if x.tags is Some {
                    lemma_tags_sum_nonneg(x.tags.unwrap()@);
                }
            }
        }

        let survivor_start = x.start;
        let ghost xg = x;
        self.rects.insert(a, x);
        let ghost mid = self.rects@;
        proof {
            assert(mid.len() == p0.len() - 1);
            assert forall|i: int| 0 <= i < mid.len() implies mid[i] == (if i < a as int {
                p0[i]
            } else if i == a as int {
                xg
            } else {
                p0[i + 1]
            }) by {
                if i < a as int {
                    assert(mid[i] == rem[i]);
                } else if i > a as int {
                    assert(mid[i] == rem[i - 1]);
                }
            }
        }

        if a + 1 < self.rects.len() {
            let mut z = self.rects.remove(a + 1);
            z.prev = Some(survivor_start);
            self.rects.insert(a + 1, z);
            proof {
                assert(self.rects@ =~= mid.update(
                    a as int + 1,
                    StatemapRect { prev: Option::Some(p0[a as int].start), ..p0[a as int + 2] },
                ));
            }
        } else {
            self.last = Some(survivor_start);
        }

        proof {
            let t = self.rects@;
            let ai = a as int;
            assert(t.len() == p0.len() - 1);
            assert(forall|i: int| 0 <= i < ai ==> t[i] == p0[i]);
            assert(forall|i: int| ai + 1 < i < t.len() ==> t[i] == p0[i + 1]);
            assert(merged_props(t[ai], p0[ai], p0[ai + 1]));
            assert(is_merge_of(t, p0, ai));
            if ai + 1 < t.len() {
                assert(t.last().start == p0.last().start);
            }
        }
    }

    /// The central coalescing step.  The victim rectangle is merged with
    /// a neighbor: the sole neighbor when the victim heads or ends the
    /// chain, otherwise whichever neighbor is shorter (a tie picks the
    /// right one).  The pair collapses into its left slot; the chain is
    /// relinked and `last` maintained.  Weights are left stale: the
    /// returned deltas say, in order, what the left neighbor of the pair,
    /// the survivor, the removed rectangle (with its old weight), and the
    /// right neighbor of the pair need done to them, and `apply` performs
    /// those edits.
    #[verifier::rlimit(100)]
    pub fn subsume(&mut self, victim: u64) -> (deltas: (
        (Option<u64>, u64),
        (u64, u64),
        (u64, u64),
        (Option<u64>, u64),
    ))
        requires
            old(self).rects_wf(),
            old(self).last_ok(),
            old(self).rects@.len() >= 2,
            has_start(old(self).rects@, victim),
        ensures
            final(self).rects@.len() == old(self).rects@.len() - 1,
            is_merge_of(
                final(self).rects@,
                old(self).rects@,
                merge_index(old(self).rects@, idx_of_start(old(self).rects@, victim)),
            ),
            deltas == expected_deltas(old(self).rects@, idx_of_start(old(self).rects@, victim)),
            chain_ok(final(self).rects@),
            states_len_uniform(final(self).rects@),
            final(self).last_ok(),
            final(self).start == old(self).start,
            final(self).state == old(self).state,
            final(self).tag == old(self).tag,
            final(self).same_identity(old(self)),
            forall|st: int|
                0 <= st < final(self).rects@[0].states@.len()
                    ==> #[trigger] final(self).state_total(st) == old(self).state_total(st),
            final(self).tag_total() == old(self).tag_total(),
    {
        let ghost s0 = self.rects@;
        proof {
            lemma_chain_starts_unique(s0);
        }
        let n0 = self.rects.len();
        let mut vi: usize = 0;
        while self.rects[vi].start != victim
            invariant
                0 <= vi < self.rects@.len(),
                self.rects@ == s0,
                s0.len() == n0,
                forall|j: int| 0 <= j < vi ==> s0[j].start != victim,
                has_start(s0, victim),
            decreases self.rects@.len() - vi,
        {
            proof {
                let w = choose|w: int| 0 <= w < s0.len() && s0[w].start == victim;
                assert(w > vi);
            }
            vi = vi + 1;
        }
        proof {
            lemma_idx_of_start(s0, victim, vi as int);
        }
        let n = self.rects.len();
        let a: usize = if vi == 0 {
            0
        } else if vi == n - 1 {
            vi - 1
        } else if self.rects[vi - 1].duration < self.rects[vi + 1].duration {
            vi - 1
        } else {
            vi
        };
        proof {
            assert(a == merge_index(s0, vi as int));
            assert(chain_ok_at(s0, a as int));
            assert(chain_ok_at(s0, a as int + 1));
            if a + 2 < n {
                assert(chain_ok_at(s0, a as int + 2));
            }
        }
        let ldelta: (Option<u64>, u64) = (
            self.rects[a].prev,
            if a > 0 {
                self.rects[a + 1].duration
            } else {
                0
            },
        );
        let cdelta: (u64, u64) = (
            self.rects[a].start,
            if a + 2 < n {
                self.rects[a + 2].duration
            } else {
                0
            },
        );
        let rval: (u64, u64) = (self.rects[a + 1].start, self.rects[a + 1].weight);
        let rdelta: (Option<u64>, u64) = if a + 2 < n {
            (Some(self.rects[a + 2].start), self.rects[a].duration)
        } else {
            (None, 0)
        };

        self.merge_pair(a);
        proof {
            let t = self.rects@;
            let ai = a as int;
            assert(is_merge_of(t, s0, ai));
            lemma_merge_wf(t, s0, ai);
        }
        (ldelta, cdelta, rval, rdelta)
    }
}

/// A rectangle with `d` added to its weight.
pub open spec fn bumped(r: StatemapRect, d: u64) -> StatemapRect {
    StatemapRect { weight: (r.weight + d) as u64, ..r }
}

/// How one application of a delta 4-tuple changes a rectangle: at most
/// one of the three adjusted start times can match it.
pub open spec fn bump_by_deltas(
    r: StatemapRect,
    deltas: ((Option<u64>, u64), (u64, u64), (u64, u64), (Option<u64>, u64)),
) -> StatemapRect {
    if deltas.0.0 == Option::Some(r.start) {
        bumped(r, deltas.0.1)
    } else if deltas.1.0 == r.start {
        bumped(r, deltas.1.1)
    } else if deltas.3.0 == Option::Some(r.start) {
        bumped(r, deltas.3.1)
    } else {
        r
    }
}

impl StatemapEntity {
    /// Applies the weight deltas a subsumption reported to the in-memory
    /// rectangles and returns the weight-index edits, in order: an edit
    /// `(start, old_weight, Some(delta))` for each adjusted rectangle and
    /// `(start, old_weight, None)` for the removed one.
    pub fn apply(&mut self, deltas: ((Option<u64>, u64), (u64, u64), (u64, u64), (Option<u64>, u64)))
        -> (updates: Vec<(u64, u64, Option<u64>)>)
        requires
            starts_unique(old(self).rects@),
            has_start(old(self).rects@, deltas.1.0),
            old(self).rects@[idx_of_start(old(self).rects@, deltas.1.0)].weight + deltas.1.1
                <= u64::MAX,
            deltas.0.0 is Some ==> has_start(old(self).rects@, deltas.0.0.unwrap()) && old(
                self,
            ).rects@[idx_of_start(old(self).rects@, deltas.0.0.unwrap())].weight + deltas.0.1
                <= u64::MAX && deltas.0.0.unwrap() != deltas.1.0,
            deltas.3.0 is Some ==> has_start(old(self).rects@, deltas.3.0.unwrap()) && old(
                self,
            ).rects@[idx_of_start(old(self).rects@, deltas.3.0.unwrap())].weight + deltas.3.1
                <= u64::MAX && deltas.3.0.unwrap() != deltas.1.0 && deltas.0.0
                != deltas.3.0,
        ensures
            final(self).rects@.len() == old(self).rects@.len(),
            forall|i: int|
                0 <= i < old(self).rects@.len() ==> final(self).rects@[i] == bump_by_deltas(
                    old(self).rects@[i],
                    deltas,
                ),
            updates@ == (match deltas.0.0 {
                Some(ls) => seq![
                    (ls, old(self).rects@[idx_of_start(old(self).rects@, ls)].weight, Some(
                        deltas.0.1,
                    )),
                ],
                None => Seq::<(u64, u64, Option<u64>)>::empty(),
            }) + seq![
                (deltas.1.0, old(self).rects@[idx_of_start(old(self).rects@, deltas.1.0)].weight,
                Some(deltas.1.1)),
                (deltas.2.0, deltas.2.1, Option::<u64>::None),
            ] + (match deltas.3.0 {
                Some(rs) => seq![
                    (rs, old(self).rects@[idx_of_start(old(self).rects@, rs)].weight, Some(
                        deltas.3.1,
                    )),
                ],
                None => Seq::<(u64, u64, Option<u64>)>::empty(),
            }),
            final(self).last == old(self).last,
            final(self).start == old(self).start,
            final(self).state == old(self).state,
            final(self).tag == old(self).tag,
            final(self).same_identity(old(self)),
    {
        let ghost s0 = self.rects@;
        let mut updates: Vec<(u64, u64, Option<u64>)> = Vec::new();

        if let Some(rect) = deltas.0.0 {
            let delta = deltas.0.1;
            let old_w = self.addto(rect, delta);
            updates.push((rect, old_w, Some(delta)));
        }
        proof {
            lemma_bump_preserves_starts(s0, self.rects@);
        }
        let ghost s1 = self.rects@;
        let rect_c = deltas.1.0;
        let old_c = self.addto(rect_c, deltas.1.1);
        updates.push((rect_c, old_c, Some(deltas.1.1)));
        updates.push((deltas.2.0, deltas.2.1, None));
        proof {
            lemma_bump_preserves_starts(s1, self.rects@);
        }
        let ghost s2 = self.rects@;
        if let Some(rect) = deltas.3.0 {
            let delta = deltas.3.1;
            let old_w = self.addto(rect, delta);
            updates.push((rect, old_w, Some(delta)));
        }
        proof {
            assert forall|i: int| 0 <= i < s0.len() implies self.rects@[i] == bump_by_deltas(
                s0[i],
                deltas,
            ) by {
                if deltas.0.0 == Option::Some(s0[i].start) {
                    lemma_idx_of_start(s0, s0[i].start, i);
                } else if deltas.1.0 == s0[i].start {
                    lemma_idx_of_start(s0, s0[i].start, i);
                    lemma_idx_of_start(s1, s0[i].start, i);
                } else if deltas.3.0 == Option::Some(s0[i].start) {
                    lemma_idx_of_start(s0, s0[i].start, i);
                    lemma_idx_of_start(s2, s0[i].start, i);
                }
            }
            if deltas.0.0 is Some {
                let ls = deltas.0.0.unwrap();
                lemma_idx_of_start(s0, ls, idx_of_start(s0, ls));
            }
            let ci = idx_of_start(s0, deltas.1.0);
            lemma_idx_of_start(s1, deltas.1.0, ci);
            if deltas.3.0 is Some {
                let rs = deltas.3.0.unwrap();
                let ri = idx_of_start(s0, rs);
                lemma_idx_of_start(s1, rs, ri);
                lemma_idx_of_start(s2, rs, ri);
            }
        }
        updates
    }
}

/// A weight bump keeps every start in place, so lookups by start are
/// stable across `addto`.
proof fn lemma_bump_preserves_starts(s0: Seq<StatemapRect>, s1: Seq<StatemapRect>)
    requires
        s0.len() == s1.len(),
        forall|i: int| 0 <= i < s0.len() ==> s1[i].start == s0[i].start,
    ensures
        starts_unique(s0) ==> starts_unique(s1),
        forall|v: u64| has_start(s0, v) <==> has_start(s1, v),
{
    assert forall|v: u64| has_start(s0, v) implies has_start(s1, v) by {
        let i = choose|i: int| 0 <= i < s0.len() && s0[i].start == v;
        assert(s1[i].start == v);
    }
    assert forall|v: u64| has_start(s1, v) implies has_start(s0, v) by {
        let i = choose|i: int| 0 <= i < s1.len() && s1[i].start == v;
        assert(s0[i].start == v);
    }
}


/// Every tag list accounts for its whole rectangle: the opt-in stronger
/// check for fully tagged histories.
pub open spec fn fully_tagged(s: Seq<StatemapRect>) -> bool {
    forall|i: int|
        0 <= i < s.len() ==> ((#[trigger] s[i].tags) is Some ==> tags_sum(s[i].tags.unwrap()@)
            == s[i].duration)
}

/// Sums a duration vector, reporting `None` on a total beyond `u64`.
fn sum_u64s(v: &Vec<u64>) -> (r: Option<u64>)
    ensures
        match r {
            Some(total) => seq_sum(v@) == total,
            None => seq_sum(v@) > u64::MAX,
        },
{
    let n = v.len();
    let mut acc: u64 = 0;
    let mut i: usize = 0;
    while i < n
        invariant
            i <= n,
            n == v@.len(),
            acc == seq_sum(v@.take(i as int)),
        decreases n - i,
    {
        proof {
            crate::rect::lemma_seq_sum_take_step(v@, i as int);
            crate::rect::lemma_seq_sum_prefix_bound(v@, i as int + 1);
        }
        if v[i] > u64::MAX - acc {
            return None;
        }
        acc = acc + v[i];
        i = i + 1;
    }
    proof {
        assert(v@.take(n as int) =~= v@);
    }
    Some(acc)
}

/// Sums a tag list, reporting `None` on a total beyond `u64`.
fn sum_tag_list(v: &Vec<(usize, u64)>) -> (r: Option<u64>)
    ensures
        match r {
            Some(total) => tags_sum(v@) == total,
            None => tags_sum(v@) > u64::MAX,
        },
{
    let n = v.len();
    let mut acc: u64 = 0;
    let mut i: usize = 0;
    while i < n
        invariant
            i <= n,
            n == v@.len(),
            acc == tags_sum(v@.take(i as int)),
        decreases n - i,
    {
        proof {
            crate::rect::lemma_tags_take_sum(v@, i as int);
            crate::rect::lemma_tags_sum_prefix_bound(v@, i as int + 1);
        }
        if v[i].1 > u64::MAX - acc {
            return None;
        }
        acc = acc + v[i].1;
        i = i + 1;
    }
    proof {
        assert(v@.take(n as int) =~= v@);
    }
    Some(acc)
}

/// Checks that a tag list ascends strictly by id.
fn tags_sorted_exec(v: &Vec<(usize, u64)>) -> (r: bool)
    ensures
        r == tags_sorted(v@),
{
    let n = v.len();
    if n == 0 {
        return true;
    }
    let mut i: usize = 0;
    while i < n - 1
        invariant
            i <= n - 1,
            n == v@.len(),
            n >= 1,
            forall|p: int, q: int| 0 <= p < q <= i ==> v@[p].0 < v@[q].0,
        decreases n - i,
    {
        if v[i].0 >= v[i + 1].0 {
            return false;
        }
        i = i + 1;
    }
    true
}

impl StatemapEntity {
    /// What the entity-level verifier checks: the chain invariant, the
    /// weight identity, the trailing-rectangle bookkeeping, and full
    /// tagging of every tagged rectangle.
    pub open spec fn verify_spec(&self) -> bool {
        &&& chain_ok(self.rects@)
        &&& weights_ok(self.rects@)
        &&& self.last_ok()
        &&& fully_tagged(self.rects@)
    }

    /// Checks the rectangle list invariants, including the stronger
    /// demand that tagged rectangles are tagged over their whole
    /// duration.
    pub fn verify(&self) -> (r: bool)
        ensures
            r == self.verify_spec(),
    {
        let n = self.rects.len();
        if n == 0 {
            return self.last.is_none();
        }
        match self.last {
            Some(l) => {
                if l != self.rects[n - 1].start {
                    return false;
                }
            },
            None => {
                return false;
            },
        }
        let mut i: usize = 0;
        while i < n
            invariant
                i <= n,
                n == self.rects@.len(),
                n >= 1,
                forall|j: int| 0 <= j < i ==> #[trigger] chain_ok_at(self.rects@, j),
                forall|j: int|
                    0 <= j < i ==> (#[trigger] self.rects@[j].weight) == weight_at(self.rects@, j),
                forall|j: int|
                    0 <= j < i ==> ((#[trigger] self.rects@[j].tags) is Some ==> tags_sum(
                        self.rects@[j].tags.unwrap()@,
                    ) == self.rects@[j].duration),
            decreases n - i,
        {
            let ghost sq = self.rects@;
            let ghost ii = i as int;
            let rd = self.rects[i].duration;
            let rs = self.rects[i].start;
            if rd == 0 {
                proof {
                    assert(!chain_ok_at(sq, ii));
                }
                return false;
            }
            if rd > u64::MAX - rs {
                proof {
                    assert(!chain_ok_at(sq, ii));
                }
                return false;
            }
            if i < n - 1 {
                if rs + rd != self.rects[i + 1].start {
                    proof {
                        assert(!chain_ok_at(sq, ii));
                    }
                    return false;
                }
            }
            let want_prev: Option<u64> = if i == 0 {
                None
            } else {
                Some(self.rects[i - 1].start)
            };
            if self.rects[i].prev != want_prev {
                proof {
                    assert(!chain_ok_at(sq, ii));
                }
                return false;
            }
            let want_next: Option<u64> = if i == n - 1 {
                None
            } else {
                Some(self.rects[i + 1].start)
            };
            if self.rects[i].next != want_next {
                proof {
                    assert(!chain_ok_at(sq, ii));
                }
                return false;
            }
            match sum_u64s(&self.rects[i].states) {
                Some(total) => {
                    if total != rd {
                        proof {
                            assert(!chain_ok_at(sq, ii));
                        }
                        return false;
                    }
                },
                None => {
                    proof {
                        assert(sq[ii].states_total() > u64::MAX);
                        assert(!chain_ok_at(sq, ii));
                    }
                    return false;
                },
            }
            let mut want_weight: u128 = rd as u128;
            if i > 0 {
                want_weight = want_weight + self.rects[i - 1].duration as u128;
            }
            if i < n - 1 {
                want_weight = want_weight + self.rects[i + 1].duration as u128;
            }
            if self.rects[i].weight as u128 != want_weight {
                proof {
                    assert(want_weight == weight_at(sq, ii));
                    assert(sq[ii].weight != weight_at(sq, ii));
                }
                return false;
            }
            match &self.rects[i].tags {
                Some(tl) => {
                    if !tags_sorted_exec(tl) {
                        proof {
                            assert(!sq[ii].tags_wf());
                            assert(!chain_ok_at(sq, ii));
                        }
                        return false;
                    }
                    match sum_tag_list(tl) {
                        Some(total) => {
                            if total != rd {
                                proof {
                                    if tags_sum(sq[ii].tags.unwrap()@) > sq[ii].duration {
                                        assert(!chain_ok_at(sq, ii));
                                    } else {
                                        assert(!fully_tagged(sq));
                                    }
                                }
                                return false;
                            }
                        },
                        None => {
                            proof {
                                assert(!sq[ii].tags_wf());
                                assert(!chain_ok_at(sq, ii));
                            }
                            return false;
                        },
                    }
                },
                None => {},
            }
            proof {
                assert(chain_ok_at(self.rects@, i as int));
            }
            i = i + 1;
        }
        true
    }
}


/// Equal in everything but the weight.
pub open spec fn same_except_weight(x: StatemapRect, y: StatemapRect) -> bool {
    &&& x.start == y.start
    &&& x.duration == y.duration
    &&& x.states@ == y.states@
    &&& x.prev == y.prev
    &&& x.next == y.next
    &&& x.tags == y.tags
}

/// The non-weight part of `merged_props`.
pub open spec fn merged_struct(m: StatemapRect, x: StatemapRect, y: StatemapRect) -> bool {
    &&& m.start == x.start
    &&& m.duration == x.duration + y.duration
    &&& m.prev == x.prev
    &&& m.next == y.next
    &&& m.states@ == seq_add(x.states@, y.states@)
    &&& (m.tags is Some <==> (x.tags is Some || y.tags is Some))
    &&& m.tag_total() == x.tag_total() + y.tag_total()
    &&& (forall|id: int|
        #![trigger rect_tag_val(m, id)]
        rect_tag_val(m, id) == rect_tag_val(x, id) + rect_tag_val(y, id))
    &&& (m.tags is Some ==> tags_sorted(m.tags.unwrap()@))
}

/// The finished result of a subsumption at slot `a`: the pair merged,
/// the chain relinked, and every weight carrying the weight identity
/// again.
pub open spec fn is_coalesced(t: Seq<StatemapRect>, s: Seq<StatemapRect>, a: int) -> bool {
    &&& 0 <= a < s.len() - 1
    &&& t.len() == s.len() - 1
    &&& (forall|i: int| 0 <= i < a ==> same_except_weight(#[trigger] t[i], s[i]))
    &&& (forall|i: int| a + 1 < i < t.len() ==> same_except_weight(#[trigger] t[i], s[i + 1]))
    &&& (a + 1 < t.len() ==> same_except_weight(
        t[a + 1],
        StatemapRect { prev: Option::Some(s[a].start), ..s[a + 2] },
    ))
    &&& merged_struct(t[a], s[a], s[a + 1])
    &&& weights_ok(t)
}

/// The chain conditions read nothing but the weight field's neighbors'
/// structure, so reweighting a chain keeps it intact.
pub proof fn lemma_chain_ok_weight_irrelevant(m: Seq<StatemapRect>, t: Seq<StatemapRect>)
    requires
        m.len() == t.len(),
        forall|i: int| 0 <= i < m.len() ==> same_except_weight(#[trigger] t[i], m[i]),
        chain_ok(m),
    ensures
        chain_ok(t),
{
    assert forall|i: int| 0 <= i < t.len() implies #[trigger] chain_ok_at(t, i) by {
        assert(chain_ok_at(m, i));
        assert(same_except_weight(t[i], m[i]));
        if i > 0 {
            assert(same_except_weight(t[i - 1], m[i - 1]));
        }
        if i < t.len() - 1 {
            assert(same_except_weight(t[i + 1], m[i + 1]));
        }
        assert(t[i].states_total() == m[i].states_total());
        assert(t[i].tags_wf() == m[i].tags_wf());
    }
}

/// The weight edits reported for a merge at `a` stay in range, and each
/// names a rectangle the merged list still holds.
pub proof fn lemma_deltas_fit(m: Seq<StatemapRect>, s: Seq<StatemapRect>, a: int)
    requires
        chain_ok(s),
        weights_ok(s),
        states_len_uniform(s),
        is_merge_of(m, s, a),
    ensures
        a > 0 ==> m[a - 1] == s[a - 1] && s[a - 1].weight + s[a + 1].duration <= u64::MAX,
        m[a].weight == s[a].weight && s[a].weight + (if a + 2 < s.len() {
            s[a + 2].duration as int
        } else {
            0
        }) <= u64::MAX,
        a + 2 < s.len() ==> m[a + 1].start == s[a + 2].start && m[a + 1].weight == s[a + 2].weight
            && s[a + 2].weight + s[a].duration <= u64::MAX,
        starts_unique(m),
        chain_ok(m),
{
    assert(chain_ok_at(s, a));
    assert(chain_ok_at(s, a + 1));
    if a > 0 {
        assert(chain_ok_at(s, a - 1));
    }
    if a >= 2 {
        assert(chain_ok_at(s, a - 2));
    }
    if a + 2 < s.len() {
        assert(chain_ok_at(s, a + 2));
    }
    if a + 3 < s.len() {
        assert(chain_ok_at(s, a + 3));
    }
    lemma_merge_wf(m, s, a);
    lemma_chain_starts_unique(m);
}

/// The weight identity holds at every slot of the finished list.
#[verifier::rlimit(100)]
proof fn lemma_coalesced_weights(
    t: Seq<StatemapRect>,
    m: Seq<StatemapRect>,
    s: Seq<StatemapRect>,
    a: int,
)
    requires
        chain_ok(s),
        weights_ok(s),
        states_len_uniform(s),
        is_merge_of(m, s, a),
        t.len() == m.len(),
        forall|i: int|
            0 <= i < t.len() && i != a && i != a - 1 && i != a + 1 ==> #[trigger] t[i] == m[i],
        forall|i: int| 0 <= i < m.len() ==> same_except_weight(#[trigger] t[i], m[i]),
        a > 0 ==> t[a - 1] == bumped(m[a - 1], s[a + 1].duration),
        t[a] == bumped(m[a], deltas_at(s, a).1.1),
        a + 1 < m.len() ==> t[a + 1] == bumped(m[a + 1], s[a].duration),
    ensures
        weights_ok(t),
{
    lemma_deltas_fit(m, s, a);
    assert forall|i: int| 0 <= i < t.len() implies (#[trigger] t[i].weight) == weight_at(t, i) by {
        assert(chain_ok_at(s, a));
        assert(chain_ok_at(s, a + 1));
        if i < a - 1 {
            assert(t[i] == m[i] && m[i] == s[i]);
            assert(i + 1 < a ==> m[i + 1] == s[i + 1]);
            assert(t[i + 1].duration == m[i + 1].duration);
            if i > 0 {
                assert(t[i - 1] == m[i - 1] && m[i - 1] == s[i - 1]);
            }
            assert(s[i].weight == weight_at(s, i));
        } else if i == a - 1 {
            if i > 0 {
                assert(t[i - 1] == m[i - 1] && m[i - 1] == s[i - 1]);
            }
            assert(s[a - 1].weight == weight_at(s, a - 1));
        } else if i == a {
            if a > 0 {
                assert(t[a - 1].duration == s[a - 1].duration);
            }
            assert(s[a].weight == weight_at(s, a));
            if a + 1 < t.len() {
                assert(t[a + 1].duration == s[a + 2].duration);
            }
        } else if i == a + 1 {
            assert(s[a + 2].weight == weight_at(s, a + 2));
            if i + 1 < t.len() {
                assert(t[i + 1] == m[i + 1] && m[i + 1] == s[i + 2]);
            }
        } else {
            assert(t[i] == m[i] && m[i] == s[i + 1]);
            assert(s[i + 1].weight == weight_at(s, i + 1));
            assert(t[i - 1].duration == s[i].duration);
            if i + 1 < t.len() {
                assert(t[i + 1] == m[i + 1] && m[i + 1] == s[i + 2]);
            }
        }
    }
}

/// After the deltas of a merge at `a` are applied, the list is coalesced:
/// every weight meets the identity again, the chain is intact, and the
/// totals are those of the original list.
#[verifier::rlimit(100)]
pub proof fn lemma_coalesced_wf(
    t: Seq<StatemapRect>,
    m: Seq<StatemapRect>,
    s: Seq<StatemapRect>,
    a: int,
)
    requires
        chain_ok(s),
        weights_ok(s),
        states_len_uniform(s),
        is_merge_of(m, s, a),
        t.len() == m.len(),
        forall|i: int| 0 <= i < m.len() ==> t[i] == bump_by_deltas(#[trigger] m[i], deltas_at(s, a)),
    ensures
        is_coalesced(t, s, a),
        chain_ok(t),
        states_len_uniform(t),
        forall|st: int|
            0 <= st < s[0].states@.len() ==> #[trigger] rects_state_total(t, st)
                == rects_state_total(s, st),
        rects_tag_total(t) == rects_tag_total(s),
        t[a].weight == s[a].weight + (if a + 2 < s.len() {
            s[a + 2].duration as int
        } else {
            0
        }),
        a > 0 ==> t[a - 1] == (StatemapRect {
            weight: (s[a - 1].weight + s[a + 1].duration) as u64,
            ..s[a - 1]
        }),
        a + 1 < t.len() ==> t[a + 1] == (StatemapRect {
            weight: (s[a + 2].weight + s[a].duration) as u64,
            prev: Option::Some(s[a].start),
            ..s[a + 2]
        }),
        forall|i: int|
            0 <= i < t.len() && i != a && i != a - 1 && i != a + 1 ==> #[trigger] t[i] == (if i
                < a {
                s[i]
            } else {
                s[i + 1]
            }),
    decreases 0int,
{
    lemma_merge_wf(m, s, a);
    lemma_deltas_fit(m, s, a);
    lemma_chain_starts_unique(s);
    let d = deltas_at(s, a);
    // which bump hits which slot
    assert forall|i: int| 0 <= i < m.len() implies same_except_weight(t[i], m[i]) by {
        assert(t[i] == bump_by_deltas(m[i], d));
    }
    lemma_chain_ok_weight_irrelevant(m, t);
    assert forall|i: int| 0 <= i < t.len() implies (#[trigger] t[i].states@.len())
        == t[0].states@.len() by {
        assert(same_except_weight(t[i], m[i]));
        assert(same_except_weight(t[0], m[0]));
        assert(m[i].states@.len() == m[0].states@.len());
    }
    // nobody but the three targeted slots is touched
    assert forall|i: int| 0 <= i < m.len() && i != a && i != a - 1 && i != a + 1 implies t[i]
        == m[i] by {
        assert(chain_ok_at(s, a));
        let oi = if i < a {
            i
        } else {
            i + 1
        };
        if i < a {
            assert(m[i] == s[i]);
        }
        if a > 0 {
            assert(m[a - 1] == s[a - 1]);
        }
        assert(m[i].start == s[oi].start);
        if d.0.0 == Option::Some(m[i].start) {
            assert(a > 0 && s[a].prev == Option::Some(s[a - 1].start));
            assert(s[a - 1].start == s[oi].start);
            if a - 1 != oi {
                if a - 1 < oi {
                    assert(s[a - 1].start != s[oi].start);
                } else {
                    assert(s[oi].start != s[a - 1].start);
                }
            }
        }
        if d.1.0 == m[i].start {
            if a != oi {
                if a < oi {
                    assert(s[a].start != s[oi].start);
                } else {
                    assert(s[oi].start != s[a].start);
                }
            }
        }
        if d.3.0 == Option::Some(m[i].start) {
            assert(a + 2 < s.len() && s[a + 2].start == s[oi].start);
            if a + 2 != oi {
                if a + 2 < oi {
                    assert(s[a + 2].start != s[oi].start);
                } else {
                    assert(s[oi].start != s[a + 2].start);
                }
            }
        }
    }
    // and the targeted slots get exactly their delta
    assert(chain_ok_at(s, a));
    if a > 0 {
        assert(m[a - 1] == s[a - 1]);
        assert(d.0.0 == Option::Some(m[a - 1].start));
        assert(t[a - 1] == bumped(m[a - 1], s[a + 1].duration));
    }
    assert(m[a].start == s[a].start);
    if a > 0 {
        lemma_chain_starts_increase(s, a - 1, a);
        assert(d.0.0 != Option::Some(m[a].start));
    }
    assert(t[a] == bumped(m[a], d.1.1));
    if a + 1 < m.len() {
        assert(m[a + 1].start == s[a + 2].start);
        lemma_chain_starts_increase(s, a, a + 2);
        if a > 0 {
            lemma_chain_starts_increase(s, a - 1, a + 2);
        }
        assert(d.3.0 == Option::Some(m[a + 1].start));
        assert(t[a + 1] == bumped(m[a + 1], s[a].duration));
    }
    // the weight identity holds everywhere in the result
    lemma_coalesced_weights(t, m, s, a);
    assert forall|id: int|
        #![trigger rect_tag_val(t[a], id)]
        rect_tag_val(t[a], id) == rect_tag_val(s[a], id) + rect_tag_val(s[a + 1], id) by {
        assert(rect_tag_val(m[a], id) == rect_tag_val(s[a], id) + rect_tag_val(s[a + 1], id));
        assert(t[a].tags == m[a].tags);
    }
    // totals: the bumps leave states and tags alone
    assert forall|st: int|
        0 <= st < s[0].states@.len() implies #[trigger] rects_state_total(t, st)
        == rects_state_total(s, st) by {
        lemma_state_total_congruent(t, m, st);
        lemma_merge_wf(m, s, a);
    }
    assert forall|i: int| 0 <= i < t.len() implies t[i].tag_total() == m[i].tag_total() by {
        assert(same_except_weight(t[i], m[i]));
    }
    lemma_tag_total_congruent(t, m);
}


pub proof fn lemma_state_total_take_step(s: Seq<StatemapRect>, i: int, st: int)
    requires
        0 <= i < s.len(),
    ensures
        rects_state_total(s.take(i + 1), st) == rects_state_total(s.take(i), st)
            + s[i].states@[st],
{
    assert(s.take(i + 1).drop_last() =~= s.take(i));
    assert(s.take(i + 1).last() == s[i]);
}

/// A prefix of the per-state totals never exceeds the whole (the
/// accumulators are unsigned), and the whole fits in a `u64` because the
/// rectangles tile one span of the timeline.
pub proof fn lemma_state_total_prefix_bound(s: Seq<StatemapRect>, i: int, st: int)
    requires
        0 <= i <= s.len(),
        chain_ok(s),
        forall|j: int| 0 <= j < s.len() ==> 0 <= st < (#[trigger] s[j].states@).len(),
    ensures
        rects_state_total(s.take(i), st) <= rects_state_total(s, st),
        0 <= rects_state_total(s.take(i), st),
    decreases s.len() - i,
{
    lemma_state_total_nonneg(s.take(i), st);
    if i < s.len() {
        lemma_state_total_take_step(s, i, st);
        lemma_state_total_prefix_bound(s, i + 1, st);
    } else {
        assert(s.take(i) =~= s);
    }
}

proof fn lemma_state_total_nonneg(s: Seq<StatemapRect>, st: int)
    ensures
        rects_state_total(s, st) >= 0,
    decreases s.len(),
{
    if s.len() > 0 {
        lemma_state_total_nonneg(s.drop_last(), st);
    }
}

/// What the span bound needs of each rectangle: contiguity with its
/// successor, the state identity, and an in-range accumulator index.
spec fn span_ok_at(s: Seq<StatemapRect>, j: int, st: int) -> bool {
    &&& (j < s.len() - 1 ==> s[j].start + s[j].duration == s[j + 1].start)
    &&& s[j].states_total() == s[j].duration
    &&& s[j].start + s[j].duration <= u64::MAX
    &&& 0 <= st < s[j].states@.len()
}

spec fn span_ok(s: Seq<StatemapRect>, st: int) -> bool {
    forall|j: int| 0 <= j < s.len() ==> #[trigger] span_ok_at(s, j, st)
}

/// The total time in one state never exceeds the spanned interval, so it
/// fits in a `u64`.
pub proof fn lemma_state_total_fits(s: Seq<StatemapRect>, st: int)
    requires
        chain_ok(s),
        forall|j: int| 0 <= j < s.len() ==> 0 <= st < (#[trigger] s[j].states@).len(),
    ensures
        rects_state_total(s, st) <= u64::MAX,
{
    if s.len() > 0 {
        assert forall|j: int| 0 <= j < s.len() implies #[trigger] span_ok_at(s, j, st) by {
            assert(chain_ok_at(s, j));
        }
        lemma_state_total_fits_span(s, st);
        assert(span_ok_at(s, 0, st));
        assert(span_ok_at(s, s.len() - 1, st));
    } else {
        assert(rects_state_total(s, st) == 0);
    }
}

proof fn lemma_state_total_fits_span(s: Seq<StatemapRect>, st: int)
    requires
        s.len() > 0,
        span_ok(s, st),
    ensures
        rects_state_total(s, st) <= s.last().start + s.last().duration - s[0].start,
    decreases s.len(),
{
    assert(span_ok_at(s, s.len() - 1, st));
    crate::rect::lemma_seq_sum_element(s.last().states@, st);
    crate::rect::lemma_seq_sum_nonneg(s.last().states@);
    if s.len() == 1 {
        assert(rects_state_total(s.drop_last(), st) == 0);
    } else {
        let d = s.drop_last();
        assert forall|j: int| 0 <= j < d.len() implies #[trigger] span_ok_at(d, j, st) by {
            assert(span_ok_at(s, j, st));
        }
        lemma_state_total_fits_span(d, st);
        assert(span_ok_at(s, s.len() - 2, st));
        assert(d.last() == s[s.len() - 2]);
        assert(d[0] == s[0]);
    }
}


} // verus!
