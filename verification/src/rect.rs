use vstd::prelude::*;

verus! {

/// One interval on an entity's timeline.  `states` spreads the duration
/// over the state indices (a freshly made rectangle has a single nonzero
/// entry; a coalesced one may blend several).  `prev`/`next` are the start
/// times of the neighboring rectangles on the same entity, and `weight` is
/// the coalescing priority: this rectangle's duration plus both neighbors'.
#[derive(Debug)]
pub struct StatemapRect {
    pub start: u64,
    pub duration: u64,
    pub weight: u64,
    pub states: Vec<u64>,
    pub prev: Option<u64>,
    pub next: Option<u64>,
    pub tags: Option<Vec<(usize, u64)>>,
}

/// Sum of a sequence of durations, as a mathematical integer.
pub open spec fn seq_sum(s: Seq<u64>) -> int
    decreases s.len(),
{
    if s.len() == 0 {
        0
    } else {
        seq_sum(s.drop_last()) + s.last()
    }
}

/// Sum of the durations in a tag list.
pub open spec fn tags_sum(s: Seq<(usize, u64)>) -> int
    decreases s.len(),
{
    if s.len() == 0 {
        0
    } else {
        tags_sum(s.drop_last()) + s.last().1
    }
}

/// Time the list ascribes to one tag id.
pub open spec fn tag_val(s: Seq<(usize, u64)>, id: int) -> int
    decreases s.len(),
{
    if s.len() == 0 {
        0
    } else {
        tag_val(s.drop_last(), id) + (if s.last().0 == id {
            s.last().1 as int
        } else {
            0
        })
    }
}

/// A tag list is kept strictly sorted by tag id, so ids are unique and
/// iteration order is id order.
pub open spec fn tags_sorted(s: Seq<(usize, u64)>) -> bool {
    forall|i: int, j: int| 0 <= i < j < s.len() ==> s[i].0 < s[j].0
}

pub proof fn lemma_seq_sum_nonneg(s: Seq<u64>)
    ensures
        seq_sum(s) >= 0,
    decreases s.len(),
{
    if s.len() > 0 {
        lemma_seq_sum_nonneg(s.drop_last());
    }
}

pub proof fn lemma_tags_sum_nonneg(s: Seq<(usize, u64)>)
    ensures
        tags_sum(s) >= 0,
    decreases s.len(),
{
    if s.len() > 0 {
        lemma_tags_sum_nonneg(s.drop_last());
    }
}

/// Each element of a duration vector is bounded by the total.
pub proof fn lemma_seq_sum_element(s: Seq<u64>, i: int)
    requires
        0 <= i < s.len(),
    ensures
        s[i] <= seq_sum(s),
    decreases s.len(),
{
    lemma_seq_sum_nonneg(s.drop_last());
    if i < s.len() - 1 {
        lemma_seq_sum_element(s.drop_last(), i);
    }
}

/// Summing two duration vectors elementwise adds their totals.
pub open spec fn seq_add(a: Seq<u64>, b: Seq<u64>) -> Seq<u64> {
    Seq::new(a.len(), |i: int| (a[i] + b[i]) as u64)
}

pub proof fn lemma_seq_sum_add(a: Seq<u64>, b: Seq<u64>)
    requires
        a.len() == b.len(),
        forall|i: int| 0 <= i < a.len() ==> a[i] + b[i] <= u64::MAX,
    ensures
        seq_sum(seq_add(a, b)) == seq_sum(a) + seq_sum(b),
    decreases a.len(),
{
    if a.len() > 0 {
        lemma_seq_sum_add(a.drop_last(), b.drop_last());
        assert(seq_add(a, b).drop_last() =~= seq_add(a.drop_last(), b.drop_last()));
        assert(seq_add(a, b).last() == (a.last() + b.last()) as u64);
    }
}

/// A vector that is zero except for `duration` at index `state` sums to
/// `duration`.
pub proof fn lemma_seq_sum_single(s: Seq<u64>, k: int, v: u64)
    requires
        0 <= k < s.len(),
        s[k] == v,
        forall|i: int| 0 <= i < s.len() && i != k ==> s[i] == 0,
    ensures
        seq_sum(s) == v,
    decreases s.len(),
{
    if k == s.len() - 1 {
        lemma_seq_sum_zero(s.drop_last());
    } else {
        lemma_seq_sum_single(s.drop_last(), k, v);
    }
}

pub proof fn lemma_seq_sum_zero(s: Seq<u64>)
    requires
        forall|i: int| 0 <= i < s.len() ==> s[i] == 0,
    ensures
        seq_sum(s) == 0,
    decreases s.len(),
{
    if s.len() > 0 {
        lemma_seq_sum_zero(s.drop_last());
    }
}

impl StatemapRect {
    /// Total time this rectangle ascribes to all states.
    pub open spec fn states_total(&self) -> int {
        seq_sum(self.states@)
    }

    /// Total time this rectangle ascribes to tags (0 when untagged).
    pub open spec fn tag_total(&self) -> int {
        match self.tags {
            Some(t) => tags_sum(t@),
            None => 0,
        }
    }

    /// The tag list, when present, is sorted by id and never exceeds the
    /// rectangle's duration (a rectangle merged from partially tagged
    /// history can carry less tagged time than its duration).
    pub open spec fn tags_wf(&self) -> bool {
        match self.tags {
            Some(t) => tags_sorted(t@) && tags_sum(t@) <= self.duration,
            None => true,
        }
    }

    pub fn new(start: u64, duration: u64, state: u32, nstates: u32) -> (r: Self)
        requires
            state < nstates,
        ensures
            r.start == start,
            r.duration == duration,
            r.weight == duration,
            r.prev is None,
            r.next is None,
            r.tags is None,
            r.states@.len() == nstates,
            r.states@[state as int] == duration,
            forall|i: int| 0 <= i < nstates && i != state ==> r.states@[i] == 0,
            r.states_total() == duration,
    {
        let mut states: Vec<u64> = Vec::new();
        let mut i: u32 = 0;
        while i < nstates
            invariant
                i <= nstates,
                states@.len() == i,
                forall|j: int| 0 <= j < i ==> states@[j] == 0,
            decreases nstates - i,
        {
            states.push(0);
            i = i + 1;
        }
        states[state as usize] = duration;
        let r = StatemapRect {
            start,
            duration,
            states,
            prev: None,
            next: None,
            weight: duration,
            tags: None,
        };
        proof {
            lemma_seq_sum_single(r.states@, state as int, duration);
        }
        r
    }
}

/// Folds the victim's tags into the survivor's, summing the duration of
/// each tag id; both lists stay sorted by id.  The victim's list is
/// drained.
pub fn subsume_tags(stags: &mut Vec<(usize, u64)>, vtags: &mut Vec<(usize, u64)>)
    requires
        tags_sorted(old(stags)@),
        tags_sorted(old(vtags)@),
        tags_sum(old(stags)@) + tags_sum(old(vtags)@) <= u64::MAX,
    ensures
        tags_sorted(final(stags)@),
        tags_sum(final(stags)@) == tags_sum(old(stags)@) + tags_sum(old(vtags)@),
        forall|id: int|
            #![trigger tag_val(final(stags)@, id)]
            tag_val(final(stags)@, id) == tag_val(old(stags)@, id) + tag_val(old(vtags)@, id),
        final(vtags)@.len() == 0,
{
    let mut merged: Vec<(usize, u64)> = Vec::new();
    let mut si: usize = 0;
    let mut vi: usize = 0;
    proof {
        lemma_tags_sum_nonneg(old(stags)@);
        lemma_tags_sum_nonneg(old(vtags)@);
    }
    while si < stags.len() || vi < vtags.len()
        invariant
            si <= stags@.len(),
            vi <= vtags@.len(),
            stags@ == old(stags)@,
            vtags@ == old(vtags)@,
            tags_sorted(stags@),
            tags_sorted(vtags@),
            tags_sorted(merged@),
            tags_sum(merged@) == tags_sum(stags@.take(si as int)) + tags_sum(vtags@.take(vi as int)),
            forall|id: int|
                #![trigger tag_val(merged@, id)]
                tag_val(merged@, id) == tag_val(stags@.take(si as int), id) + tag_val(
                    vtags@.take(vi as int),
                    id,
                ),
            tags_sum(stags@.take(si as int)) + tags_sum(vtags@.take(vi as int)) >= 0,
            merged@.len() > 0 && si < stags@.len() ==> merged@.last().0 < stags@[si as int].0,
            merged@.len() > 0 && vi < vtags@.len() ==> merged@.last().0 < vtags@[vi as int].0,
            tags_sum(stags@) + tags_sum(vtags@) <= u64::MAX,
        decreases stags@.len() - si + vtags@.len() - vi,
    {
        proof {
            lemma_tags_take_sum(stags@, si as int);
            lemma_tags_take_sum(vtags@, vi as int);
            lemma_tag_val_take_step(stags@, si as int);
            lemma_tag_val_take_step(vtags@, vi as int);
            lemma_tags_sum_prefix_bound(stags@, si as int);
            lemma_tags_sum_prefix_bound(vtags@, vi as int);
            lemma_tags_sum_nonneg(stags@);
            lemma_tags_sum_nonneg(vtags@);
            if si < stags@.len() {
                lemma_tags_sum_element(stags@, si as int);
            }
            if vi < vtags@.len() {
                lemma_tags_sum_element(vtags@, vi as int);
            }
        }
        let ghost m0 = merged@;
        if si < stags.len() && vi < vtags.len() && stags[si].0 == vtags[vi].0 {
            let d: u64 = stags[si].1 + vtags[vi].1;
            merged.push((stags[si].0, d));
            proof {
                assert(merged@.drop_last() =~= m0);
                assert forall|id: int| #![trigger tag_val(merged@, id)] true implies tag_val(
                    merged@,
                    id,
                ) == tag_val(stags@.take(si as int + 1), id) + tag_val(
                    vtags@.take(vi as int + 1),
                    id,
                ) by {
                    assert(tag_val(m0, id) == tag_val(stags@.take(si as int), id) + tag_val(
                        vtags@.take(vi as int),
                        id,
                    ));
                }
            }
            si = si + 1;
            vi = vi + 1;
        } else if vi >= vtags.len() || (si < stags.len() && stags[si].0 < vtags[vi].0) {
            merged.push(stags[si]);
            proof {
                assert(merged@.drop_last() =~= m0);
                assert forall|id: int| #![trigger tag_val(merged@, id)] true implies tag_val(
                    merged@,
                    id,
                ) == tag_val(stags@.take(si as int + 1), id) + tag_val(
                    vtags@.take(vi as int),
                    id,
                ) by {
                    assert(tag_val(m0, id) == tag_val(stags@.take(si as int), id) + tag_val(
                        vtags@.take(vi as int),
                        id,
                    ));
                }
            }
            si = si + 1;
        } else {
            merged.push(vtags[vi]);
            proof {
                assert(merged@.drop_last() =~= m0);
                assert forall|id: int| #![trigger tag_val(merged@, id)] true implies tag_val(
                    merged@,
                    id,
                ) == tag_val(stags@.take(si as int), id) + tag_val(
                    vtags@.take(vi as int + 1),
                    id,
                ) by {
                    assert(tag_val(m0, id) == tag_val(stags@.take(si as int), id) + tag_val(
                        vtags@.take(vi as int),
                        id,
                    ));
                }
            }
            vi = vi + 1;
        }
    }
    proof {
        assert(stags@.take(si as int) =~= stags@);
        assert(vtags@.take(vi as int) =~= vtags@);
    }
    vtags.clear();
    *stags = merged;
}

/// The sum of a prefix one longer is the prefix sum plus the next element.
pub proof fn lemma_tags_take_sum(s: Seq<(usize, u64)>, i: int)
    requires
        0 <= i <= s.len(),
    ensures
        i < s.len() ==> tags_sum(s.take(i + 1)) == tags_sum(s.take(i)) + s[i].1,
{
    if i < s.len() {
        assert(s.take(i + 1).drop_last() =~= s.take(i));
        assert(s.take(i + 1).last() == s[i]);
    }
}

pub proof fn lemma_seq_sum_take_step(s: Seq<u64>, i: int)
    requires
        0 <= i < s.len(),
    ensures
        seq_sum(s.take(i + 1)) == seq_sum(s.take(i)) + s[i],
{
    assert(s.take(i + 1).drop_last() =~= s.take(i));
    assert(s.take(i + 1).last() == s[i]);
}

pub proof fn lemma_seq_sum_prefix_bound(s: Seq<u64>, i: int)
    requires
        0 <= i <= s.len(),
    ensures
        seq_sum(s.take(i)) <= seq_sum(s),
        seq_sum(s.take(i)) >= 0,
    decreases s.len() - i,
{
    lemma_seq_sum_nonneg(s.take(i));
    if i < s.len() {
        lemma_seq_sum_take_step(s, i);
        lemma_seq_sum_prefix_bound(s, i + 1);
    } else {
        assert(s.take(i) =~= s);
    }
}

pub proof fn lemma_tags_sum_singleton(p: (usize, u64))
    ensures
        tags_sum(seq![p]) == p.1,
{
    assert(seq![p].drop_last() =~= Seq::<(usize, u64)>::empty());
    assert(tags_sum(Seq::<(usize, u64)>::empty()) == 0);
}

/// Each tag's duration is bounded by the total of its list.
proof fn lemma_tags_sum_element(s: Seq<(usize, u64)>, i: int)
    requires
        0 <= i < s.len(),
    ensures
        s[i].1 <= tags_sum(s),
    decreases s.len(),
{
    lemma_tags_sum_nonneg(s.drop_last());
    if i < s.len() - 1 {
        lemma_tags_sum_element(s.drop_last(), i);
    }
}

/// The per-id total of a prefix one longer adds the next entry's share.
pub proof fn lemma_tag_val_take_step(s: Seq<(usize, u64)>, i: int)
    requires
        0 <= i <= s.len(),
    ensures
        i < s.len() ==> forall|id: int|
            #![trigger tag_val(s.take(i + 1), id)]
            tag_val(s.take(i + 1), id) == tag_val(s.take(i), id) + (if s[i].0 == id {
                s[i].1 as int
            } else {
                0
            }),
{
    if i < s.len() {
        assert(s.take(i + 1).drop_last() =~= s.take(i));
        assert(s.take(i + 1).last() == s[i]);
    }
}

/// A prefix of a nonnegative-summed list never exceeds the whole.
pub proof fn lemma_tags_sum_prefix_bound(s: Seq<(usize, u64)>, i: int)
    requires
        0 <= i <= s.len(),
    ensures
        tags_sum(s.take(i)) <= tags_sum(s),
        tags_sum(s.take(i)) >= 0,
    decreases s.len() - i,
{
    lemma_tags_sum_nonneg(s.take(i));
    if i < s.len() {
        lemma_tags_take_sum(s, i);
        lemma_tags_sum_prefix_bound(s, i + 1);
    } else {
        assert(s.take(i) =~= s);
    }
}

} // verus!
