use vstd::prelude::*;
use crate::entity::has_start;
use crate::entity::idx_of_start;
use crate::entity::lemma_chain_starts_unique;
use crate::entity::lemma_idx_of_start;
use crate::json::JsonValue;
use crate::json::ParseStep;
use crate::json::json_next;
use crate::json::next_object;
use crate::json::obj_lookup;
use crate::json::obj_get;
use crate::json::parse_u64_spec;
use crate::json::parse_u64_str;
use crate::json::str_eq;
use crate::statemap::Ingest;
use crate::statemap::Statemap;
use crate::statemap::StatemapError;
use crate::weight::StatemapRectWeight;

verus! {

/// A datum names at most these fields.
pub open spec fn datum_keys_ok(fs: Seq<(String, JsonValue)>) -> bool {
    forall|i: int|
        0 <= i < fs.len() ==> ((#[trigger] fs[i]).0@ == "time"@ || fs[i].0@ == "entity"@
            || fs[i].0@ == "state"@ || fs[i].0@ == "tag"@)
}

/// An optional string-valued field: absent, `null`, or a string.
pub open spec fn opt_str_field(fs: Seq<(String, JsonValue)>, name: Seq<char>) -> bool {
    match obj_lookup(fs, name) {
        Option::None => true,
        Option::Some(JsonValue::Null) => true,
        Option::Some(JsonValue::Str(_)) => true,
        _ => false,
    }
}

pub open spec fn str_field(fs: Seq<(String, JsonValue)>, name: Seq<char>) -> bool {
    match obj_lookup(fs, name) {
        Option::Some(JsonValue::Str(_)) => true,
        _ => false,
    }
}

pub open spec fn str_field_val(fs: Seq<(String, JsonValue)>, name: Seq<char>) -> Seq<char> {
    match obj_lookup(fs, name) {
        Option::Some(JsonValue::Str(s)) => s@,
        _ => Seq::<char>::empty(),
    }
}

pub open spec fn opt_str_field_val(fs: Seq<(String, JsonValue)>, name: Seq<char>) -> Option<
    Seq<char>,
> {
    match obj_lookup(fs, name) {
        Option::Some(JsonValue::Str(s)) => Option::Some(s@),
        _ => Option::<Seq<char>>::None,
    }
}

/// A datum: a decimal-string time, an entity, a state that fits `u32`,
/// and an optional tag, with no other field.
pub open spec fn is_datum(v: JsonValue) -> bool {
    match v {
        JsonValue::Obj(fs) => {
            &&& datum_keys_ok(fs@)
            &&& (match obj_lookup(fs@, "time"@) {
                Option::Some(JsonValue::Str(s)) => parse_u64_spec(s@) is Some,
                _ => false,
            })
            &&& str_field(fs@, "entity"@)
            &&& (match obj_lookup(fs@, "state"@) {
                Option::Some(JsonValue::UInt(u)) => u <= u32::MAX,
                _ => false,
            })
            &&& opt_str_field(fs@, "tag"@)
        },
        _ => false,
    }
}

pub open spec fn datum_time(v: JsonValue) -> u64 {
    match v {
        JsonValue::Obj(fs) => (match obj_lookup(fs@, "time"@) {
            Option::Some(JsonValue::Str(s)) => parse_u64_spec(s@).unwrap(),
            _ => 0,
        }),
        _ => 0,
    }
}

pub open spec fn datum_entity(v: JsonValue) -> Seq<char> {
    match v {
        JsonValue::Obj(fs) => str_field_val(fs@, "entity"@),
        _ => Seq::<char>::empty(),
    }
}

pub open spec fn datum_state(v: JsonValue) -> u32 {
    match v {
        JsonValue::Obj(fs) => (match obj_lookup(fs@, "state"@) {
            Option::Some(JsonValue::UInt(u)) => u as u32,
            _ => 0,
        }),
        _ => 0,
    }
}

pub open spec fn datum_tag(v: JsonValue) -> Option<Seq<char>> {
    match v {
        JsonValue::Obj(fs) => opt_str_field_val(fs@, "tag"@),
        _ => Option::<Seq<char>>::None,
    }
}

/// A description: an entity and its description, nothing else.
pub open spec fn is_description(v: JsonValue) -> bool {
    match v {
        JsonValue::Obj(fs) => {
            &&& (forall|i: int|
                0 <= i < fs@.len() ==> ((#[trigger] fs@[i]).0@ == "entity"@ || fs@[i].0@
                    == "description"@))
            &&& str_field(fs@, "entity"@)
            &&& str_field(fs@, "description"@)
        },
        _ => false,
    }
}

/// An event: a time string (uninterpreted), an entity, an event name and
/// an optional target, nothing else.
pub open spec fn is_event(v: JsonValue) -> bool {
    match v {
        JsonValue::Obj(fs) => {
            &&& (forall|i: int|
                0 <= i < fs@.len() ==> ((#[trigger] fs@[i]).0@ == "time"@ || fs@[i].0@
                    == "entity"@ || fs@[i].0@ == "event"@ || fs@[i].0@ == "target"@))
            &&& str_field(fs@, "time"@)
            &&& str_field(fs@, "entity"@)
            &&& str_field(fs@, "event"@)
            &&& opt_str_field(fs@, "target"@)
        },
        _ => false,
    }
}

/// A tag definition: a state that fits `u32` and a tag, any other field
/// welcome (the whole object is kept as the definition payload).
pub open spec fn is_tagdef(v: JsonValue) -> bool {
    match v {
        JsonValue::Obj(fs) => {
            &&& (match obj_lookup(fs@, "state"@) {
                Option::Some(JsonValue::UInt(u)) => u <= u32::MAX,
                _ => false,
            })
            &&& str_field(fs@, "tag"@)
        },
        _ => false,
    }
}

/// Checks that every key of an object is one of as many as four allowed
/// names (an empty name stands for an unused slot).
fn keys_among(fs: &Vec<(String, JsonValue)>, k1: &str, k2: &str, k3: &str, k4: &str) -> (r: bool)
    ensures
        r == (forall|i: int|
            0 <= i < fs@.len() ==> ((#[trigger] fs@[i]).0@ == k1@ || fs@[i].0@ == k2@ || fs@[i].0@
                == k3@ || fs@[i].0@ == k4@)),
{
    let n = fs.len();
    let mut i: usize = 0;
    while i < n
        invariant
            i <= n,
            n == fs@.len(),
            forall|j: int|
                0 <= j < i ==> ((#[trigger] fs@[j]).0@ == k1@ || fs@[j].0@ == k2@ || fs@[j].0@
                    == k3@ || fs@[j].0@ == k4@),
        decreases n - i,
    {
        let name = fs[i].0.as_str();
        if !(str_eq(name, k1) || str_eq(name, k2) || str_eq(name, k3) || str_eq(name, k4)) {
            return false;
        }
        i = i + 1;
    }
    true
}

/// A string field's value, if the field is a string.
fn get_str_field<'a>(fs: &'a Vec<(String, JsonValue)>, name: &str) -> (r: Option<&'a String>)
    ensures
        (match obj_lookup(fs@, name@) {
            Option::Some(JsonValue::Str(s)) => r matches Some(rs) && *rs == s,
            _ => r is None,
        }),
{
    match obj_get(fs, name) {
        Some(JsonValue::Str(s)) => Some(s),
        _ => None,
    }
}

/// Everything that relates the statemap before a rectangle is appended
/// to entity `eidx` (`m0`) and after the append and its two or three
/// weight-index edits (`m1`).
pub open spec fn append_ctx(m0: Statemap, m1: Statemap, eidx: usize, eff: u64) -> bool {
    let e0 = m0.entities@[eidx as int];
    let e1 = m1.entities@[eidx as int];
    let n = e0.rects@.len() as int;
    &&& m0.wf()
    &&& (eidx as int) < m0.entities@.len()
    &&& m0.entities@.len() <= usize::MAX
    &&& m1.entities@.len() == m0.entities@.len()
    &&& (forall|e: int|
        0 <= e < m0.entities@.len() && e != eidx as int ==> m1.entities@[e] == m0.entities@[e])
    &&& e1.name == e0.name
    &&& e1.rects@.len() == n + 1
    &&& (forall|i: int| 0 <= i < n - 1 ==> e1.rects@[i] == e0.rects@[i])
    &&& (n > 0 ==> e1.rects@[n - 1].start == e0.rects@[n - 1].start)
    &&& e1.rects@[n].start == eff
    &&& m1.entity_ok(eidx as int)
    &&& m1.byweight@ == (if n > 0 {
        m0.byweight@.remove(
            StatemapRectWeight {
                weight: e0.rects@[n - 1].weight,
                start: e0.rects@[n - 1].start,
                entity: eidx,
            },
        ).insert(
            StatemapRectWeight {
                weight: e1.rects@[n - 1].weight,
                start: e1.rects@[n - 1].start,
                entity: eidx,
            },
        ).insert(StatemapRectWeight { weight: e1.rects@[n].weight, start: eff, entity: eidx })
    } else {
        m0.byweight@.insert(
            StatemapRectWeight { weight: e1.rects@[n].weight, start: eff, entity: eidx },
        )
    })
    &&& m1.byweight.inv()
    &&& m1.states == m0.states
    &&& m1.tags@ == m0.tags@
    &&& m1.config == m0.config
}

/// After a rectangle is appended and the reported weight edits are
/// replayed, the whole statemap invariant holds again, and the index
/// grew by at most two keys.
#[verifier::rlimit(100)]
proof fn lemma_append_reindex(m0: Statemap, m1: Statemap, eidx: usize, eff: u64)
    requires
        append_ctx(m0, m1, eidx, eff),
    ensures
        m1.wf(),
        m1.byweight@.len() <= m0.byweight@.len() + 2,
{
    broadcast use vstd::set::group_set_axioms;

    let e0 = m0.entities@[eidx as int];
    let e1 = m1.entities@[eidx as int];
    let n = e0.rects@.len() as int;
    let t = e1.rects@;
    assert(m0.entity_ok(eidx as int));
    lemma_chain_starts_unique(e0.rects@);
    lemma_chain_starts_unique(t);
    assert forall|j: int| 0 <= j < e0.rects@.len() implies idx_of_start(
        e0.rects@,
        #[trigger] e0.rects@[j].start,
    ) == j by {
        lemma_idx_of_start(e0.rects@, e0.rects@[j].start, j);
    }
    assert forall|j: int| 0 <= j < t.len() implies idx_of_start(t, #[trigger] t[j].start) == j by {
        lemma_idx_of_start(t, t[j].start, j);
    }
    // entities stay well formed
    assert forall|e: int| 0 <= e < m1.entities@.len() implies #[trigger] m1.entity_ok(e) by {
        if e != eidx as int {
            assert(m0.entity_ok(e));
            assert(m1.entities@[e] == m0.entities@[e]);
        }
    }
    assert(m1.entities_wf());
    assert forall|t1: int, t2: int|
        0 <= t1 < t2 < m1.tags@.len() implies !(m1.tags@[t1].state == m1.tags@[t2].state
        && m1.tags@[t1].tag@ == m1.tags@[t2].tag@) by {
        assert(m0.tags@[t1] == m1.tags@[t1] && m0.tags@[t2] == m1.tags@[t2]);
    }
    assert(m1.tags_ok());
    // the edited keys
    let krhs = StatemapRectWeight { weight: e1.rects@[n].weight, start: eff, entity: eidx };
    // soundness
    assert forall|k: StatemapRectWeight| m1.byweight@.contains(k) implies #[trigger] m1.entry_matches(
        k,
    ) by {
        if k == krhs {
            assert(t[n].start == eff);
        } else if n > 0 && k == (StatemapRectWeight {
            weight: e1.rects@[n - 1].weight,
            start: e1.rects@[n - 1].start,
            entity: eidx,
        }) {
        } else {
            assert(m0.byweight@.contains(k));
            assert(m0.entry_matches(k));
            if k.entity != eidx {
                assert(m1.entities@[k.entity as int] == m0.entities@[k.entity as int]);
            } else {
                let j = idx_of_start(e0.rects@, k.start);
                assert(0 <= j < n && e0.rects@[j].start == k.start);
                assert(k == StatemapRectWeight {
                    weight: e0.rects@[j].weight,
                    start: e0.rects@[j].start,
                    entity: eidx,
                });
                assert(j != n - 1);
                assert(t[j] == e0.rects@[j]);
            }
        }
    }
    assert(m1.index_sound());
    // completeness
    assert forall|e: int, i: int|
        0 <= e < m1.entities@.len() && 0 <= i < m1.entities@[e].rects@.len()
            && m1.entities@[e].rects@.len() >= 2 implies m1.byweight@.contains(
        #[trigger] m1.rect_key(e, i),
    ) by {
        if e != eidx as int {
            assert(m1.rect_key(e, i) == m0.rect_key(e, i));
            assert(m0.byweight@.contains(m0.rect_key(e, i)));
            assert(m0.rect_key(e, i).entity != eidx);
        } else {
            if i == n {
                assert(m1.rect_key(e, i) == krhs);
            } else if i == n - 1 {
            } else {
                assert(t[i] == e0.rects@[i]);
                assert(m1.rect_key(e, i) == m0.rect_key(eidx as int, i));
                let k = m0.rect_key(eidx as int, i);
                assert(m0.byweight@.contains(k));
                if n > 0 {
                    assert(crate::entity::chain_ok_at(e0.rects@, i));
                    assert(k.start == e0.rects@[i].start);
                    assert(e0.rects@[i].start != e0.rects@[n - 1].start);
                }
            }
        }
    }
    assert(m1.index_complete());
    m0.byweight.lemma_inv_facts();
    m1.byweight.lemma_inv_facts();
}


impl Statemap {
    /// Sets the open interval of an entity whose rectangles need no
    /// change: either it has none yet, or the new time equals the open
    /// start it already had.
    fn set_open(&mut self, eidx: usize, time: u64, st: u32, tg: Option<usize>)
        requires
            old(self).wf(),
            (eidx as int) < old(self).entities@.len(),
            (st as int) < old(self).states@.len(),
            old(self).entities@[eidx as int].rects@.len() == 0 || old(self).entities@[eidx as int].start == Some(time),
        ensures
            final(self).wf(),
            final(self).entities@.len() == old(self).entities@.len(),
            forall|e: int|
                0 <= e < old(self).entities@.len() && e != eidx as int ==> final(self).entities@[e] == old(self).entities@[e],
            final(self).entities@[eidx as int] == (crate::entity::StatemapEntity {
                start: Option::Some(time),
                state: Option::Some(st),
                tag: tg,
                ..old(self).entities@[eidx as int]
            }),
            final(self).byweight == old(self).byweight,
            final(self).states == old(self).states,
            final(self).tags == old(self).tags,
            final(self).config == old(self).config,
            final(self).metadata == old(self).metadata,
            final(self).nrecs == old(self).nrecs,
            final(self).nevents == old(self).nevents,
    {
        proof {
            assert(old(self).entity_ok(eidx as int));
        }
        let er = vstd::std_specs::vec::vec_index_mut(&mut self.entities, eidx);
        er.start = Some(time);
        er.state = Some(st);
        er.tag = tg;
        proof {
            assert forall|e: int| 0 <= e < self.entities@.len() implies #[trigger] self.entity_ok(
                e,
            ) by {
                if e != eidx as int {
                    assert(old(self).entity_ok(e));
                } else {
                    assert(old(self).entity_ok(e));
                    assert(self.entities@[e].rects@ == old(self).entities@[e].rects@);
                }
            }
            assert forall|k: StatemapRectWeight| self.byweight@.contains(
                k,
            ) implies #[trigger] self.entry_matches(k) by {
                assert(old(self).entry_matches(k));
            }
            assert forall|e: int, i: int|
                0 <= e < self.entities@.len() && 0 <= i < self.entities@[e].rects@.len()
                    && self.entities@[e].rects@.len() >= 2 implies self.byweight@.contains(
                #[trigger] self.rect_key(e, i),
            ) by {
                assert(self.rect_key(e, i) == old(self).rect_key(e, i));
                assert(old(self).byweight@.contains(old(self).rect_key(e, i)));
            }
        }
    }

    /// One accepted datum for an interned entity: rejects a time that
    /// runs backwards; otherwise, when the datum falls past the begin
    /// clip and moves time forward, closes the open interval (clamped to
    /// the clip) as a new rectangle and indexes it; and in every accepted
    /// case leaves `(time, state, tag)` as the open interval.  A datum
    /// repeating the open start only replaces the open state: a
    /// zero-width rectangle would break the chain's strict ordering.
    pub fn apply_datum(&mut self, eidx: usize, time: u64, st: u32, tg: Option<usize>) -> (r: Result<
        (),
        StatemapError,
    >)
        requires
            old(self).wf(),
            (eidx as int) < old(self).entities@.len(),
            (st as int) < old(self).states@.len(),
        ensures
            final(self).wf(),
            final(self).entities@.len() == old(self).entities@.len(),
            forall|e: int|
                0 <= e < old(self).entities@.len() && e != eidx as int ==> final(self).entities@[e] == old(self).entities@[e],
            final(self).states == old(self).states,
            final(self).tags == old(self).tags,
            final(self).config == old(self).config,
            final(self).metadata == old(self).metadata,
            final(self).nrecs == old(self).nrecs,
            final(self).nevents == old(self).nevents,
            final(self).byweight@.len() <= old(self).byweight@.len() + 2,
            ({
                let e0 = old(self).entities@[eidx as int];
                let e1 = final(self).entities@[eidx as int];
                match e0.start {
                    Some(prior) => {
                        if time < prior {
                            // out of order: rejected, nothing changed
                            &&& (r matches Err(err) && err.errmsg@ == out_of_order_msg(
                                time,
                                prior,
                            ))
                            &&& *final(self) == *old(self)
                        } else if time > old(self).config.begin {
                            // the clip cannot cut an already-built history
                            let eff = if prior < old(self).config.begin {
                                old(self).config.begin
                            } else {
                                prior
                            };
                            if time > eff {
                                &&& r is Ok
                                &&& e1.name == e0.name
                                &&& e1.description == e0.description
                                &&& e1.id == e0.id
                                &&& e1.rects@.len() == e0.rects@.len() + 1
                                &&& (forall|i: int|
                                    0 <= i < e0.rects@.len() - 1 ==> e1.rects@[i] == e0.rects@[i])
                                &&& (e0.rects@.len() > 0 ==> e1.rects@[e0.rects@.len() - 1]
                                    == (crate::rect::StatemapRect {
                                    next: Option::Some(eff),
                                    weight: (e0.rects@.last().weight + (time - eff)) as u64,
                                    ..e0.rects@.last()
                                }))
                                &&& e1.rects@.last().start == eff
                                &&& e1.rects@.last().duration == time - eff
                                &&& e1.rects@.last().states@.len() == old(self).states@.len()
                                &&& e1.rects@.last().states@[e0.state.unwrap() as int] == time
                                    - eff
                                &&& (forall|j: int|
                                    0 <= j < old(self).states@.len() && j != e0.state.unwrap()
                                        ==> e1.rects@.last().states@[j] == 0)
                                &&& (match e0.tag {
                                    Some(id) => e1.rects@.last().tags is Some
                                        && e1.rects@.last().tags.unwrap()@ == seq![
                                        (id, (time - eff) as u64),
                                    ],
                                    None => e1.rects@.last().tags is None,
                                })
                                &&& e1.start == Some(time)
                                &&& e1.state == Some(st)
                                &&& e1.tag == tg
                                &&& (forall|st2: int|
                                    0 <= st2 < old(self).states@.len()
                                        ==> #[trigger] e1.state_total(st2) == e0.state_total(st2)
                                        + (if st2 == e0.state.unwrap() as int {
                                        (time - eff) as int
                                    } else {
                                        0
                                    }))
                                &&& e1.tag_total() == e0.tag_total() + (if e0.tag is Some {
                                    (time - eff) as int
                                } else {
                                    0
                                })
                            } else {
                                &&& r is Ok
                                &&& e1 == (crate::entity::StatemapEntity {
                                    start: Option::Some(time),
                                    state: Option::Some(st),
                                    tag: tg,
                                    ..e0
                                })
                                &&& final(self).byweight == old(self).byweight
                            }
                        } else {
                            &&& r is Ok
                            &&& e1 == (crate::entity::StatemapEntity {
                                start: Option::Some(time),
                                state: Option::Some(st),
                                tag: tg,
                                ..e0
                            })
                            &&& final(self).byweight == old(self).byweight
                        }
                    },
                    None => {
                        &&& r is Ok
                        &&& e1 == (crate::entity::StatemapEntity {
                            start: Option::Some(time),
                            state: Option::Some(st),
                            tag: tg,
                            ..e0
                        })
                        &&& final(self).byweight == old(self).byweight
                    },
                }
            }),
    {
        let n_entities = self.entities.len();
        let begin = self.config.begin;
        let nstates = self.states.len();
        let prior_opt = self.entities[eidx].start;
        match prior_opt {
            None => {
                proof {
                    assert(old(self).entity_ok(eidx as int));
                }
                self.set_open(eidx, time, st, tg);
                Ok(())
            },
            Some(prior) => {
                if time < prior {
                    let msg = crate::json::u64_to_string(time);
                    let mut head = String::from_str("time ");
                    head.append(msg.as_str());
                    head.append(" is out of order with respect to prior time ");
                    let ptext = crate::json::u64_to_string(prior);
                    head.append(ptext.as_str());
                    return Err(StatemapError { errmsg: head });
                }
                if time > begin {
                    let eff: u64 = if prior < begin {
                        begin
                    } else {
                        prior
                    };
                    if time > eff {
                        proof {
                            assert(old(self).entity_ok(eidx as int));
                            if prior < begin {
                                assert(old(self).entities@[eidx as int].rects@.len() == 0);
                            }
                        }
                        let ghost m0 = *old(self);
                        let er = vstd::std_specs::vec::vec_index_mut(&mut self.entities, eidx);
                        if prior < begin {
                            er.start = Some(begin);
                        }
                        proof {
                            assert(er.rects_wf() && er.last_ok() && er.open_ok());
                            assert(er.start == Some(eff));
                        }
                        let rval = er.newrect(time, nstates as u32);
                        let ghost emid = *er;
                        er.start = Some(time);
                        er.state = Some(st);
                        er.tag = tg;
                        let ghost e1g = *er;
                        match rval.0 {
                            Some(lhs) => {
                                let kold = StatemapRectWeight {
                                    weight: lhs.1,
                                    start: lhs.0,
                                    entity: eidx,
                                };
                                self.byweight.remove(&kold);
                                self.byweight.insert(
                                    StatemapRectWeight { weight: lhs.2, start: lhs.0, entity: eidx },
                                );
                            },
                            None => {},
                        }
                        self.byweight.insert(
                            StatemapRectWeight {
                                weight: rval.1.1,
                                start: rval.1.0,
                                entity: eidx,
                            },
                        );
                        proof {
                            broadcast use vstd::set::group_set_axioms;

                            let e0 = m0.entities@[eidx as int];
                            let e1 = self.entities@[eidx as int];
                            let n = e0.rects@.len() as int;
                            assert(e1 == e1g);
                            assert(e1.rects@.len() == n + 1);
                            assert(self.entity_ok(eidx as int)) by {
                                assert(e1.rects_wf() && e1.last_ok());
                                assert(e1.start == Some(time));
                                assert(e1.rects@.last().start + e1.rects@.last().duration == time);
                            }
                            assert(append_ctx(m0, *self, eidx, eff));
                            lemma_append_reindex(m0, *self, eidx, eff);
                            m0.byweight.lemma_inv_facts();
                            assert forall|st2: int|
                                0 <= st2 < m0.states@.len() implies #[trigger] e1.state_total(st2)
                                == e0.state_total(st2) + (if st2 == e0.state.unwrap() as int {
                                (time - eff) as int
                            } else {
                                0
                            }) by {
                                assert(emid.state_total(st2) == e0.state_total(st2) + (if st2
                                    == e0.state.unwrap() as int {
                                    (time - eff) as int
                                } else {
                                    0
                                }));
                                assert(e1.rects@ == emid.rects@);
                            }
                        }
                        Ok(())
                    } else {
                        self.set_open(eidx, time, st, tg);
                        Ok(())
                    }
                } else {
                    proof {
                        assert(old(self).entity_ok(eidx as int));
                        if old(self).entities@[eidx as int].rects@.len() > 0 {
                            assert(prior > begin);
                        }
                    }
                    self.set_open(eidx, time, st, tg);
                    Ok(())
                }
            },
        }
    }
}


/// What a datum running backwards from the open interval reports.
pub open spec fn out_of_order_msg(time: u64, prior: u64) -> Seq<char> {
    "time "@ + crate::json::dec_str(time as int)
        + " is out of order with respect to prior time "@ + crate::json::dec_str(prior as int)
}

/// The tag id a datum carrying `tag` receives.
pub open spec fn tag_result(m: Statemap, st: u32, tag: Option<Seq<char>>) -> Option<usize> {
    if m.config.notags || tag is None {
        Option::<usize>::None
    } else {
        match m.tag_id_of(st, tag.unwrap()) {
            Option::Some(t) => Option::Some(t as usize),
            Option::None => Option::Some(m.tags@.len() as usize),
        }
    }
}

/// Extracts a datum's fields when the object is one.
fn classify_datum(v: &JsonValue) -> (r: Option<(u64, String, u32, Option<String>)>)
    ensures
        r is Some <==> is_datum(*v),
        (match r {
            Some(t) => t.0 == datum_time(*v) && t.1@ == datum_entity(*v) && t.2 == datum_state(*v)
                && (match datum_tag(*v) {
                Option::Some(tv) => t.3 matches Some(ts) && ts@ == tv,
                Option::None => t.3 is None,
            }),
            None => true,
        }),
{
    match v {
        JsonValue::Obj(fs) => {
            if !keys_among(fs, "time", "entity", "state", "tag") {
                return None;
            }
            let time: u64 = match get_str_field(fs, "time") {
                Some(ts) => match parse_u64_str(ts.as_str()) {
                    Some(t) => t,
                    None => {
                        return None;
                    },
                },
                None => {
                    return None;
                },
            };
            let ename: String = match get_str_field(fs, "entity") {
                Some(es) => es.clone(),
                None => {
                    return None;
                },
            };
            let st: u32 = match obj_get(fs, "state") {
                Some(JsonValue::UInt(u)) => {
                    if *u > u32::MAX as u64 {
                        return None;
                    }
                    *u as u32
                },
                _ => {
                    return None;
                },
            };
            let tag: Option<String> = match obj_get(fs, "tag") {
                None => None,
                Some(JsonValue::Null) => None,
                Some(JsonValue::Str(s)) => Some(s.clone()),
                _ => {
                    return None;
                },
            };
            Some((time, ename, st, tag))
        },
        _ => None,
    }
}

/// Extracts a description's fields when the object is one.
fn classify_description(v: &JsonValue) -> (r: Option<(String, String)>)
    ensures
        r is Some <==> is_description(*v),
        (match r {
            Some(t) => (match *v {
                JsonValue::Obj(fs) => t.0@ == str_field_val(fs@, "entity"@) && t.1@
                    == str_field_val(fs@, "description"@),
                _ => false,
            }),
            None => true,
        }),
{
    match v {
        JsonValue::Obj(fs) => {
            if !keys_among(fs, "entity", "description", "entity", "description") {
                return None;
            }
            let ename: String = match get_str_field(fs, "entity") {
                Some(es) => es.clone(),
                None => {
                    return None;
                },
            };
            let desc: String = match get_str_field(fs, "description") {
                Some(ds) => ds.clone(),
                None => {
                    return None;
                },
            };
            Some((ename, desc))
        },
        _ => None,
    }
}

fn classify_event(v: &JsonValue) -> (r: bool)
    ensures
        r == is_event(*v),
{
    match v {
        JsonValue::Obj(fs) => {
            if !keys_among(fs, "time", "entity", "event", "target") {
                return false;
            }
            if get_str_field(fs, "time").is_none() {
                return false;
            }
            if get_str_field(fs, "entity").is_none() {
                return false;
            }
            if get_str_field(fs, "event").is_none() {
                return false;
            }
            match obj_get(fs, "target") {
                None => true,
                Some(JsonValue::Null) => true,
                Some(JsonValue::Str(_)) => true,
                _ => false,
            }
        },
        _ => false,
    }
}

/// Extracts a tag definition's key when the object is one.
fn classify_tagdef(v: &JsonValue) -> (r: Option<(u32, String)>)
    ensures
        r is Some <==> is_tagdef(*v),
        (match r {
            Some(t) => (match *v {
                JsonValue::Obj(fs) => (match obj_lookup(fs@, "state"@) {
                    Option::Some(JsonValue::UInt(u)) => t.0 == u as u32,
                    _ => false,
                }) && t.1@ == str_field_val(fs@, "tag"@),
                _ => false,
            }),
            None => true,
        }),
{
    match v {
        JsonValue::Obj(fs) => {
            let st: u32 = match obj_get(fs, "state") {
                Some(JsonValue::UInt(u)) => {
                    if *u > u32::MAX as u64 {
                        return None;
                    }
                    *u as u32
                },
                _ => {
                    return None;
                },
            };
            let tag: String = match get_str_field(fs, "tag") {
                Some(ts) => ts.clone(),
                None => {
                    return None;
                },
            };
            Some((st, tag))
        },
        _ => None,
    }
}

impl Statemap {
    /// Records a description for an entity, creating it on first sight.
    fn set_description(&mut self, eidx: usize, desc: String)
        requires
            old(self).wf(),
            (eidx as int) < old(self).entities@.len(),
        ensures
            final(self).wf(),
            final(self).entities@ == old(self).entities@.update(
                eidx as int,
                crate::entity::StatemapEntity {
                    description: Option::Some(desc),
                    ..old(self).entities@[eidx as int]
                },
            ),
            final(self).byweight == old(self).byweight,
            final(self).states == old(self).states,
            final(self).tags == old(self).tags,
            final(self).config == old(self).config,
            final(self).metadata == old(self).metadata,
            final(self).nrecs == old(self).nrecs,
            final(self).nevents == old(self).nevents,
    {
        proof {
            assert(old(self).entity_ok(eidx as int));
        }
        let er = vstd::std_specs::vec::vec_index_mut(&mut self.entities, eidx);
        er.description = Some(desc);
        proof {
            assert(self.entities@ =~= old(self).entities@.update(
                eidx as int,
                crate::entity::StatemapEntity {
                    description: self.entities@[eidx as int].description,
                    ..old(self).entities@[eidx as int]
                },
            ));
            assert forall|e: int| 0 <= e < self.entities@.len() implies #[trigger] self.entity_ok(
                e,
            ) by {
                assert(old(self).entity_ok(e));
                if e == eidx as int {
                    assert(self.entities@[e].rects@ == old(self).entities@[e].rects@);
                }
            }
            assert forall|k: StatemapRectWeight| self.byweight@.contains(
                k,
            ) implies #[trigger] self.entry_matches(k) by {
                assert(old(self).entry_matches(k));
            }
            assert forall|e: int, i: int|
                0 <= e < self.entities@.len() && 0 <= i < self.entities@[e].rects@.len()
                    && self.entities@[e].rects@.len() >= 2 implies self.byweight@.contains(
                #[trigger] self.rect_key(e, i),
            ) by {
                assert(self.rect_key(e, i) == old(self).rect_key(e, i));
                assert(old(self).byweight@.contains(old(self).rect_key(e, i)));
            }
        }
    }

    /// Defines or redefines a tag: an existing `(state, tag)` pair keeps
    /// its id and only its payload is replaced; a new pair gets the next
    /// dense id.
    fn define_tag(&mut self, st: u32, tag: String, payload: JsonValue)
        requires
            old(self).wf(),
        ensures
            final(self).wf(),
            final(self).entities == old(self).entities,
            final(self).byweight == old(self).byweight,
            final(self).states == old(self).states,
            final(self).config == old(self).config,
            final(self).metadata == old(self).metadata,
            final(self).nrecs == old(self).nrecs,
            final(self).nevents == old(self).nevents,
            (match old(self).tag_id_of(st, tag@) {
                Option::Some(t) => final(self).tags@ == old(self).tags@.update(
                    t,
                    crate::statemap::TagEntry { payload: payload, ..old(self).tags@[t] },
                ),
                Option::None => final(self).tags@.len() == old(self).tags@.len() + 1 && final(self).tags@ == old(self).tags@.push(final(self).tags@.last()) && final(self).tags@.last().state == st && final(self).tags@.last().tag@ == tag@ && final(self).tags@.last().payload == payload && final(self).tags@.last().id == old(self).tags@.len(),
            }),
    {
        let n = self.tags.len();
        let mut i: usize = 0;
        while i < n
            invariant
                old(self).wf(),
                i <= n,
                n == self.tags@.len(),
                *self == *old(self),
                forall|t: int|
                    0 <= t < i ==> !(self.tags@[t].state == st && self.tags@[t].tag@ == tag@),
            decreases n - i,
        {
            if self.tags[i].state == st && str_eq(self.tags[i].tag.as_str(), tag.as_str()) {
                proof {
                    let w = choose|t: int|
                        0 <= t < self.tags@.len() && self.tags@[t].state == st
                            && self.tags@[t].tag@ == tag@;
                    if w != i {
                        if w < i {
                            assert(!(self.tags@[w].state == st && self.tags@[w].tag@ == tag@));
                        } else {
                            assert(!(self.tags@[i as int].state == self.tags@[w].state
                                && self.tags@[i as int].tag@ == self.tags@[w].tag@));
                        }
                    }
                }
                let tr = vstd::std_specs::vec::vec_index_mut(&mut self.tags, i);
                tr.payload = payload;
                proof {
                    assert(self.tags@ =~= old(self).tags@.update(
                        i as int,
                        crate::statemap::TagEntry {
                            payload: self.tags@[i as int].payload,
                            ..old(self).tags@[i as int]
                        },
                    ));
                    assert forall|e: int|
                        0 <= e < self.entities@.len() implies #[trigger] self.entity_ok(e) by {
                        assert(old(self).entity_ok(e));
                    }
                    assert forall|k: StatemapRectWeight| self.byweight@.contains(
                        k,
                    ) implies #[trigger] self.entry_matches(k) by {
                        assert(old(self).entry_matches(k));
                    }
                    assert forall|e: int, i2: int|
                        0 <= e < self.entities@.len() && 0 <= i2 < self.entities@[e].rects@.len()
                            && self.entities@[e].rects@.len() >= 2 implies self.byweight@.contains(
                        #[trigger] self.rect_key(e, i2),
                    ) by {
                        assert(self.rect_key(e, i2) == old(self).rect_key(e, i2));
                        assert(old(self).byweight@.contains(old(self).rect_key(e, i2)));
                    }
                    assert forall|t1: int, t2: int|
                        0 <= t1 < t2 < self.tags@.len() implies !(self.tags@[t1].state
                        == self.tags@[t2].state && self.tags@[t1].tag@ == self.tags@[t2].tag@) by {
                        assert(self.tags@[t1].state == old(self).tags@[t1].state
                            && self.tags@[t1].tag@ == old(self).tags@[t1].tag@);
                        assert(self.tags@[t2].state == old(self).tags@[t2].state
                            && self.tags@[t2].tag@ == old(self).tags@[t2].tag@);
                    }
                }
                return;
            }
            i = i + 1;
        }
        let entry = crate::statemap::TagEntry { state: st, tag, payload, id: n };
        self.tags.push(entry);
        proof {
            assert(old(self).tag_id_of(st, self.tags@.last().tag@) is None);
            assert forall|e: int| 0 <= e < self.entities@.len() implies #[trigger] self.entity_ok(
                e,
            ) by {
                assert(old(self).entity_ok(e));
            }
            assert forall|k: StatemapRectWeight| self.byweight@.contains(
                k,
            ) implies #[trigger] self.entry_matches(k) by {
                assert(old(self).entry_matches(k));
            }
            assert forall|e: int, i2: int|
                0 <= e < self.entities@.len() && 0 <= i2 < self.entities@[e].rects@.len()
                    && self.entities@[e].rects@.len() >= 2 implies self.byweight@.contains(
                #[trigger] self.rect_key(e, i2),
            ) by {
                assert(self.rect_key(e, i2) == old(self).rect_key(e, i2));
                assert(old(self).byweight@.contains(old(self).rect_key(e, i2)));
            }
        }
    }
}


impl Statemap {
    /// Takes one JSON object off the front of `payload` and applies it:
    /// a datum updates an entity (ignored entirely when it falls past a
    /// positive `config.end`; rejected on an undeclared state or a time
    /// running backwards), a description annotates an entity, an event
    /// is only counted, and a tag definition binds a payload to a
    /// `(state, tag)` pair, keeping the id of a redefined pair.  An
    /// object of no known shape, or unparseable input, is rejected.
    pub fn ingest_datum(&mut self, payload: &[u8]) -> (r: Result<(Ingest, usize), StatemapError>)
        requires
            old(self).wf(),
            old(self).nevents < u64::MAX,
        ensures
            final(self).wf(),
            final(self).config == old(self).config,
            final(self).states == old(self).states,
            final(self).metadata == old(self).metadata,
            final(self).nrecs == old(self).nrecs,
            final(self).nevents <= old(self).nevents + 1,
            final(self).byweight@.len() <= old(self).byweight@.len() + 2,
            (match r {
                Ok(p) => p.1 <= payload@.len() && (p.0 is Success ==> 1 <= p.1),
                Err(_) => true,
            }),
            (match json_next(payload@) {
                ParseStep::End => (r matches Ok(p) && p.0 is EndOfFile && p.1 == 0) && *final(self)
                    == *old(self),
                ParseStep::Fail { .. } => (r matches Err(e) && e.errmsg@ == "unrecognized payload"@)
                    && *final(self) == *old(self),
                ParseStep::Value { v, consumed } => {
                    if is_datum(v) {
                        let time = datum_time(v);
                        let st = datum_state(v);
                        let ename = datum_entity(v);
                        let tg = tag_result(*old(self), st, datum_tag(v));
                        if old(self).config.end > 0 && time > old(self).config.end {
                            (r matches Ok(p) && p.0 is Success && p.1 == consumed) && *final(self)
                                == *old(self)
                        } else if st as int >= old(self).states@.len() {
                            (r matches Err(e) && e.errmsg@ == "illegal state value"@) && *final(self) == *old(self)
                        } else {
                            &&& ((old(self).config.notags || datum_tag(v) is None) ==> final(self).tags == old(self).tags)
                            &&& (!old(self).config.notags && datum_tag(v) is Some ==> (match old(self).tag_id_of(st, datum_tag(v).unwrap()) {
                                Option::Some(_) => final(self).tags == old(self).tags,
                                Option::None => final(self).tags@.len() == old(self).tags@.len()
                                    + 1 && final(self).tags@.last().state == st && final(self).tags@.last().tag@ == datum_tag(v).unwrap(),
                            }))
                            &&& (match old(self).entity_named(ename) {
                                Option::Some(ei) => {
                                    let e0 = old(self).entities@[ei];
                                    let e1 = final(self).entities@[ei];
                                    &&& final(self).entities@.len() == old(self).entities@.len()
                                    &&& (forall|e2: int|
                                        0 <= e2 < old(self).entities@.len() && e2 != ei ==> final(self).entities@[e2] == old(self).entities@[e2])
                                    &&& (match e0.start {
                                        Option::Some(prior) => {
                                            if time < prior {
                                                &&& (r matches Err(err) && err.errmsg@
                                                    == out_of_order_msg(time, prior))
                                                &&& e1 == e0
                                            } else {
                                                let eff = if prior < old(self).config.begin {
                                                    old(self).config.begin
                                                } else {
                                                    prior
                                                };
                                                &&& (r matches Ok(p) && p.0 is Success && p.1
                                                    == consumed)
                                                &&& e1.start == Some(time)
                                                &&& e1.state == Some(st)
                                                &&& e1.tag == tg
                                                &&& e1.name == e0.name
                                                &&& (time > old(self).config.begin && time > eff
                                                    ==> {
                                                    &&& e1.rects@.len() == e0.rects@.len() + 1
                                                    &&& (forall|i: int|
                                                        0 <= i < e0.rects@.len() - 1
                                                            ==> e1.rects@[i] == e0.rects@[i])
                                                    &&& (e0.rects@.len() > 0
                                                        ==> e1.rects@[e0.rects@.len() - 1]
                                                        == (crate::rect::StatemapRect {
                                                        next: Option::Some(eff),
                                                        weight: (e0.rects@.last().weight + (time
                                                            - eff)) as u64,
                                                        ..e0.rects@.last()
                                                    }))
                                                    &&& e1.rects@.last().start == eff
                                                    &&& e1.rects@.last().duration == time - eff
                                                    &&& e1.rects@.last().states@[e0.state.unwrap() as int]
                                                        == time - eff
                                                    &&& (forall|j: int|
                                                        0 <= j < old(self).states@.len() && j
                                                            != e0.state.unwrap()
                                                            ==> e1.rects@.last().states@[j] == 0)
                                                    &&& (match e0.tag {
                                                        Some(id) => e1.rects@.last().tags is Some
                                                            && e1.rects@.last().tags.unwrap()@
                                                            == seq![(id, (time - eff) as u64)],
                                                        None => e1.rects@.last().tags is None,
                                                    })
                                                    &&& (forall|st2: int|
                                                        0 <= st2 < old(self).states@.len()
                                                            ==> #[trigger] e1.state_total(st2)
                                                            == e0.state_total(st2) + (if st2
                                                            == e0.state.unwrap() as int {
                                                            (time - eff) as int
                                                        } else {
                                                            0
                                                        }))
                                                    &&& e1.tag_total() == e0.tag_total() + (
                                                    if e0.tag is Some {
                                                        (time - eff) as int
                                                    } else {
                                                        0
                                                    })
                                                })
                                                &&& (!(time > old(self).config.begin && time > eff)
                                                    ==> e1.rects@ == e0.rects@)
                                            }
                                        },
                                        Option::None => {
                                            &&& (r matches Ok(p) && p.0 is Success && p.1
                                                == consumed)
                                            &&& e1 == (crate::entity::StatemapEntity {
                                                start: Option::Some(time),
                                                state: Option::Some(st),
                                                tag: tg,
                                                ..e0
                                            })
                                        },
                                    })
                                },
                                Option::None => {
                                    let e1 = final(self).entities@[old(self).entities@.len() as int];
                                    &&& (r matches Ok(p) && p.0 is Success && p.1 == consumed)
                                    &&& final(self).entities@.len() == old(self).entities@.len()
                                        + 1
                                    &&& (forall|e2: int|
                                        0 <= e2 < old(self).entities@.len() ==> final(self).entities@[e2] == old(self).entities@[e2])
                                    &&& e1.name@ == ename
                                    &&& e1.rects@.len() == 0
                                    &&& e1.start == Some(time)
                                    &&& e1.state == Some(st)
                                    &&& e1.tag == tg
                                    &&& e1.description is None
                                },
                            })
                        }
                    } else if is_description(v) {
                        let ename = (match v {
                            JsonValue::Obj(fs) => str_field_val(fs@, "entity"@),
                            _ => Seq::<char>::empty(),
                        });
                        let dval = (match v {
                            JsonValue::Obj(fs) => str_field_val(fs@, "description"@),
                            _ => Seq::<char>::empty(),
                        });
                        &&& (r matches Ok(p) && p.0 is Success && p.1 == consumed)
                        &&& final(self).tags == old(self).tags
                        &&& final(self).byweight == old(self).byweight
                        &&& (match old(self).entity_named(ename) {
                            Option::Some(ei) => final(self).entities@.len() == old(self).entities@.len() && (forall|e2: int|
                                0 <= e2 < old(self).entities@.len() && e2 != ei ==> final(self).entities@[e2] == old(self).entities@[e2]) && final(self).entities@[ei] == (crate::entity::StatemapEntity {
                                description: final(self).entities@[ei].description,
                                ..old(self).entities@[ei]
                            }) && (final(self).entities@[ei].description matches Some(d) && d@
                                == dval),
                            Option::None => final(self).entities@.len() == old(self).entities@.len() + 1 && (forall|e2: int|
                                0 <= e2 < old(self).entities@.len() ==> final(self).entities@[e2]
                                    == old(self).entities@[e2]) && final(self).entities@.last().name@ == ename
                                && (final(self).entities@.last().description matches Some(d) && d@
                                == dval) && final(self).entities@.last().rects@.len() == 0
                                && final(self).entities@.last().start is None
                                && final(self).entities@.last().state is None,
                        })
                    } else if is_event(v) {
                        &&& (r matches Ok(p) && p.0 is Success && p.1 == consumed)
                        &&& *final(self) == (Statemap {
                            nevents: (old(self).nevents + 1) as u64,
                            ..*old(self)
                        })
                    } else if is_tagdef(v) {
                        let st = (match v {
                            JsonValue::Obj(fs) => (match obj_lookup(fs@, "state"@) {
                                Option::Some(JsonValue::UInt(u)) => u as u32,
                                _ => 0,
                            }),
                            _ => 0,
                        });
                        let tval = (match v {
                            JsonValue::Obj(fs) => str_field_val(fs@, "tag"@),
                            _ => Seq::<char>::empty(),
                        });
                        &&& (r matches Ok(p) && p.0 is Success && p.1 == consumed)
                        &&& final(self).entities == old(self).entities
                        &&& final(self).byweight == old(self).byweight
                        &&& (old(self).config.notags ==> final(self).tags == old(self).tags)
                        &&& (!old(self).config.notags ==> (match old(self).tag_id_of(st, tval) {
                            Option::Some(t) => final(self).tags@ == old(self).tags@.update(
                                t,
                                crate::statemap::TagEntry { payload: v, ..old(self).tags@[t] },
                            ),
                            Option::None => final(self).tags@.len() == old(self).tags@.len() + 1
                                && final(self).tags@ == old(self).tags@.push(
                                final(self).tags@.last(),
                            ) && final(self).tags@.last().state == st && final(self).tags@.last().tag@ == tval && final(self).tags@.last().payload == v
                                && final(self).tags@.last().id == old(self).tags@.len(),
                        }))
                    } else {
                        (r matches Err(e) && e.errmsg@ == "unrecognized payload"@) && *final(self)
                            == *old(self)
                    }
                },
            }),
    {
        match next_object(payload) {
            ParseStep::End => Ok((Ingest::EndOfFile, 0)),
            ParseStep::Fail { msg: _ } => self.err("unrecognized payload"),
            ParseStep::Value { v, consumed } => {
                match classify_datum(&v) {
                    Some((time, ename, st, tag)) => {
                        if self.config.end > 0 && time > self.config.end {
                            return Ok((Ingest::Success, consumed));
                        }
                        if st as usize >= self.states.len() {
                            return self.err("illegal state value");
                        }
                        let tg = self.tag_lookup(st, &tag);
                        let eidx = self.entity_lookup(ename.as_str());
                        match self.apply_datum(eidx, time, st, tg) {
                            Ok(()) => Ok((Ingest::Success, consumed)),
                            Err(e) => Err(e),
                        }
                    },
                    None => {
                        match classify_description(&v) {
                            Some((ename, desc)) => {
                                let eidx = self.entity_lookup(ename.as_str());
                                self.set_description(eidx, desc);
                                Ok((Ingest::Success, consumed))
                            },
                            None => {
                                if classify_event(&v) {
                                    self.nevents = self.nevents + 1;
                                    proof {
                                        assert forall|e: int|
                                            0 <= e < self.entities@.len() implies #[trigger] self.entity_ok(
                                            e,
                                        ) by {
                                            assert(old(self).entity_ok(e));
                                        }
                                        assert forall|k: StatemapRectWeight| self.byweight@.contains(
                                            k,
                                        ) implies #[trigger] self.entry_matches(k) by {
                                            assert(old(self).entry_matches(k));
                                        }
                                        assert forall|e: int, i2: int|
                                            0 <= e < self.entities@.len() && 0 <= i2
                                                < self.entities@[e].rects@.len()
                                                && self.entities@[e].rects@.len()
                                                >= 2 implies self.byweight@.contains(
                                            #[trigger] self.rect_key(e, i2),
                                        ) by {
                                            assert(self.rect_key(e, i2) == old(self).rect_key(
                                                e,
                                                i2,
                                            ));
                                            assert(old(self).byweight@.contains(
                                                old(self).rect_key(e, i2),
                                            ));
                                        }
                                    }
                                    return Ok((Ingest::Success, consumed));
                                }
                                match classify_tagdef(&v) {
                                    Some((st, tag)) => {
                                        if self.config.notags {
                                            return Ok((Ingest::Success, consumed));
                                        }
                                        self.define_tag(st, tag, v);
                                        Ok((Ingest::Success, consumed))
                                    },
                                    None => self.err("unrecognized payload"),
                                }
                            },
                        }
                    },
                }
            },
        }
    }
}


pub open spec fn uint_val(v: JsonValue) -> u64 {
    match v {
        JsonValue::UInt(u) => u,
        _ => 0,
    }
}

/// A state descriptor: its dense value, and an optional color, nothing
/// else.
pub open spec fn is_state_entry(v: JsonValue) -> bool {
    match v {
        JsonValue::Obj(gs) => {
            &&& (forall|i: int|
                0 <= i < gs@.len() ==> ((#[trigger] gs@[i]).0@ == "value"@ || gs@[i].0@
                    == "color"@))
            &&& (match obj_lookup(gs@, "value"@) {
                Option::Some(JsonValue::UInt(u)) => u <= usize::MAX as u64,
                _ => false,
            })
            &&& opt_str_field(gs@, "color"@)
        },
        _ => false,
    }
}

pub open spec fn state_entry_value(v: JsonValue) -> u64 {
    match v {
        JsonValue::Obj(gs) => (match obj_lookup(gs@, "value"@) {
            Option::Some(w) => uint_val(w),
            Option::None => 0,
        }),
        _ => 0,
    }
}

pub open spec fn state_entry_color(v: JsonValue) -> Option<Seq<char>> {
    match v {
        JsonValue::Obj(gs) => opt_str_field_val(gs@, "color"@),
        _ => Option::<Seq<char>>::None,
    }
}

/// The metadata header's shape: a two-slot unsigned `start`, a `title`,
/// a map of state descriptors whose values fill `0 .. n` exactly once
/// each, and optional `host` / `entityKind` strings.
pub open spec fn md_ok(v: JsonValue) -> bool {
    match v {
        JsonValue::Obj(fs) => {
            &&& (forall|i: int|
                0 <= i < fs@.len() ==> ((#[trigger] fs@[i]).0@ == "start"@ || fs@[i].0@
                    == "title"@ || fs@[i].0@ == "states"@ || fs@[i].0@ == "host"@ || fs@[i].0@
                    == "entityKind"@))
            &&& (match obj_lookup(fs@, "start"@) {
                Option::Some(JsonValue::Arr(a)) => (forall|i: int|
                    0 <= i < a@.len() ==> (#[trigger] a@[i]) is UInt) && a@.len() == 2,
                _ => false,
            })
            &&& str_field(fs@, "title"@)
            &&& opt_str_field(fs@, "host"@)
            &&& opt_str_field(fs@, "entityKind"@)
            &&& (match obj_lookup(fs@, "states"@) {
                Option::Some(JsonValue::Obj(sfs)) => {
                    &&& (forall|j: int| 0 <= j < sfs@.len() ==> is_state_entry(#[trigger] sfs@[j].1))
                    &&& (forall|j: int|
                        0 <= j < sfs@.len() ==> state_entry_value(#[trigger] sfs@[j].1)
                            < sfs@.len())
                    &&& (forall|j1: int, j2: int|
                        0 <= j1 < j2 < sfs@.len() ==> state_entry_value(sfs@[j1].1)
                            != state_entry_value(sfs@[j2].1))
                    &&& sfs@.len() <= u32::MAX
                },
                _ => false,
            })
        },
        _ => false,
    }
}


/// All metadata keys are known.
pub open spec fn md_keys_ok(fs: Seq<(String, JsonValue)>) -> bool {
    forall|i: int|
        0 <= i < fs.len() ==> ((#[trigger] fs[i]).0@ == "start"@ || fs[i].0@ == "title"@
            || fs[i].0@ == "states"@ || fs[i].0@ == "host"@ || fs[i].0@ == "entityKind"@)
}

/// `start` is an array of unsigned integers (of any length).
pub open spec fn md_start_elems_ok(fs: Seq<(String, JsonValue)>) -> bool {
    match obj_lookup(fs, "start"@) {
        Option::Some(JsonValue::Arr(a)) => forall|i: int|
            0 <= i < a@.len() ==> (#[trigger] a@[i]) is UInt,
        _ => false,
    }
}

pub open spec fn md_start_ok(fs: Seq<(String, JsonValue)>) -> bool {
    &&& md_start_elems_ok(fs)
    &&& (match obj_lookup(fs, "start"@) {
        Option::Some(JsonValue::Arr(a)) => a@.len() == 2,
        _ => false,
    })
}

/// Everything before the states map validates.
pub open spec fn md_pre_states_ok(fs: Seq<(String, JsonValue)>) -> bool {
    &&& md_keys_ok(fs)
    &&& md_start_ok(fs)
    &&& str_field(fs, "title"@)
    &&& opt_str_field(fs, "host"@)
    &&& opt_str_field(fs, "entityKind"@)
}

/// The state descriptor at `j` is semantically bad: its value leaves the
/// dense range, or repeats an earlier descriptor's.
pub open spec fn sem_bad_at(sfs: Seq<(String, JsonValue)>, j: int) -> bool {
    ||| state_entry_value(sfs[j].1) as int >= sfs.len()
    ||| exists|q: int|
        0 <= q < j && state_entry_value(#[trigger] sfs[q].1) == state_entry_value(sfs[j].1)
}

pub open spec fn exceeds_msg(name: Seq<char>, ndx: u64, maxv: int) -> Seq<char> {
    "state \""@ + name + "\" has value ("@ + crate::json::dec_str(ndx as int)
        + ") that exceeds maximum allowed value ("@ + crate::json::dec_str(maxv) + ")"@
}

pub open spec fn conflict_msg(name: Seq<char>, ndx: u64, prior: Seq<char>) -> Seq<char> {
    "state \""@ + name + "\" has value ("@ + crate::json::dec_str(ndx as int)
        + ") that conflicts with state \""@ + prior + "\""@
}


/// A signed integer's decimal rendering.
pub open spec fn int_render(i: int) -> Seq<char> {
    if i >= 0 {
        crate::json::dec_str(i)
    } else {
        seq!['-'] + crate::json::dec_str(-i)
    }
}

/// The first array slot at or past `j` that is no unsigned integer (the
/// length when all are).
pub open spec fn first_non_uint(a: Seq<JsonValue>, j: int) -> int
    decreases a.len() - j,
{
    if j < 0 || j >= a.len() {
        a.len() as int
    } else if !(a[j] is UInt) {
        j
    } else {
        first_non_uint(a, j + 1)
    }
}

proof fn lemma_first_non_uint_skip(a: Seq<JsonValue>, j: int)
    requires
        0 <= j <= a.len(),
        forall|q: int| 0 <= q < j ==> (#[trigger] a[q]) is UInt,
    ensures
        first_non_uint(a, 0) == first_non_uint(a, j),
    decreases j,
{
    if j > 0 {
        lemma_first_non_uint_skip(a, j - 1);
    }
}

/// The first state descriptor at or past `j` that fails: wrong shape, a
/// value out of the dense range, or a value repeating an earlier one
/// (the length when every descriptor fits).
pub open spec fn first_entry_err(sfs: Seq<(String, JsonValue)>, j: int) -> int
    decreases sfs.len() - j,
{
    if j < 0 || j >= sfs.len() {
        sfs.len() as int
    } else if !is_state_entry(sfs[j].1) || sem_bad_at(sfs, j) {
        j
    } else {
        first_entry_err(sfs, j + 1)
    }
}

proof fn lemma_first_entry_err_skip(sfs: Seq<(String, JsonValue)>, j: int)
    requires
        0 <= j <= sfs.len(),
        forall|q: int| 0 <= q < j ==> is_state_entry((#[trigger] sfs[q]).1) && !sem_bad_at(sfs, q),
    ensures
        first_entry_err(sfs, 0) == first_entry_err(sfs, j),
    decreases j,
{
    if j > 0 {
        lemma_first_entry_err_skip(sfs, j - 1);
    }
}

/// What an invalid metadata header must report, following the
/// validation order: unknown keys, then the start array (element type,
/// then length), the title, the optional strings, and the states map
/// (descriptor by descriptor: shape, then range, then duplicates).
/// Mistyped fields that are neither negative integers nor missing are
/// still rejected, but their texts are left unpinned.
pub open spec fn md_err_msgs(v: JsonValue, msg: Seq<char>) -> bool {
    match v {
        JsonValue::Obj(fs) => {
            &&& (md_keys_ok(fs@) && obj_lookup(fs@, "start"@) is None ==> msg
                == "missing field `start`"@)
            &&& (md_keys_ok(fs@) && md_start_elems_ok(fs@) && !md_start_ok(fs@) ==> msg
                == "\"start\" property must be a two element array"@)
            &&& (match obj_lookup(fs@, "start"@) {
                Option::Some(JsonValue::Arr(a)) => {
                    let jj = first_non_uint(a@, 0);
                    md_keys_ok(fs@) && jj < a@.len() && (a@[jj] matches JsonValue::NegInt(iv))
                        ==> msg == "invalid value: integer `"@ + int_render(
                        (match a@[jj] {
                            JsonValue::NegInt(iv) => iv as int,
                            _ => 0,
                        }),
                    ) + "`, expected u64"@
                },
                _ => true,
            })
            &&& (md_keys_ok(fs@) && md_start_ok(fs@) && obj_lookup(fs@, "title"@) is None ==> msg
                == "missing field `title`"@)
            &&& (md_pre_states_ok(fs@) && obj_lookup(fs@, "states"@) is None ==> msg
                == "missing field `states`"@)
            &&& (md_pre_states_ok(fs@) && (match obj_lookup(fs@, "states"@) {
                Option::Some(sv) => !(sv is Obj) && !(sv is Null),
                Option::None => false,
            }) ==> msg == "invalid type, expected a map"@)
            &&& (match obj_lookup(fs@, "states"@) {
                Option::Some(JsonValue::Obj(sfs)) => {
                    let jj = first_entry_err(sfs@, 0);
                    md_pre_states_ok(fs@) && sfs@.len() <= u32::MAX && jj < sfs@.len()
                        ==> (if !is_state_entry(sfs@[jj].1) {
                        (match sfs@[jj].1 {
                            JsonValue::Obj(gs) => {
                                (forall|i: int|
                                    0 <= i < gs@.len() ==> ((#[trigger] gs@[i]).0@ == "value"@
                                        || gs@[i].0@ == "color"@)) ==> (match obj_lookup(
                                    gs@,
                                    "value"@,
                                ) {
                                    Option::None => msg == "missing field `value`"@,
                                    Option::Some(JsonValue::NegInt(iv)) => msg
                                        == "invalid value: integer `"@ + int_render(iv as int)
                                        + "`, expected usize"@,
                                    _ => true,
                                })
                            },
                            _ => true,
                        })
                    } else if state_entry_value(sfs@[jj].1) as int >= sfs@.len() {
                        msg == exceeds_msg(
                            sfs@[jj].0@,
                            state_entry_value(sfs@[jj].1),
                            sfs@.len() - 1,
                        )
                    } else {
                        msg == conflict_msg(
                            sfs@[jj].0@,
                            state_entry_value(sfs@[jj].1),
                            sfs@[choose|q: int|
                                0 <= q < jj && state_entry_value(#[trigger] sfs@[q].1)
                                    == state_entry_value(sfs@[jj].1)].0@,
                        )
                    })
                },
                _ => true,
            })
        },
        _ => true,
    }
}

/// Renders a signed integer for an error report.
fn i64_to_string(v: i64) -> (s: String)
    ensures
        v >= 0 ==> s@ == crate::json::dec_str(v as int),
        v < 0 ==> s@ == seq!['-'] + crate::json::dec_str(-(v as int)),
{
    if v >= 0 {
        crate::json::u64_to_string(v as u64)
    } else {
        let mag: u64 = (-(v as i128)) as u64;
        let mut s = String::from_str("-");
        let m = crate::json::u64_to_string(mag);
        s.append(m.as_str());
        proof {
            reveal_strlit("-");
            assert(s@ =~= seq!['-'] + crate::json::dec_str(-(v as int)));
        }
        s
    }
}

impl Statemap {
    /// Takes the metadata header off the front of `payload`, validates
    /// it, and installs the dense state table; every shape or value
    /// problem is an error and leaves the states untouched.
    pub fn ingest_metadata(&mut self, payload: &[u8]) -> (r: Result<usize, StatemapError>)
        requires
            old(self).wf(),
            old(self).states@.len() == 0,
        ensures
            final(self).wf(),
            final(self).entities == old(self).entities,
            final(self).byweight == old(self).byweight,
            final(self).tags == old(self).tags,
            final(self).config == old(self).config,
            final(self).nrecs == old(self).nrecs,
            final(self).nevents == old(self).nevents,
            (match r {
                Ok(c) => 1 <= c <= payload@.len(),
                Err(_) => true,
            }),
            (match json_next(payload@) {
                ParseStep::End => r matches Err(e) && e.errmsg@ == "missing metadata payload"@
                    && final(self).states == old(self).states && final(self).metadata == old(self).metadata,
                ParseStep::Fail { msg } => r matches Err(e) && e.errmsg == msg && final(self).states == old(self).states && final(self).metadata == old(self).metadata,
                ParseStep::Value { v, consumed } => {
                    if md_ok(v) {
                        let fs = (match v {
                            JsonValue::Obj(fs) => fs@,
                            _ => Seq::<(String, JsonValue)>::empty(),
                        });
                        let sfs = (match obj_lookup(fs, "states"@) {
                            Option::Some(JsonValue::Obj(sfs)) => sfs@,
                            _ => Seq::<(String, JsonValue)>::empty(),
                        });
                        &&& r matches Ok(c) && c == consumed
                        &&& final(self).states@.len() == sfs.len()
                        &&& (forall|i: int|
                            0 <= i < sfs.len() ==> (#[trigger] final(self).states@[i]).value == i)
                        &&& (forall|j: int|
                            0 <= j < sfs.len() ==> {
                                let val = state_entry_value(#[trigger] sfs[j].1) as int;
                                &&& final(self).states@[val].name@ == sfs[j].0@
                                &&& (match state_entry_color(sfs[j].1) {
                                    Option::Some(cv) => (final(self).states@[val].color matches Some(
                                        c,
                                    ) && c@ == cv),
                                    Option::None => final(self).states@[val].color is None,
                                })
                            })
                        &&& (final(self).metadata matches Some(md) && md.title@ == str_field_val(
                            fs,
                            "title"@,
                        ) && (match obj_lookup(fs, "start"@) {
                            Option::Some(JsonValue::Arr(arr)) => md.start@.len() == 2
                                && md.start@[0] == uint_val(arr@[0]) && md.start@[1] == uint_val(
                                arr@[1],
                            ),
                            _ => false,
                        }) && (match opt_str_field_val(fs, "host"@) {
                            Option::Some(h) => md.host matches Some(hh) && hh@ == h,
                            Option::None => md.host is None,
                        }) && (match opt_str_field_val(fs, "entityKind"@) {
                            Option::Some(k) => md.entity_kind matches Some(kk) && kk@ == k,
                            Option::None => md.entity_kind is None,
                        }))
                    } else {
                        (r matches Err(e) && md_err_msgs(v, e.errmsg@)) && final(self).states
                            == old(self).states && final(self).metadata == old(self).metadata
                    }
                },
            }),
    {
        match next_object(payload) {
            ParseStep::End => self.err("missing metadata payload"),
            ParseStep::Fail { msg } => Err(StatemapError { errmsg: msg }),
            ParseStep::Value { v, consumed } => {
                let fs: &Vec<(String, JsonValue)> = match &v {
                    JsonValue::Obj(fs) => fs,
                    _ => {
                        return self.err("invalid type, expected the metadata object");
                    },
                };
                let mut i: usize = 0;
                let nf = fs.len();
                while i < nf
                    invariant
                        old(self).wf(),
                        old(self).states@.len() == 0,
                        json_next(payload@) == (ParseStep::Value { v, consumed }),
                        v == JsonValue::Obj(*fs),
                        i <= nf,
                        nf == fs@.len(),
                        *self == *old(self),
                        forall|j: int|
                            0 <= j < i ==> ((#[trigger] fs@[j]).0@ == "start"@ || fs@[j].0@
                                == "title"@ || fs@[j].0@ == "states"@ || fs@[j].0@ == "host"@
                                || fs@[j].0@ == "entityKind"@),
                    decreases nf - i,
                {
                    let name = fs[i].0.as_str();
                    if !(str_eq(name, "start") || str_eq(name, "title") || str_eq(name, "states")
                        || str_eq(name, "host") || str_eq(name, "entityKind")) {
                        let mut m = String::from_str("unknown field `");
                        m.append(name);
                        m.append("`");
                        proof {
                            assert(!md_ok(v));
                        }
                        return Err(StatemapError { errmsg: m });
                    }
                    i = i + 1;
                }
                // the wall-clock origin
                let start_vals: Vec<u64> = match obj_get(fs, "start") {
                    Some(JsonValue::Arr(a)) => {
                        let mut vals: Vec<u64> = Vec::new();
                        let na = a.len();
                        let mut j: usize = 0;
                        while j < na
                            invariant
                                old(self).wf(),
                                old(self).states@.len() == 0,
                                json_next(payload@) == (ParseStep::Value { v, consumed }),
                                v == JsonValue::Obj(*fs),
                                obj_lookup(fs@, "start"@) == Option::Some(JsonValue::Arr(*a)),
                                j <= na,
                                na == a@.len(),
                                *self == *old(self),
                                vals@.len() == j,
                                forall|p: int| 0 <= p < j ==> (#[trigger] a@[p]) is UInt,
                                forall|p: int| 0 <= p < j ==> (#[trigger] vals@[p]) == uint_val(a@[p]),
                            decreases na - j,
                        {
                            match &a[j] {
                                JsonValue::UInt(u) => {
                                    vals.push(*u);
                                },
                                JsonValue::NegInt(iv) => {
                                    let mut m = String::from_str("invalid value: integer `");
                                    let it = i64_to_string(*iv);
                                    m.append(it.as_str());
                                    m.append("`, expected u64");
                                    proof {
                                        assert(!((a@[j as int]) is UInt));
                                        lemma_first_non_uint_skip(a@, j as int);
                                        assert(first_non_uint(a@, 0) == j as int);
                                        assert(m@ == "invalid value: integer `"@ + int_render(
                                            *iv as int,
                                        ) + "`, expected u64"@);
                                        assert(!md_ok(v));
                                    }
                                    return Err(StatemapError { errmsg: m });
                                },
                                _ => {
                                    proof {
                                        assert(!((a@[j as int]) is UInt));
                                        lemma_first_non_uint_skip(a@, j as int);
                                        assert(first_non_uint(a@, 0) == j as int);
                                        assert(!((a@[j as int]) is NegInt));
                                        assert(!md_ok(v));
                                    }
                                    return self.err("invalid type, expected u64");
                                },
                            }
                            j = j + 1;
                        }
                        proof {
                            lemma_first_non_uint_skip(a@, na as int);
                            assert(first_non_uint(a@, 0) == a@.len());
                        }
                        if na != 2 {
                            return self.err(
                                "\"start\" property must be a two element array",
                            );
                        }
                        vals
                    },
                    Some(_) => {
                        return self.err("invalid type, expected a sequence");
                    },
                    None => {
                        return self.err("missing field `start`");
                    },
                };
                // the title
                let title: String = match get_str_field(fs, "title") {
                    Some(t) => t.clone(),
                    None => {
                        match obj_get(fs, "title") {
                            Some(_) => {
                                return self.err("invalid type, expected a string");
                            },
                            None => {
                                return self.err("missing field `title`");
                            },
                        }
                    },
                };
                let host: Option<String> = match obj_get(fs, "host") {
                    None => None,
                    Some(JsonValue::Null) => None,
                    Some(JsonValue::Str(h)) => Some(h.clone()),
                    Some(_) => {
                        return self.err("invalid type, expected a string");
                    },
                };
                let entity_kind: Option<String> = match obj_get(fs, "entityKind") {
                    None => None,
                    Some(JsonValue::Null) => None,
                    Some(JsonValue::Str(k)) => Some(k.clone()),
                    Some(_) => {
                        return self.err("invalid type, expected a string");
                    },
                };
                // the states
                let sfs: &Vec<(String, JsonValue)> = match obj_get(fs, "states") {
                    Some(JsonValue::Obj(sfs)) => sfs,
                    Some(_) => {
                        return self.err("invalid type, expected a map");
                    },
                    None => {
                        return self.err("missing field `states`");
                    },
                };
                let n = sfs.len();
                if n > u32::MAX as usize {
                    return self.err("too many states");
                }
                // validate each descriptor and place it at its value
                let mut slots: Vec<crate::statemap::StatemapState> = Vec::new();
                let mut i: usize = 0;
                while i < n
                    invariant
                        old(self).wf(),
                        old(self).states@.len() == 0,
                        json_next(payload@) == (ParseStep::Value { v, consumed }),
                        i <= n,
                        *self == *old(self),
                        slots@.len() == i,
                        forall|p: int| 0 <= p < i ==> (#[trigger] slots@[p]).value == p,
                        forall|p: int| 0 <= p < i ==> (#[trigger] slots@[p]).name@.len() == 0,
                        forall|p: int| 0 <= p < i ==> (#[trigger] slots@[p]).color is None,
                    decreases n - i,
                {
                    slots.push(
                        crate::statemap::StatemapState {
                            name: String::new(),
                            value: i,
                            color: None,
                        },
                    );
                    i = i + 1;
                }
                let mut placed: Vec<bool> = Vec::new();
                let mut i2: usize = 0;
                while i2 < n
                    invariant
                        i2 <= n,
                        *self == *old(self),
                        placed@.len() == i2,
                        forall|p: int| 0 <= p < i2 ==> placed@[p] == false,
                    decreases n - i2,
                {
                    placed.push(false);
                    i2 = i2 + 1;
                }
                let mut j: usize = 0;
                while j < n
                    invariant
                        old(self).wf(),
                        old(self).states@.len() == 0,
                        json_next(payload@) == (ParseStep::Value { v, consumed }),
                        v == JsonValue::Obj(*fs),
                        obj_lookup(fs@, "states"@) == Option::Some(JsonValue::Obj(*sfs)),
                        placed@.len() == n,
                        forall|p: int|
                            0 <= p < n ==> ((#[trigger] placed@[p]) <==> exists|q: int|
                                0 <= q < j && state_entry_value(#[trigger] sfs@[q].1) == p),
                        (forall|i2: int|
                            0 <= i2 < fs@.len() ==> ((#[trigger] fs@[i2]).0@ == "start"@
                                || fs@[i2].0@ == "title"@ || fs@[i2].0@ == "states"@ || fs@[i2].0@
                                == "host"@ || fs@[i2].0@ == "entityKind"@)),
                        (match obj_lookup(fs@, "start"@) {
                            Option::Some(JsonValue::Arr(a2)) => (forall|i2: int|
                                0 <= i2 < a2@.len() ==> (#[trigger] a2@[i2]) is UInt) && a2@.len()
                                == 2 && first_non_uint(a2@, 0) == a2@.len(),
                            _ => false,
                        }),
                        str_field(fs@, "title"@),
                        opt_str_field(fs@, "host"@),
                        opt_str_field(fs@, "entityKind"@),
                        j <= n,
                        n == sfs@.len(),
                        n <= u32::MAX,
                        *self == *old(self),
                        slots@.len() == n,
                        forall|p: int| 0 <= p < n ==> (#[trigger] slots@[p]).value == p,
                        forall|q: int| 0 <= q < j ==> is_state_entry((#[trigger] sfs@[q].1)),
                        forall|q: int|
                            0 <= q < j ==> state_entry_value(#[trigger] sfs@[q].1) < n,
                        forall|q1: int, q2: int|
                            0 <= q1 < q2 < j ==> state_entry_value(sfs@[q1].1)
                                != state_entry_value(sfs@[q2].1),
                        forall|q: int|
                            0 <= q < j ==> {
                                let val = state_entry_value(#[trigger] sfs@[q].1) as int;
                                &&& slots@[val].name@ == sfs@[q].0@
                                &&& (match state_entry_color(sfs@[q].1) {
                                    Option::Some(cv) => (slots@[val].color matches Some(c) && c@
                                        == cv),
                                    Option::None => slots@[val].color is None,
                                })
                            },
                        forall|p: int|
                            0 <= p < n && (forall|q: int|
                                0 <= q < j ==> state_entry_value(#[trigger] sfs@[q].1) != p) ==> (
                            #[trigger] slots@[p]).name@.len() == 0 && slots@[p].color is None,
                    decreases n - j,
                {
                    let key = &sfs[j].0;
                    let entry: &Vec<(String, JsonValue)> = match &sfs[j].1 {
                        JsonValue::Obj(gs) => gs,
                        _ => {
                            proof {
                                assert(!is_state_entry(sfs@[j as int].1));
                                assert forall|q: int| 0 <= q < j implies !sem_bad_at(sfs@, q) by {
                                    assert(state_entry_value(sfs@[q].1) < n);
                                }
                                lemma_first_entry_err_skip(sfs@, j as int);
                                assert(first_entry_err(sfs@, 0) == j as int);
                                assert(!md_ok(v));
                            }
                            return self.err("invalid type, expected struct");
                        },
                    };
                    if !keys_among(entry, "value", "color", "value", "color") {
                        proof {
                            assert(sfs@[j as int].1 == JsonValue::Obj(*entry));
                            assert(!is_state_entry(sfs@[j as int].1));
                            assert forall|q: int| 0 <= q < j implies !sem_bad_at(sfs@, q) by {
                                assert(state_entry_value(sfs@[q].1) < n);
                            }
                            lemma_first_entry_err_skip(sfs@, j as int);
                            assert(first_entry_err(sfs@, 0) == j as int);
                            assert(!md_ok(v));
                        }
                        return self.err("unknown field in state descriptor");
                    }
                    let ndx: u64 = match obj_get(entry, "value") {
                        Some(JsonValue::UInt(u)) => *u,
                        Some(JsonValue::NegInt(iv)) => {
                            let mut m = String::from_str("invalid value: integer `");
                            let it = i64_to_string(*iv);
                            m.append(it.as_str());
                            m.append("`, expected usize");
                            proof {
                                assert(sfs@[j as int].1 == JsonValue::Obj(*entry));
                                assert(!is_state_entry(sfs@[j as int].1));
                                assert forall|q: int| 0 <= q < j implies !sem_bad_at(sfs@, q) by {
                                    assert(state_entry_value(sfs@[q].1) < n);
                                }
                                lemma_first_entry_err_skip(sfs@, j as int);
                                assert(first_entry_err(sfs@, 0) == j as int);
                                assert(m@ == "invalid value: integer `"@ + int_render(*iv as int)
                                    + "`, expected usize"@);
                                assert(!md_ok(v));
                            }
                            return Err(StatemapError { errmsg: m });
                        },
                        Some(_) => {
                            proof {
                                assert(sfs@[j as int].1 == JsonValue::Obj(*entry));
                                assert(!is_state_entry(sfs@[j as int].1));
                                assert forall|q: int| 0 <= q < j implies !sem_bad_at(sfs@, q) by {
                                    assert(state_entry_value(sfs@[q].1) < n);
                                }
                                lemma_first_entry_err_skip(sfs@, j as int);
                                assert(first_entry_err(sfs@, 0) == j as int);
                                assert(!md_ok(v));
                            }
                            return self.err("invalid type, expected usize");
                        },
                        None => {
                            proof {
                                assert(sfs@[j as int].1 == JsonValue::Obj(*entry));
                                assert(!is_state_entry(sfs@[j as int].1));
                                assert forall|q: int| 0 <= q < j implies !sem_bad_at(sfs@, q) by {
                                    assert(state_entry_value(sfs@[q].1) < n);
                                }
                                lemma_first_entry_err_skip(sfs@, j as int);
                                assert(first_entry_err(sfs@, 0) == j as int);
                                assert(!md_ok(v));
                            }
                            return self.err("missing field `value`");
                        },
                    };
                    let color: Option<String> = match obj_get(entry, "color") {
                        None => None,
                        Some(JsonValue::Null) => None,
                        Some(JsonValue::Str(c)) => Some(c.clone()),
                        Some(_) => {
                            proof {
                                assert(sfs@[j as int].1 == JsonValue::Obj(*entry));
                                assert(!is_state_entry(sfs@[j as int].1));
                                assert forall|q: int| 0 <= q < j implies !sem_bad_at(sfs@, q) by {
                                    assert(state_entry_value(sfs@[q].1) < n);
                                }
                                lemma_first_entry_err_skip(sfs@, j as int);
                                assert(first_entry_err(sfs@, 0) == j as int);
                                assert(obj_lookup(entry@, "value"@) matches Option::Some(w) && w
                                    is UInt);
                                assert(!md_ok(v));
                            }
                            return self.err("invalid type, expected a string");
                        },
                    };
                    proof {
                        assert(state_entry_value(sfs@[j as int].1) == ndx);
                        assert forall|q: int| 0 <= q < j implies !sem_bad_at(sfs@, q) by {
                            assert(state_entry_value(sfs@[q].1) < n);
                        }
                    }
                    if ndx >= n as u64 {
                        let mut m = String::from_str("state \"");
                        m.append(key.as_str());
                        m.append("\" has value (");
                        let nt = crate::json::u64_to_string(ndx);
                        m.append(nt.as_str());
                        m.append(") that exceeds maximum allowed value (");
                        let mt = crate::json::u64_to_string((n - 1) as u64);
                        m.append(mt.as_str());
                        m.append(")");
                        proof {
                            assert(sem_bad_at(sfs@, j as int));
                            lemma_first_entry_err_skip(sfs@, j as int);
                            assert(first_entry_err(sfs@, 0) == j as int);
                            if !is_state_entry(sfs@[j as int].1) {
                                assert(sfs@[j as int].1 == JsonValue::Obj(*entry));
                                assert(obj_lookup(entry@, "value"@) matches Option::Some(w) && w
                                    is UInt);
                            } else {
                                assert(m@ == exceeds_msg(sfs@[j as int].0@, ndx, n as int - 1));
                            }
                            assert(!md_ok(v));
                        }
                        return Err(StatemapError { errmsg: m });
                    }
                    let ndxu = ndx as usize;
                    if placed[ndxu] {
                        let mut m = String::from_str("state \"");
                        m.append(key.as_str());
                        m.append("\" has value (");
                        let nt = crate::json::u64_to_string(ndx);
                        m.append(nt.as_str());
                        m.append(") that conflicts with state \"");
                        m.append(slots[ndxu].name.as_str());
                        m.append("\"");
                        proof {
                            let q0 = choose|q0: int|
                                0 <= q0 < j && state_entry_value(#[trigger] sfs@[q0].1)
                                    == ndxu as int;
                            assert(state_entry_value(sfs@[q0].1) == state_entry_value(
                                sfs@[j as int].1,
                            ));
                            assert(sem_bad_at(sfs@, j as int));
                            assert(is_state_entry(sfs@[j as int].1)) by {
                                assert(sfs@[j as int].1 == JsonValue::Obj(*entry));
                                assert(ndx < n as u64 && n <= u32::MAX);
                            }
                            lemma_first_entry_err_skip(sfs@, j as int);
                            assert(first_entry_err(sfs@, 0) == j as int);
                            let qc = choose|q: int|
                                0 <= q < j && state_entry_value(#[trigger] sfs@[q].1)
                                    == state_entry_value(sfs@[j as int].1);
                            assert(qc == q0) by {
                                if qc != q0 {
                                    assert(state_entry_value(sfs@[qc].1) == state_entry_value(
                                        sfs@[q0].1,
                                    ));
                                }
                            }
                            assert(slots@[ndxu as int].name@ == sfs@[q0].0@);
                            assert(m@ == conflict_msg(sfs@[j as int].0@, ndx, sfs@[q0].0@));
                            assert(!md_ok(v));
                        }
                        return Err(StatemapError { errmsg: m });
                    }
                    proof {
                        assert forall|q: int|
                            0 <= q < j implies state_entry_value(#[trigger] sfs@[q].1)
                            != ndxu as int by {}
                    }
                    let ghost slots0 = slots@;
                    let sr = vstd::std_specs::vec::vec_index_mut(&mut slots, ndxu);
                    sr.name = key.clone();
                    sr.color = color;
                    let ghost placed0 = placed@;
                    placed[ndxu] = true;
                    proof {
                        assert(slots@ =~= slots0.update(ndxu as int, slots@[ndxu as int]));
                        assert(placed@ =~= placed0.update(ndxu as int, true));
                        assert forall|p: int|
                            0 <= p < n implies ((#[trigger] placed@[p]) <==> exists|q: int|
                            0 <= q < j + 1 && state_entry_value(#[trigger] sfs@[q].1) == p) by {
                            if p == ndxu as int {
                                assert(state_entry_value(sfs@[j as int].1) == p);
                            } else {
                                assert(placed@[p] == placed0[p]);
                            }
                        }
                    }
                    j = j + 1;
                }
                // install
                self.states = slots;
                self.metadata = Some(
                    crate::statemap::Metadata { start: start_vals, title, host, entity_kind },
                );
                proof {
                    assert(md_ok(v));
                    assert forall|e: int|
                        0 <= e < self.entities@.len() implies #[trigger] self.entity_ok(e) by {
                        assert(old(self).entity_ok(e));
                        assert(old(self).entities@[e].rects@.len() == 0 || old(self).entities@[e].rects@[0].states@.len() == 0);
                    }
                    assert forall|k: StatemapRectWeight| self.byweight@.contains(
                        k,
                    ) implies #[trigger] self.entry_matches(k) by {
                        assert(old(self).entry_matches(k));
                    }
                    assert forall|e: int, i2: int|
                        0 <= e < self.entities@.len() && 0 <= i2 < self.entities@[e].rects@.len()
                            && self.entities@[e].rects@.len() >= 2 implies self.byweight@.contains(
                        #[trigger] self.rect_key(e, i2),
                    ) by {
                        assert(self.rect_key(e, i2) == old(self).rect_key(e, i2));
                        assert(old(self).byweight@.contains(old(self).rect_key(e, i2)));
                    }
                }
                Ok(consumed)
            },
        }
    }
}


/// The greatest open start among the entities (0 when none is open):
/// what an unspecified end time is closed at.
pub open spec fn max_open_start(es: Seq<crate::entity::StatemapEntity>) -> u64
    decreases es.len(),
{
    if es.len() == 0 {
        0
    } else {
        let rest = max_open_start(es.drop_last());
        match es.last().start {
            Option::Some(s) => if s > rest {
                s
            } else {
                rest
            },
            Option::None => rest,
        }
    }
}

/// What closing out one entity at `end_t` leaves: an entity whose open
/// interval began before `end_t` gains one final rectangle reaching
/// `end_t`; any other entity is untouched.
pub open spec fn closed_entity(
    e0: crate::entity::StatemapEntity,
    e1: crate::entity::StatemapEntity,
    end_t: u64,
) -> bool {
    match e0.start {
        Option::Some(s) => if s < end_t {
            &&& e1.rects@.len() == e0.rects@.len() + 1
            &&& (forall|i: int| 0 <= i < e0.rects@.len() - 1 ==> e1.rects@[i] == e0.rects@[i])
            &&& (e0.rects@.len() > 0 ==> e1.rects@[e0.rects@.len() - 1]
                == (crate::rect::StatemapRect {
                next: Option::Some(s),
                weight: (e0.rects@.last().weight + (end_t - s)) as u64,
                ..e0.rects@.last()
            }))
            &&& e1.rects@.last().start == s
            &&& e1.rects@.last().duration == end_t - s
            &&& (match e0.state {
                Option::Some(st) => e1.rects@.last().states@[st as int] == end_t - s && (forall|
                    j: int,
                |
                    0 <= j < e1.rects@.last().states@.len() && j != st
                        ==> e1.rects@.last().states@[j] == 0),
                Option::None => true,
            })
            &&& (match e0.tag {
                Option::Some(id) => e1.rects@.last().tags is Some && e1.rects@.last().tags.unwrap()@
                    == seq![(id, (end_t - s) as u64)],
                Option::None => e1.rects@.last().tags is None,
            })
            &&& e1.last == Option::Some(s)
            &&& e1.start == e0.start
            &&& e1.state == e0.state
            &&& e1.tag == e0.tag
            &&& e1.name == e0.name
            &&& e1.id == e0.id
            &&& e1.description == e0.description
            &&& e1.rects_wf()
            &&& e1.last_ok()
        } else {
            e1 == e0
        },
        Option::None => e1 == e0,
    }
}

proof fn lemma_max_open_start_take(es: Seq<crate::entity::StatemapEntity>, i: int)
    requires
        0 <= i < es.len(),
    ensures
        max_open_start(es.take(i + 1)) == (match es[i].start {
            Option::Some(s) => if s > max_open_start(es.take(i)) {
                s
            } else {
                max_open_start(es.take(i))
            },
            Option::None => max_open_start(es.take(i)),
        }),
{
    assert(es.take(i + 1).drop_last() =~= es.take(i));
    assert(es.take(i + 1).last() == es[i]);
}

impl Statemap {
    /// Closes ingestion: determines the end time (the configured end, or
    /// the greatest open start when none was configured) and gives every
    /// entity whose open interval began before it one final rectangle,
    /// without touching the weight index (trailing rectangles are exempt
    /// from coalescing).
    pub fn ingest_end(&mut self)
        requires
            old(self).wf(),
        ensures
            final(self).closed_wf(),
            final(self).entities@.len() == old(self).entities@.len(),
            final(self).byweight == old(self).byweight,
            final(self).states == old(self).states,
            final(self).tags == old(self).tags,
            final(self).config == old(self).config,
            final(self).metadata == old(self).metadata,
            final(self).nrecs == old(self).nrecs,
            final(self).nevents == old(self).nevents,
            ({
                let end_t = if old(self).config.end != 0 {
                    old(self).config.end
                } else {
                    max_open_start(old(self).entities@)
                };
                forall|e: int|
                    0 <= e < old(self).entities@.len() ==> closed_entity(
                        old(self).entities@[e],
                        #[trigger] final(self).entities@[e],
                        end_t,
                    )
            }),
    {
        let n = self.entities.len();
        let mut end: u64 = self.config.end;
        if end == 0 {
            let mut e: usize = 0;
            let mut acc: u64 = 0;
            proof {
                assert(self.entities@.take(0) =~= Seq::<crate::entity::StatemapEntity>::empty());
            }
            while e < n
                invariant
                    e <= n,
                    n == self.entities@.len(),
                    *self == *old(self),
                    acc == max_open_start(self.entities@.take(e as int)),
                decreases n - e,
            {
                proof {
                    lemma_max_open_start_take(self.entities@, e as int);
                }
                match self.entities[e].start {
                    Some(s) => {
                        if s > acc {
                            acc = s;
                        }
                    },
                    None => {},
                }
                e = e + 1;
            }
            proof {
                assert(self.entities@.take(n as int) =~= self.entities@);
            }
            end = acc;
        }
        let ghost end_t = end;
        let nstates = self.states.len();
        let mut e: usize = 0;
        while e < n
            invariant
                old(self).wf(),
                e <= n,
                n == self.entities@.len(),
                n == old(self).entities@.len(),
                nstates == self.states@.len(),
                nstates == old(self).states@.len(),
                self.byweight == old(self).byweight,
                self.states == old(self).states,
                self.tags == old(self).tags,
                self.config == old(self).config,
                self.metadata == old(self).metadata,
                self.nrecs == old(self).nrecs,
                self.nevents == old(self).nevents,
                forall|e2: int| e <= e2 < n ==> self.entities@[e2] == old(self).entities@[e2],
                forall|e2: int|
                    0 <= e2 < e ==> closed_entity(
                        old(self).entities@[e2],
                        #[trigger] self.entities@[e2],
                        end_t,
                    ),
                forall|e2: int|
                    0 <= e2 < e ==> (#[trigger] self.entities@[e2]).id == e2
                        && self.entities@[e2].name == old(self).entities@[e2].name,
                forall|e2: int, i: int|
                    0 <= e2 < e && 0 <= i < self.entities@[e2].rects@.len() ==> (
                    #[trigger] self.entities@[e2].rects@[i].states@.len()) == nstates,
                forall|e2: int, i: int|
                    0 <= e2 < e && 0 <= i < old(self).entities@[e2].rects@.len() ==> (
                    #[trigger] self.entities@[e2].rects@[i]).start == old(self).entities@[e2].rects@[i].start,
                end == end_t,
            decreases n - e,
        {
            proof {
                assert(old(self).entity_ok(e as int));
            }
            let do_close: bool = match self.entities[e].start {
                Some(s) => s < end,
                None => false,
            };
            let ghost pre = self.entities@;
            if do_close {
                let er = vstd::std_specs::vec::vec_index_mut(&mut self.entities, e);
                let _ = er.newrect(end, nstates as u32);
            }
            proof {
                if do_close {
                    let e0 = old(self).entities@[e as int];
                    let e1 = self.entities@[e as int];
                    assert(pre[e as int] == e0);
                    assert(e1.rects@.len() == e0.rects@.len() + 1);
                    assert(forall|i: int|
                        0 <= i < e0.rects@.len() - 1 ==> e1.rects@[i] == e0.rects@[i]);
                    assert(e0.rects@.len() > 0 ==> e1.rects@[e0.rects@.len() - 1].start
                        == e0.rects@[e0.rects@.len() - 1].start);
                    assert(forall|i: int|
                        0 <= i < e1.rects@.len() ==> (#[trigger] e1.rects@[i].states@.len())
                            == nstates);
                    assert(closed_entity(e0, e1, end_t));
                } else {
                    assert(self.entities@[e as int] == old(self).entities@[e as int]);
                }
            }
            e = e + 1;
        }
        proof {
            assert forall|e2: int|
                0 <= e2 < n implies #[trigger] self.closed_entity_ok(e2) by {
                assert(old(self).entity_ok(e2));
                if closed_entity(old(self).entities@[e2], self.entities@[e2], end_t) {
                }
            }
            assert forall|e1: int, e2: int|
                0 <= e1 < e2 < self.entities@.len() implies self.entities@[e1].name@
                != self.entities@[e2].name@ by {}
            assert forall|t1: int, t2: int|
                0 <= t1 < t2 < self.tags@.len() implies !(self.tags@[t1].state
                == self.tags@[t2].state && self.tags@[t1].tag@ == self.tags@[t2].tag@) by {}
            assert forall|k: StatemapRectWeight| #[trigger]
                self.byweight@.contains(k) implies (k.entity as int) < self.entities@.len()
                && has_start(self.entities@[k.entity as int].rects@, k.start) by {
                assert(old(self).entry_matches(k));
                let rects0 = old(self).entities@[k.entity as int].rects@;
                let j = idx_of_start(rects0, k.start);
                assert(0 <= j < rects0.len() && rects0[j].start == k.start);
                assert(self.entities@[k.entity as int].rects@[j].start == k.start);
            }
        }
    }
}



/// The number of states the metadata header declares.
pub open spec fn md_nstates(v: JsonValue) -> int {
    match v {
        JsonValue::Obj(fs) => (match obj_lookup(fs@, "states"@) {
            Option::Some(JsonValue::Obj(sfs)) => sfs@.len() as int,
            _ => 0,
        }),
        _ => 0,
    }
}

/// What walking the data stream yields: the number of objects processed,
/// or the byte position and cause of the first rejected payload.
pub enum StreamVerdict {
    Accepted { count: int },
    Rejected { at: int, cause: Seq<char> },
}

pub open spec fn add_count(r: StreamVerdict, k: int) -> StreamVerdict {
    match r {
        StreamVerdict::Accepted { count } => StreamVerdict::Accepted { count: count + k },
        StreamVerdict::Rejected { at, cause } => StreamVerdict::Rejected { at, cause },
    }
}

/// Whether ingestion of the data objects from byte `pos` on succeeds, and
/// with what count — a function of the bytes, the configuration, the
/// declared state count and the open intervals so far (`opens` maps an
/// entity name to its open start).  Mirrors one ingest step per object:
/// a datum beyond a positive `end` is ignored, an undeclared state or a
/// backwards time rejects, an accepted datum re-opens its entity at its
/// time, and the other three shapes pass through.
pub open spec fn datum_stream(
    contents: Seq<u8>,
    pos: int,
    cfg: crate::statemap::Config,
    nstates: int,
    opens: Map<Seq<char>, u64>,
) -> StreamVerdict
    decreases contents.len() - pos,
{
    if pos < 0 || pos > contents.len() {
        StreamVerdict::Accepted { count: 0 }
    } else {
        match json_next(contents.skip(pos)) {
            ParseStep::End => StreamVerdict::Accepted { count: 0 },
            ParseStep::Fail { .. } => StreamVerdict::Rejected {
                at: pos,
                cause: "unrecognized payload"@,
            },
            ParseStep::Value { v, consumed } => {
                let c = consumed as int;
                if is_datum(v) {
                    let t = datum_time(v);
                    let ename = datum_entity(v);
                    if cfg.end > 0 && t > cfg.end {
                        if c < 1 || pos + c > contents.len() {
                            StreamVerdict::Accepted { count: 1 }
                        } else {
                            add_count(datum_stream(contents, pos + c, cfg, nstates, opens), 1)
                        }
                    } else if datum_state(v) as int >= nstates {
                        StreamVerdict::Rejected { at: pos, cause: "illegal state value"@ }
                    } else if opens.contains_key(ename) && t < opens[ename] {
                        StreamVerdict::Rejected {
                            at: pos,
                            cause: out_of_order_msg(t, opens[ename]),
                        }
                    } else {
                        if c < 1 || pos + c > contents.len() {
                            StreamVerdict::Accepted { count: 1 }
                        } else {
                            add_count(
                                datum_stream(
                                    contents,
                                    pos + c,
                                    cfg,
                                    nstates,
                                    opens.insert(ename, t),
                                ),
                                1,
                            )
                        }
                    }
                } else if is_description(v) || is_event(v) || is_tagdef(v) {
                    if c < 1 || pos + c > contents.len() {
                        StreamVerdict::Accepted { count: 1 }
                    } else {
                        add_count(datum_stream(contents, pos + c, cfg, nstates, opens), 1)
                    }
                } else {
                    StreamVerdict::Rejected { at: pos, cause: "unrecognized payload"@ }
                }
            },
        }
    }
}

/// `opens` holds exactly the open intervals: every entity with an open
/// start appears under its name with that start, and every key names
/// such an entity.
pub open spec fn opens_ok(m: Statemap, opens: Map<Seq<char>, u64>) -> bool {
    &&& (forall|e: int|
        0 <= e < m.entities@.len() ==> (match (#[trigger] m.entities@[e]).start {
            Option::Some(st) => opens.contains_key(m.entities@[e].name@) && opens[m.entities@[e].name@]
                == st,
            Option::None => !opens.contains_key(m.entities@[e].name@),
        }))
    &&& (forall|n: Seq<char>|
        #[trigger] opens.contains_key(n) ==> exists|e: int|
            0 <= e < m.entities@.len() && m.entities@[e].name@ == n && m.entities@[e].start is Some)
}

impl Statemap {
    /// Ingests a whole input: the metadata header, then every following
    /// object, trimming the rectangle budget back under `maxrect` after
    /// each one, and finally closing the open intervals.  Returns the
    /// number of objects processed; a datum error is reported with the
    /// 1-based line of the offending payload.
    pub fn ingest(&mut self, contents: &[u8]) -> (r: Result<u64, StatemapError>)
        requires
            old(self).wf(),
            old(self).states@.len() == 0,
            old(self).entities@.len() == 0,
            old(self).byweight@.len() == 0,
            old(self).nevents == 0,
            old(self).config.maxrect >= 1,
            contents@.len() < usize::MAX,
        ensures
            final(self).config == old(self).config,
            (match json_next(contents@) {
                ParseStep::End => r matches Err(e) && e.errmsg@ == "missing metadata payload"@,
                ParseStep::Fail { msg } => r matches Err(e) && e.errmsg == msg,
                ParseStep::Value { v, consumed } => {
                    if md_ok(v) && 1 <= consumed <= contents@.len() {
                        (match datum_stream(
                            contents@,
                            consumed as int,
                            old(self).config,
                            md_nstates(v),
                            Map::<Seq<char>, u64>::empty(),
                        ) {
                            StreamVerdict::Accepted { count } => {
                                &&& (r matches Ok(n) && n == count)
                                &&& final(self).closed_wf()
                                &&& (final(self).byweight@.len() as int) < final(self).config.maxrect
                                &&& final(self).states@.len() == md_nstates(v)
                                &&& (final(self).metadata matches Some(md) && md.title@ == (match v {
                                    JsonValue::Obj(fs) => str_field_val(fs@, "title"@),
                                    _ => Seq::<char>::empty(),
                                }))
                            },
                            StreamVerdict::Rejected { at, cause } => r matches Err(e) && e.errmsg@
                                == "illegal datum on line "@ + crate::json::dec_str(
                                crate::json::line_number_spec(contents@, at),
                            ) + ": "@ + cause,
                        })
                    } else {
                        r is Err
                    }
                },
            }),
    {
        let len = contents.len();
        let mut pos: usize;
        match self.ingest_metadata(contents) {
            Ok(c) => {
                pos = c;
            },
            Err(e) => {
                return Err(e);
            },
        }
        let ghost cfg = self.config;
        let ghost mdg = self.metadata;
        let ghost vmeta = (match json_next(contents@) {
            ParseStep::Value { v, consumed } => v,
            _ => JsonValue::Null,
        });
        let ghost c0 = pos;
        let ghost nst = md_nstates(vmeta);
        let ghost full = datum_stream(contents@, c0 as int, cfg, nst, Map::<Seq<char>, u64>::empty());
        let ghost mut opens: Map<Seq<char>, u64> = Map::empty();
        proof {
            assert(md_ok(vmeta));
            assert(self.states@.len() == nst);
            assert(opens_ok(*self, opens));
            assert(add_count(datum_stream(contents@, pos as int, cfg, nst, opens), 0int) == full);
        }
        let mut nrecs: u64 = 0;
        loop
            invariant
                self.wf(),
                self.config == old(self).config,
                self.config == cfg,
                self.config.maxrect >= 1,
                (self.byweight@.len() as int) < self.config.maxrect,
                pos <= len,
                len == contents@.len(),
                len < usize::MAX,
                self.nevents <= pos,
                nrecs <= pos,
                self.states@.len() == nst,
                self.metadata == mdg,
                (mdg matches Some(md) && md.title@ == (match vmeta {
                    JsonValue::Obj(fs) => str_field_val(fs@, "title"@),
                    _ => Seq::<char>::empty(),
                })),
                opens_ok(*self, opens),
                json_next(contents@) == (ParseStep::Value { v: vmeta, consumed: c0 }),
                md_ok(vmeta),
                nst == md_nstates(vmeta),
                1 <= c0 <= len,
                full == datum_stream(
                    contents@,
                    c0 as int,
                    cfg,
                    nst,
                    Map::<Seq<char>, u64>::empty(),
                ),
                full == add_count(
                    datum_stream(contents@, pos as int, cfg, nst, opens),
                    nrecs as int,
                ),
            ensures
                self.wf(),
                self.config == old(self).config,
                self.config == cfg,
                self.states@.len() == nst,
                self.metadata == mdg,
                (self.byweight@.len() as int) < self.config.maxrect,
                full == (StreamVerdict::Accepted { count: nrecs as int }),
            decreases len - pos,
        {
            let rest = vstd::slice::slice_subrange(contents, pos, len);
            proof {
                assert(rest@ =~= contents@.skip(pos as int));
            }
            let ghost before = *self;
            let ghost p = pos as int;
            let step = self.ingest_datum(rest);
            match step {
                Ok((Ingest::Success, c)) => {
                    proof {
                        let tail = datum_stream(contents@, p, cfg, nst, opens);
                        match json_next(rest@) {
                            ParseStep::Value { v, consumed } => {
                                assert(consumed == c && 1 <= c <= len - pos);
                                if is_datum(v) {
                                    let t = datum_time(v);
                                    let ename = datum_entity(v);
                                    if cfg.end > 0 && t > cfg.end {
                                        assert(*self == before);
                                        assert(tail == add_count(
                                            datum_stream(contents@, p + c, cfg, nst, opens),
                                            1,
                                        ));
                                    } else {
                                        assert(!(datum_state(v) as int >= nst));
                                        lemma_accepted_datum_opens(before, *self, opens, ename, t);
                                        assert(tail == add_count(
                                            datum_stream(
                                                contents@,
                                                p + c,
                                                cfg,
                                                nst,
                                                opens.insert(ename, t),
                                            ),
                                            1,
                                        ));
                                        opens = opens.insert(ename, t);
                                    }
                                } else {
                                    assert(is_description(v) || is_event(v) || is_tagdef(v));
                                    if is_description(v) {
                                        lemma_description_opens(before, *self, opens, (match v {
                                            JsonValue::Obj(fs) => str_field_val(fs@, "entity"@),
                                            _ => Seq::<char>::empty(),
                                        }));
                                    } else {
                                        assert(self.entities == before.entities);
                                    }
                                    assert(tail == add_count(
                                        datum_stream(contents@, p + c, cfg, nst, opens),
                                        1,
                                    ));
                                }
                            },
                            _ => {
                                assert(false);
                            },
                        }
                        assert(full == add_count(
                            datum_stream(contents@, p + c, cfg, nst, opens),
                            nrecs as int + 1,
                        ));
                    }
                    nrecs = nrecs + 1;
                    pos = pos + c;
                },
                Ok((Ingest::EndOfFile, _)) => {
                    proof {
                        assert(datum_stream(contents@, p, cfg, nst, opens)
                            == (StreamVerdict::Accepted { count: 0 }));
                        assert(full == (StreamVerdict::Accepted { count: nrecs as int }));
                    }
                    break;
                },
                Err(e) => {
                    proof {
                        let tail = datum_stream(contents@, p, cfg, nst, opens);
                        match json_next(rest@) {
                            ParseStep::Value { v, consumed } => {
                                if is_datum(v) {
                                    let t = datum_time(v);
                                    let ename = datum_entity(v);
                                    assert(!(cfg.end > 0 && t > cfg.end));
                                    if datum_state(v) as int >= nst {
                                        assert(e.errmsg@ == "illegal state value"@);
                                    } else {
                                        // rejected for running backwards: the open map
                                        // carries exactly the prior start
                                        match before.entity_named(ename) {
                                            Option::Some(ei) => {
                                                assert(before.entities@[ei].start is Some);
                                                let prior = before.entities@[ei].start.unwrap();
                                                assert(t < prior);
                                                assert(opens.contains_key(ename) && opens[ename]
                                                    == prior);
                                                assert(e.errmsg@ == out_of_order_msg(t, prior));
                                            },
                                            Option::None => {
                                                assert(false);
                                            },
                                        }
                                    }
                                } else {
                                    assert(!(is_description(v) || is_event(v) || is_tagdef(v)));
                                    assert(e.errmsg@ == "unrecognized payload"@);
                                }
                            },
                            ParseStep::Fail { .. } => {
                                assert(e.errmsg@ == "unrecognized payload"@);
                            },
                            ParseStep::End => {
                                assert(false);
                            },
                        }
                        assert(tail matches StreamVerdict::Rejected { at, cause } && at == p
                            && cause == e.errmsg@);
                        assert(full == add_count(tail, nrecs as int));
                    }
                    let line = crate::json::line_number(contents, pos);
                    let mut m = String::from_str("illegal datum on line ");
                    let lt = crate::json::u64_to_string(line as u64);
                    m.append(lt.as_str());
                    m.append(": ");
                    m.append(e.message());
                    return Err(StatemapError { errmsg: m });
                },
            }
            loop
                invariant
                    self.wf(),
                    self.config == old(self).config,
                    self.config == cfg,
                    self.config.maxrect >= 1,
                    self.nevents <= pos,
                    self.states@.len() == nst,
                    self.metadata == mdg,
                    opens_ok(*self, opens),
                ensures
                    self.wf(),
                    self.config == old(self).config,
                    self.config == cfg,
                    self.nevents <= pos,
                    self.states@.len() == nst,
                    self.metadata == mdg,
                    opens_ok(*self, opens),
                    (self.byweight@.len() as int) < self.config.maxrect,
                decreases self.byweight@.len(),
            {
                proof {
                    self.byweight.lemma_inv_facts();
                }
                if (self.byweight.len() as u64) < self.config.maxrect {
                    break;
                }
                let ghost pretrim = *self;
                self.trim();
                proof {
                    lemma_trim_keeps_opens(pretrim, *self, opens);
                }
            }
            proof {
                self.byweight.lemma_inv_facts();
            }
        }
        self.ingest_end();
        Ok(nrecs)
    }
}


/// Recording an accepted datum's new open start keeps the open map
/// faithful: the entity named by the datum is now open at the datum's
/// time, and nobody else moved.
proof fn lemma_accepted_datum_opens(
    m0: Statemap,
    m1: Statemap,
    opens: Map<Seq<char>, u64>,
    ename: Seq<char>,
    t: u64,
)
    requires
        m0.names_unique(),
        opens_ok(m0, opens),
        (match m0.entity_named(ename) {
            Option::Some(ei) => {
                &&& m1.entities@.len() == m0.entities@.len()
                &&& (forall|e2: int|
                    0 <= e2 < m0.entities@.len() && e2 != ei ==> m1.entities@[e2]
                        == m0.entities@[e2])
                &&& m1.entities@[ei].start == Option::Some(t)
                &&& m1.entities@[ei].name == m0.entities@[ei].name
            },
            Option::None => {
                &&& m1.entities@.len() == m0.entities@.len() + 1
                &&& (forall|e2: int|
                    0 <= e2 < m0.entities@.len() ==> m1.entities@[e2] == m0.entities@[e2])
                &&& m1.entities@.last().start == Option::Some(t)
                &&& m1.entities@.last().name@ == ename
            },
        }),
    ensures
        opens_ok(m1, opens.insert(ename, t)),
{
    let op2 = opens.insert(ename, t);
    let ei = (match m0.entity_named(ename) {
        Option::Some(ei) => ei,
        Option::None => m0.entities@.len() as int,
    });
    assert(0 <= ei < m1.entities@.len() && m1.entities@[ei].name@ == ename
        && m1.entities@[ei].start == Option::Some(t));
    assert forall|e: int|
        0 <= e < m1.entities@.len() implies (match (#[trigger] m1.entities@[e]).start {
        Option::Some(st) => op2.contains_key(m1.entities@[e].name@) && op2[m1.entities@[e].name@]
            == st,
        Option::None => !op2.contains_key(m1.entities@[e].name@),
    }) by {
        if e != ei {
            assert(m1.entities@[e] == m0.entities@[e]);
            assert(m0.entities@[e].name@ != ename) by {
                if m0.entities@[e].name@ == ename {
                    match m0.entity_named(ename) {
                        Option::Some(w) => {
                            assert(e != w);
                            if e < w {
                                assert(m0.entities@[e].name@ != m0.entities@[w].name@);
                            } else {
                                assert(m0.entities@[w].name@ != m0.entities@[e].name@);
                            }
                        },
                        Option::None => {
                            assert(m0.entity_named(ename) is Some);
                        },
                    }
                }
            }
        }
    }
    assert forall|n: Seq<char>| #[trigger] op2.contains_key(n) implies exists|e: int|
        0 <= e < m1.entities@.len() && m1.entities@[e].name@ == n
            && m1.entities@[e].start is Some by {
        if n == ename {
            assert(m1.entities@[ei].name@ == n && m1.entities@[ei].start is Some);
        } else {
            let e = choose|e: int|
                0 <= e < m0.entities@.len() && m0.entities@[e].name@ == n
                    && m0.entities@[e].start is Some;
            assert(e != ei ==> m1.entities@[e] == m0.entities@[e]);
            if e == ei {
                assert(m1.entities@[ei].name@ == ename);
                assert(m0.entity_named(ename) is Some);
                assert(m0.entities@[ei].name@ == ename);
            }
        }
    }
}

/// A description moves no open interval: it only annotates an entity, or
/// creates one with nothing open.
proof fn lemma_description_opens(
    m0: Statemap,
    m1: Statemap,
    opens: Map<Seq<char>, u64>,
    ename: Seq<char>,
)
    requires
        m0.names_unique(),
        opens_ok(m0, opens),
        (match m0.entity_named(ename) {
            Option::Some(ei) => {
                &&& m1.entities@.len() == m0.entities@.len()
                &&& (forall|e2: int|
                    0 <= e2 < m0.entities@.len() && e2 != ei ==> m1.entities@[e2]
                        == m0.entities@[e2])
                &&& m1.entities@[ei].start == m0.entities@[ei].start
                &&& m1.entities@[ei].name == m0.entities@[ei].name
            },
            Option::None => {
                &&& m1.entities@.len() == m0.entities@.len() + 1
                &&& (forall|e2: int|
                    0 <= e2 < m0.entities@.len() ==> m1.entities@[e2] == m0.entities@[e2])
                &&& m1.entities@.last().start is None
                &&& m1.entities@.last().name@ == ename
            },
        }),
    ensures
        opens_ok(m1, opens),
{
    assert forall|e: int|
        0 <= e < m1.entities@.len() implies (match (#[trigger] m1.entities@[e]).start {
        Option::Some(st) => opens.contains_key(m1.entities@[e].name@)
            && opens[m1.entities@[e].name@] == st,
        Option::None => !opens.contains_key(m1.entities@[e].name@),
    }) by {
        match m0.entity_named(ename) {
            Option::Some(ei) => {
                if e != ei {
                    assert(m1.entities@[e] == m0.entities@[e]);
                }
            },
            Option::None => {
                if e < m0.entities@.len() {
                    assert(m1.entities@[e] == m0.entities@[e]);
                } else {
                    // the fresh entity is closed; were its name in the map,
                    // an already-open entity would have carried it
                    if opens.contains_key(m1.entities@[e].name@) {
                        let w = choose|w: int|
                            0 <= w < m0.entities@.len() && m0.entities@[w].name@
                                == m1.entities@[e].name@ && m0.entities@[w].start is Some;
                        assert(m0.entity_named(ename) is Some);
                    }
                }
            },
        }
    }
    assert forall|n: Seq<char>| #[trigger] opens.contains_key(n) implies exists|e: int|
        0 <= e < m1.entities@.len() && m1.entities@[e].name@ == n
            && m1.entities@[e].start is Some by {
        let e = choose|e: int|
            0 <= e < m0.entities@.len() && m0.entities@[e].name@ == n
                && m0.entities@[e].start is Some;
        match m0.entity_named(ename) {
            Option::Some(ei) => {
                if e != ei {
                    assert(m1.entities@[e] == m0.entities@[e]);
                } else {
                    assert(m1.entities@[ei].name == m0.entities@[ei].name);
                    assert(m1.entities@[ei].start == m0.entities@[ei].start);
                }
            },
            Option::None => {
                assert(m1.entities@[e] == m0.entities@[e]);
            },
        }
    }
}

/// A trim never moves an open interval or renames an entity, so the
/// open-interval map stays faithful.
proof fn lemma_trim_keeps_opens(m0: Statemap, m1: Statemap, opens: Map<Seq<char>, u64>)
    requires
        opens_ok(m0, opens),
        m0.byweight@.len() > 0,
        m0.entry_matches(crate::statemap::set_min(m0.byweight@)),
        m1.entities@.len() == m0.entities@.len(),
        Statemap::trimmed_entity_ok(m0, m1, crate::statemap::set_min(m0.byweight@)),
    ensures
        opens_ok(m1, opens),
{
    let k = crate::statemap::set_min(m0.byweight@);
    let ei = k.entity as int;
    assert forall|e: int|
        0 <= e < m1.entities@.len() implies (match (#[trigger] m1.entities@[e]).start {
        Option::Some(st) => opens.contains_key(m1.entities@[e].name@)
            && opens[m1.entities@[e].name@] == st,
        Option::None => !opens.contains_key(m1.entities@[e].name@),
    }) by {
        if e != ei {
            assert(m1.entities@[e] == m0.entities@[e]);
        } else {
            assert(m1.entities@[e].start == m0.entities@[e].start);
            assert(m1.entities@[e].name == m0.entities@[e].name);
        }
    }
    assert forall|n: Seq<char>| #[trigger] opens.contains_key(n) implies exists|e: int|
        0 <= e < m1.entities@.len() && m1.entities@[e].name@ == n && m1.entities@[e].start is Some by {
        let e = choose|e: int|
            0 <= e < m0.entities@.len() && m0.entities@[e].name@ == n && m0.entities@[e].start is Some;
        if e != ei {
            assert(m1.entities@[e] == m0.entities@[e]);
        } else {
            assert(m1.entities@[e].start == m0.entities@[e].start);
            assert(m1.entities@[e].name == m0.entities@[e].name);
        }
    }
}



} // verus!
