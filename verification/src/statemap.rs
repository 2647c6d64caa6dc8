use vstd::prelude::*;
use crate::entity::StatemapEntity;
use crate::entity::bump_by_deltas;
use crate::entity::chain_ok;
use crate::entity::chain_ok_at;
use crate::entity::deltas_at;
use crate::entity::has_start;
use crate::entity::idx_of_start;
use crate::entity::is_coalesced;
use crate::entity::is_merge_of;
use crate::entity::lemma_chain_starts_unique;
use crate::entity::lemma_coalesced_wf;
use crate::entity::lemma_deltas_fit;
use crate::entity::lemma_idx_of_start;
use crate::entity::merge_index;
use crate::entity::starts_unique;
use crate::entity::weights_ok;
use crate::json::JsonValue;
use crate::rect::StatemapRect;
use crate::weight::StatemapRectWeight;
use crate::weight::WeightIndex;
use crate::weight::wk_le;
use crate::weight::wk_lt;

verus! {

/// Ingest parameters: the rectangle budget, the inclusive left clip, the
/// right clip (0 leaves the end open), and whether tags are ignored.
#[derive(Copy, Clone, Debug)]
pub struct Config {
    pub maxrect: u64,
    pub begin: u64,
    pub end: u64,
    pub notags: bool,
}

impl Default for Config {
    fn default() -> (c: Config)
        ensures
            c.maxrect == 25000,
            c.begin == 0,
            c.end == 0,
            c.notags == false,
    {
        Config { maxrect: 25000, begin: 0, end: 0, notags: false }
    }
}

/// Geometry and styling of the rendered output.
#[derive(Debug)]
pub struct StatemapSVGConfig {
    pub strip_height: u32,
    pub legend_width: u32,
    pub tag_width: u32,
    pub strip_width: u32,
    pub background: String,
    pub sortby: Option<String>,
}

impl Default for StatemapSVGConfig {
    fn default() -> (c: StatemapSVGConfig)
        ensures
            c.strip_height == 10,
            c.legend_width == 138,
            c.strip_width == 862,
            c.tag_width == 250,
            c.sortby is None,
    {
        StatemapSVGConfig {
            strip_height: 10,
            legend_width: 138,
            strip_width: 862,
            tag_width: 250,
            background: String::from_str("#f0f0f0"),
            sortby: None,
        }
    }
}

/// A state declared by the metadata: its name, its dense value (equal to
/// its position), and its color, if one was given.
#[derive(Debug)]
pub struct StatemapState {
    pub name: String,
    pub value: usize,
    pub color: Option<String>,
}

/// The validated metadata header.
#[derive(Debug)]
pub struct Metadata {
    pub start: Vec<u64>,
    pub title: String,
    pub host: Option<String>,
    pub entity_kind: Option<String>,
}

/// One interned tag: the `(state, tag)` pair it stands for, the freeform
/// definition payload kept for re-emission, and its dense id, which is
/// its position in the table.
#[derive(Debug)]
pub struct TagEntry {
    pub state: u32,
    pub tag: String,
    pub payload: JsonValue,
    pub id: usize,
}

#[derive(Debug)]
pub struct StatemapError {
    pub errmsg: String,
}

impl StatemapError {
    pub fn new(msg: &str) -> (e: StatemapError)
        ensures
            e.errmsg@ == msg@,
    {
        StatemapError { errmsg: String::from_str(msg) }
    }

    /// What went wrong, for reporting.
    pub fn message(&self) -> (r: &str)
        ensures
            r@ == self.errmsg@,
    {
        self.errmsg.as_str()
    }
}

/// Whether one datum advanced the statemap or the input ended.
#[derive(Debug)]
pub enum Ingest {
    Success,
    EndOfFile,
}

/// The streaming statemap model: the validated states, the entities with
/// their coalesced rectangles, the cross-entity weight index that drives
/// trimming, and the interned tags.
#[derive(Debug)]
pub struct Statemap {
    pub config: Config,
    pub metadata: Option<Metadata>,
    pub nrecs: u64,
    pub nevents: u64,
    pub entities: Vec<StatemapEntity>,
    pub states: Vec<StatemapState>,
    pub byweight: WeightIndex,
    pub tags: Vec<TagEntry>,
}

impl Statemap {
    /// Everything that must hold of one entity: its dense id is its
    /// position, its rectangle list keeps the chain/weight/state/tag
    /// identities, and its open interval refers to a declared state and
    /// extends the trailing rectangle.
    pub open spec fn entity_ok(&self, e: int) -> bool {
        let ent = self.entities@[e];
        &&& ent.id == e
        &&& ent.rects_wf()
        &&& ent.last_ok()
        &&& ent.open_ok()
        &&& (ent.state is Some ==> (ent.state.unwrap() as int) < self.states@.len())
        &&& (ent.rects@.len() > 0 ==> ent.start.unwrap() > self.config.begin)
        &&& (forall|i: int|
            0 <= i < ent.rects@.len() ==> (#[trigger] ent.rects@[i].states@.len())
                == self.states@.len())
    }

    /// No two entities share a name.
    pub open spec fn names_unique(&self) -> bool {
        forall|e1: int, e2: int|
            0 <= e1 < e2 < self.entities@.len() ==> self.entities@[e1].name@
                != self.entities@[e2].name@
    }

    pub open spec fn entities_wf(&self) -> bool {
        &&& (forall|e: int| 0 <= e < self.entities@.len() ==> #[trigger] self.entity_ok(e))
        &&& self.names_unique()
    }

    /// Tag ids are dense: each entry's id is its position, and no
    /// `(state, tag)` pair appears twice.
    pub open spec fn tags_ok(&self) -> bool {
        &&& (forall|t: int| 0 <= t < self.tags@.len() ==> (#[trigger] self.tags@[t]).id == t)
        &&& (forall|t1: int, t2: int|
            0 <= t1 < t2 < self.tags@.len() ==> !(self.tags@[t1].state == self.tags@[t2].state
                && self.tags@[t1].tag@ == self.tags@[t2].tag@))
    }

    /// A weight-index key names a live rectangle carrying that weight.
    pub open spec fn entry_matches(&self, k: StatemapRectWeight) -> bool {
        &&& (k.entity as int) < self.entities@.len()
        &&& has_start(self.entities@[k.entity as int].rects@, k.start)
        &&& self.entities@[k.entity as int].rects@[idx_of_start(
            self.entities@[k.entity as int].rects@,
            k.start,
        )].weight == k.weight
    }

    /// Soundness of the weight index: every key matches a rectangle.
    pub open spec fn index_sound(&self) -> bool {
        forall|k: StatemapRectWeight| self.byweight@.contains(k) ==> #[trigger] self.entry_matches(k)
    }

    /// The key standing for one rectangle of one entity.
    pub open spec fn rect_key(&self, e: int, i: int) -> StatemapRectWeight {
        StatemapRectWeight {
            weight: self.entities@[e].rects@[i].weight,
            start: self.entities@[e].rects@[i].start,
            entity: e as usize,
        }
    }

    /// Completeness of the weight index: every rectangle of an entity
    /// holding at least two is represented (the sole rectangle of an
    /// entity may have had its key consumed by a trim).
    pub open spec fn index_complete(&self) -> bool {
        forall|e: int, i: int|
            0 <= e < self.entities@.len() && 0 <= i < self.entities@[e].rects@.len()
                && self.entities@[e].rects@.len() >= 2 ==> self.byweight@.contains(
                #[trigger] self.rect_key(e, i),
            )
    }

    /// The global invariant over the three coupled structures.
    pub open spec fn wf(&self) -> bool {
        &&& self.entities_wf()
        &&& self.tags_ok()
        &&& self.byweight.inv()
        &&& self.index_sound()
        &&& self.index_complete()
        &&& self.states@.len() <= u32::MAX
    }

    pub fn new(config: &Config) -> (s: Self)
        ensures
            s.wf(),
            s.config == *config,
            s.nrecs == 0,
            s.nevents == 0,
            s.entities@.len() == 0,
            s.states@.len() == 0,
            s.byweight@.len() == 0,
            s.tags@.len() == 0,
            s.metadata is None,
    {
        let s = Statemap {
            config: *config,
            nrecs: 0,
            nevents: 0,
            entities: Vec::new(),
            states: Vec::new(),
            byweight: WeightIndex::new(),
            tags: Vec::new(),
            metadata: None,
        };
        proof {
            assert(forall|k: StatemapRectWeight| !s.byweight@.contains(k));
        }
        s
    }

    /// Wraps a message as this statemap's error.
    pub fn err<T>(&self, msg: &str) -> (r: Result<T, StatemapError>)
        ensures
            r matches Err(e) && e.errmsg@ == msg@,
    {
        Err(StatemapError::new(msg))
    }

    /// The position of the entity with the given name.
    pub open spec fn entity_named(&self, name: Seq<char>) -> Option<int> {
        if exists|e: int| 0 <= e < self.entities@.len() && self.entities@[e].name@ == name {
            Option::Some(
                choose|e: int| 0 <= e < self.entities@.len() && self.entities@[e].name@ == name,
            )
        } else {
            Option::<int>::None
        }
    }

    /// Finds the entity with the given name, creating it (with the next
    /// dense id) on first sight, and returns its position.
    pub fn entity_lookup(&mut self, name: &str) -> (idx: usize)
        requires
            old(self).wf(),
        ensures
            final(self).wf(),
            idx < final(self).entities@.len(),
            final(self).entities@[idx as int].name@ == name@,
            (match old(self).entity_named(name@) {
                Some(e) => *final(self) == *old(self) && idx as int == e,
                None => {
                    &&& idx as int == old(self).entities@.len()
                    &&& final(self).entities@ == old(self).entities@.push(
                        final(self).entities@[idx as int],
                    )
                    &&& final(self).entities@[idx as int].rects@.len() == 0
                    &&& final(self).entities@[idx as int].start is None
                    &&& final(self).entities@[idx as int].state is None
                    &&& final(self).entities@[idx as int].description is None
                    &&& final(self).byweight == old(self).byweight
                    &&& final(self).states == old(self).states
                    &&& final(self).tags == old(self).tags
                    &&& final(self).config == old(self).config
                    &&& final(self).metadata == old(self).metadata
                    &&& final(self).nrecs == old(self).nrecs
                    &&& final(self).nevents == old(self).nevents
                },
            }),
    {
        let n = self.entities.len();
        let mut i: usize = 0;
        while i < n
            invariant
                old(self).wf(),
                i <= n,
                n == self.entities@.len(),
                *self == *old(self),
                forall|e: int| 0 <= e < i ==> self.entities@[e].name@ != name@,
            decreases n - i,
        {
            if crate::json::str_eq(self.entities[i].name.as_str(), name) {
                proof {
                    let w = choose|e: int|
                        0 <= e < self.entities@.len() && self.entities@[e].name@ == name@;
                    if w != i {
                        if w < i {
                            assert(self.entities@[w].name@ != name@);
                        } else {
                            assert(self.entities@[i as int].name@ != self.entities@[w].name@);
                        }
                    }
                }
                return i;
            }
            i = i + 1;
        }
        let ent = StatemapEntity::new(name, n);
        self.entities.push(ent);
        proof {
            assert(old(self).entity_named(name@) is None);
            assert forall|e: int| 0 <= e < self.entities@.len() implies #[trigger] self.entity_ok(
                e,
            ) by {
                if e < n {
                    assert(old(self).entity_ok(e));
                }
            }
            assert forall|k: StatemapRectWeight| self.byweight@.contains(
                k,
            ) implies #[trigger] self.entry_matches(k) by {
                assert(old(self).entry_matches(k));
            }
            assert forall|e: int, i2: int|
                0 <= e < self.entities@.len() && 0 <= i2 < self.entities@[e].rects@.len()
                    && self.entities@[e].rects@.len() >= 2 implies self.byweight@.contains(
                #[trigger] self.rect_key(e, i2),
            ) by {
                assert(e < n);
                assert(self.rect_key(e, i2) == old(self).rect_key(e, i2));
                assert(old(self).byweight@.contains(old(self).rect_key(e, i2)));
            }
        }
        n
    }

    /// The id bound to `(state, tag)` in the table, if any.
    pub open spec fn tag_id_of(&self, state: u32, tag: Seq<char>) -> Option<int> {
        if exists|t: int|
            0 <= t < self.tags@.len() && self.tags@[t].state == state && self.tags@[t].tag@
                == tag {
            Option::Some(
                choose|t: int|
                    0 <= t < self.tags@.len() && self.tags@[t].state == state
                        && self.tags@[t].tag@ == tag,
            )
        } else {
            Option::<int>::None
        }
    }

    /// Interns `(state, tag)`: an existing pair keeps its id; a new pair
    /// gets the next dense id, bound to a small definition payload.
    /// With no tag, or when tags are ignored, there is nothing to do.
    pub fn tag_lookup(&mut self, state: u32, tagr: &Option<String>) -> (r: Option<usize>)
        requires
            old(self).wf(),
        ensures
            final(self).wf(),
            old(self).config.notags || tagr is None ==> r is None && *final(self) == *old(self),
            !old(self).config.notags && tagr is Some ==> (match old(self).tag_id_of(
                state,
                tagr.unwrap()@,
            ) {
                Some(t) => r == Some(t as usize) && *final(self) == *old(self),
                None => {
                    &&& r == Some(old(self).tags@.len() as usize)
                    &&& final(self).tags@.len() == old(self).tags@.len() + 1
                    &&& final(self).tags@ == old(self).tags@.push(
                        final(self).tags@[old(self).tags@.len() as int],
                    )
                    &&& final(self).tags@.last().state == state
                    &&& final(self).tags@.last().tag@ == tagr.unwrap()@
                    &&& (final(self).tags@.last().payload matches JsonValue::Obj(fs) && fs@.len()
                        == 2 && fs@[0].0@ == "state"@ && fs@[0].1 == JsonValue::UInt(state as u64)
                        && fs@[1].0@ == "tag"@ && (fs@[1].1 matches JsonValue::Str(ts) && ts@
                        == tagr.unwrap()@))
                    &&& final(self).entities == old(self).entities
                    &&& final(self).byweight == old(self).byweight
                    &&& final(self).states == old(self).states
                    &&& final(self).config == old(self).config
                    &&& final(self).metadata == old(self).metadata
                    &&& final(self).nrecs == old(self).nrecs
                    &&& final(self).nevents == old(self).nevents
                },
            }),
    {
        if self.config.notags {
            return None;
        }
        match tagr {
            Some(tag) => {
                let n = self.tags.len();
                let mut i: usize = 0;
                while i < n
                    invariant
                        old(self).wf(),
                        !old(self).config.notags,
                        *tagr == Option::Some(*tag),
                        i <= n,
                        n == self.tags@.len(),
                        *self == *old(self),
                        forall|t: int|
                            0 <= t < i ==> !(self.tags@[t].state == state && self.tags@[t].tag@
                                == tag@),
                    decreases n - i,
                {
                    if self.tags[i].state == state && crate::json::str_eq(
                        self.tags[i].tag.as_str(),
                        tag.as_str(),
                    ) {
                        proof {
                            let w = choose|t: int|
                                0 <= t < self.tags@.len() && self.tags@[t].state == state
                                    && self.tags@[t].tag@ == tag@;
                            if w != i {
                                if w < i {
                                    assert(!(self.tags@[w].state == state && self.tags@[w].tag@
                                        == tag@));
                                }
                            }
                            assert(self.tags@[i as int].state == state && self.tags@[i as int].tag@
                                == tag@);
                        }
                        return Some(self.tags[i].id);
                    }
                    i = i + 1;
                }
                // build the definition payload: { "state": state, "tag": tag }
                let mut fields: Vec<(String, JsonValue)> = Vec::new();
                fields.push((String::from_str("state"), JsonValue::UInt(state as u64)));
                fields.push((String::from_str("tag"), JsonValue::Str(tag.clone())));
                let entry = TagEntry {
                    state,
                    tag: tag.clone(),
                    payload: JsonValue::Obj(fields),
                    id: n,
                };
                self.tags.push(entry);
                proof {
                    assert(old(self).tag_id_of(state, tag@) is None);
                    assert forall|e: int|
                        0 <= e < self.entities@.len() implies #[trigger] self.entity_ok(e) by {
                        assert(old(self).entity_ok(e));
                    }
                    assert forall|k: StatemapRectWeight| self.byweight@.contains(
                        k,
                    ) implies #[trigger] self.entry_matches(k) by {
                        assert(old(self).entry_matches(k));
                    }
                    assert forall|e: int, i2: int|
                        0 <= e < self.entities@.len() && 0 <= i2 < self.entities@[e].rects@.len()
                            && self.entities@[e].rects@.len() >= 2 implies self.byweight@.contains(
                        #[trigger] self.rect_key(e, i2),
                    ) by {
                        assert(self.rect_key(e, i2) == old(self).rect_key(e, i2));
                        assert(old(self).byweight@.contains(old(self).rect_key(e, i2)));
                    }
                }
                Some(n)
            },
            None => None,
        }
    }
}

/// One weight-index edit: drop the key the update names, and, unless the
/// rectangle was removed outright, re-add it with the delta applied.
pub open spec fn apply_one(
    s: Set<StatemapRectWeight>,
    u: (u64, u64, Option<u64>),
    ent: usize,
) -> Set<StatemapRectWeight> {
    let removed = s.remove(StatemapRectWeight { weight: u.1, start: u.0, entity: ent });
    match u.2 {
        Some(d) => removed.insert(
            StatemapRectWeight { weight: (u.1 + d) as u64, start: u.0, entity: ent },
        ),
        None => removed,
    }
}

/// The edits applied in order.
pub open spec fn apply_updates_spec(
    s: Set<StatemapRectWeight>,
    ups: Seq<(u64, u64, Option<u64>)>,
    ent: usize,
) -> Set<StatemapRectWeight>
    decreases ups.len(),
{
    if ups.len() == 0 {
        s
    } else {
        apply_one(apply_updates_spec(s, ups.drop_last(), ent), ups.last(), ent)
    }
}

/// The least key of a nonempty weight-index set.
pub open spec fn set_min(s: Set<StatemapRectWeight>) -> StatemapRectWeight {
    choose|k: StatemapRectWeight|
        s.contains(k) && forall|k2: StatemapRectWeight|
            #[trigger] s.contains(k2) ==> wk_le(k, k2)
}

pub proof fn lemma_set_min_unique(s: Set<StatemapRectWeight>, k: StatemapRectWeight)
    requires
        s.contains(k),
        forall|k2: StatemapRectWeight| #[trigger] s.contains(k2) ==> wk_le(k, k2),
    ensures
        set_min(s) == k,
{
    let m = set_min(s);
    assert(s.contains(m) && forall|k2: StatemapRectWeight|
        #[trigger] s.contains(k2) ==> wk_le(m, k2));
    assert(wk_le(m, k));
    assert(wk_le(k, m));
}

impl Statemap {
    /// Applies a batch of weight-index edits; `rweight` is the scratch
    /// key naming the entity the edits belong to.
    pub fn apply(
        &mut self,
        updates: Vec<(u64, u64, Option<u64>)>,
        rweight: &mut StatemapRectWeight,
    )
        requires
            old(self).byweight.inv(),
            forall|i: int|
                0 <= i < updates@.len() ==> ((#[trigger] updates@[i]).2 matches Some(d)
                    ==> updates@[i].1 + d <= u64::MAX),
        ensures
            final(self).byweight.inv(),
            final(self).byweight@ == apply_updates_spec(
                old(self).byweight@,
                updates@,
                old(rweight).entity,
            ),
            final(rweight).entity == old(rweight).entity,
            final(self).entities == old(self).entities,
            final(self).states == old(self).states,
            final(self).tags == old(self).tags,
            final(self).config == old(self).config,
            final(self).metadata == old(self).metadata,
            final(self).nrecs == old(self).nrecs,
            final(self).nevents == old(self).nevents,
    {
        let ghost s0 = self.byweight@;
        let ghost ent = rweight.entity;
        let n = updates.len();
        let mut i: usize = 0;
        proof {
            assert(updates@.take(0) =~= Seq::<(u64, u64, Option<u64>)>::empty());
        }
        while i < n
            invariant
                i <= n,
                n == updates@.len(),
                rweight.entity == ent,
                self.byweight.inv(),
                self.byweight@ == apply_updates_spec(s0, updates@.take(i as int), ent),
                forall|j: int|
                    0 <= j < updates@.len() ==> ((#[trigger] updates@[j]).2 matches Some(d)
                        ==> updates@[j].1 + d <= u64::MAX),
                self.entities == old(self).entities,
                self.states == old(self).states,
                self.tags == old(self).tags,
                self.config == old(self).config,
                self.metadata == old(self).metadata,
                self.nrecs == old(self).nrecs,
                self.nevents == old(self).nevents,
            decreases n - i,
        {
            rweight.start = updates[i].0;
            rweight.weight = updates[i].1;
            self.byweight.remove(rweight);
            match updates[i].2 {
                Some(delta) => {
                    rweight.weight = rweight.weight + delta;
                    self.byweight.insert(*rweight);
                },
                None => {},
            }
            proof {
                assert(updates@.take(i as int + 1).drop_last() =~= updates@.take(i as int));
                assert(updates@.take(i as int + 1).last() == updates@[i as int]);
            }
            i = i + 1;
        }
        proof {
            assert(updates@.take(n as int) =~= updates@);
        }
    }
}


proof fn lemma_apply_updates_small(
    s: Set<StatemapRectWeight>,
    ups: Seq<(u64, u64, Option<u64>)>,
    ent: usize,
)
    requires
        2 <= ups.len() <= 4,
    ensures
        ups.len() == 2 ==> apply_updates_spec(s, ups, ent) == apply_one(
            apply_one(s, ups[0], ent),
            ups[1],
            ent,
        ),
        ups.len() == 3 ==> apply_updates_spec(s, ups, ent) == apply_one(
            apply_one(apply_one(s, ups[0], ent), ups[1], ent),
            ups[2],
            ent,
        ),
        ups.len() == 4 ==> apply_updates_spec(s, ups, ent) == apply_one(
            apply_one(apply_one(apply_one(s, ups[0], ent), ups[1], ent), ups[2], ent),
            ups[3],
            ent,
        ),
{
    let u1 = ups.drop_last();
    let u2 = u1.drop_last();
    if ups.len() == 2 {
        assert(u1.drop_last() =~= Seq::<(u64, u64, Option<u64>)>::empty());
        assert(apply_updates_spec(s, u1.drop_last(), ent) == s);
        assert(u1.last() == ups[0] && ups.last() == ups[1]);
        assert(apply_updates_spec(s, u1, ent) == apply_one(s, ups[0], ent));
    } else if ups.len() == 3 {
        assert(u2.drop_last() =~= Seq::<(u64, u64, Option<u64>)>::empty());
        assert(apply_updates_spec(s, u2.drop_last(), ent) == s);
        assert(u2.last() == ups[0] && u1.last() == ups[1] && ups.last() == ups[2]);
        assert(apply_updates_spec(s, u2, ent) == apply_one(s, ups[0], ent));
        assert(apply_updates_spec(s, u1, ent) == apply_one(apply_one(s, ups[0], ent), ups[1], ent));
    } else if ups.len() == 4 {
        let u3 = u2.drop_last();
        assert(u3.drop_last() =~= Seq::<(u64, u64, Option<u64>)>::empty());
        assert(apply_updates_spec(s, u3.drop_last(), ent) == s);
        assert(u3.last() == ups[0] && u2.last() == ups[1] && u1.last() == ups[2] && ups.last()
            == ups[3]);
        assert(apply_updates_spec(s, u3, ent) == apply_one(s, ups[0], ent));
        assert(apply_updates_spec(s, u2, ent) == apply_one(apply_one(s, ups[0], ent), ups[1], ent));
        assert(apply_updates_spec(s, u1, ent) == apply_one(
            apply_one(apply_one(s, ups[0], ent), ups[1], ent),
            ups[2],
            ent,
        ));
    }
}

impl Statemap {
    /// The key under which the rectangle at `i` of entity `e` would be
    /// indexed, with the weight it carried before coalescing.
    pub open spec fn victim_key(&self, e: int, start: u64) -> StatemapRectWeight {
        self.rect_key(e, idx_of_start(self.entities@[e].rects@, start))
    }

    /// Subsumes the rectangle starting at `victim` within entity `eidx`
    /// and replays the reported weight edits on the weight index.  The
    /// victim's own key need not be indexed on entry (a trim pops it
    /// first); every other rectangle's must.
    #[verifier::rlimit(100)]
    fn coalesce_at(&mut self, eidx: usize, victim: u64)
        requires
            old(self).entities_wf(),
            old(self).tags_ok(),
            old(self).byweight.inv(),
            old(self).index_sound(),
            old(self).states@.len() <= u32::MAX,
            (eidx as int) < old(self).entities@.len(),
            old(self).entities@[eidx as int].rects@.len() >= 2,
            has_start(old(self).entities@[eidx as int].rects@, victim),
            forall|e: int, i: int|
                0 <= e < old(self).entities@.len() && 0 <= i < old(self).entities@[e].rects@.len() && old(self).entities@[e].rects@.len() >= 2 && !(e
                    == eidx as int && old(self).entities@[e].rects@[i].start == victim) ==> old(self).byweight@.contains(#[trigger] old(self).rect_key(e, i)),
        ensures
            final(self).wf(),
            final(self).entities@.len() == old(self).entities@.len(),
            forall|e: int|
                0 <= e < old(self).entities@.len() && e != eidx as int ==> final(self).entities@[e] == old(self).entities@[e],
            ({
                let s = old(self).entities@[eidx as int].rects@;
                let a = merge_index(s, idx_of_start(s, victim));
                let e1 = final(self).entities@[eidx as int];
                let e0 = old(self).entities@[eidx as int];
                &&& is_coalesced(e1.rects@, s, a)
                &&& e1.start == e0.start
                &&& e1.state == e0.state
                &&& e1.tag == e0.tag
                &&& e1.same_identity(&e0)
                &&& (forall|st: int|
                    0 <= st < old(self).states@.len() ==> #[trigger] e1.state_total(st)
                        == e0.state_total(st))
                &&& e1.tag_total() == e0.tag_total()
            }),
            final(self).byweight@.len() == old(self).byweight@.len() - (if old(self).byweight@.contains(old(self).victim_key(eidx as int, victim)) {
                1int
            } else {
                0
            }),
            forall|k: StatemapRectWeight|
                k.entity != eidx ==> (final(self).byweight@.contains(k) <==> #[trigger] old(self).byweight@.contains(k)),
            final(self).states == old(self).states,
            final(self).tags == old(self).tags,
            final(self).config == old(self).config,
            final(self).metadata == old(self).metadata,
            final(self).nrecs == old(self).nrecs,
            final(self).nevents == old(self).nevents,
    {
        let n_entities = self.entities.len();
        let ghost s0r = old(self).entities@[eidx as int].rects@;
        let ghost sw0 = old(self).byweight@;
        proof {
            assert(old(self).entity_ok(eidx as int));
            lemma_chain_starts_unique(s0r);
            old(self).byweight.lemma_inv_facts();
        }
        let ghost vi = idx_of_start(s0r, victim);
        let ghost a_g = merge_index(s0r, vi);

        let er = vstd::std_specs::vec::vec_index_mut(&mut self.entities, eidx);
        let deltas = er.subsume(victim);
        proof {
            assert(is_merge_of(er.rects@, s0r, a_g));
            assert(deltas == deltas_at(s0r, a_g));
            lemma_pre_apply(er.rects@, s0r, a_g);
        }
        let ghost mr = er.rects@;
        let updates = er.apply(deltas);
        let ghost t = self.entities@[eidx as int].rects@;
        proof {
            lemma_coalesced_wf(t, mr, s0r, a_g);
            assert(chain_ok_at(s0r, a_g));
            assert(chain_ok_at(s0r, a_g + 1));
            if a_g + 2 < s0r.len() {
                assert(chain_ok_at(s0r, a_g + 2));
            }
        }
        let mut rweight = StatemapRectWeight { weight: 0, start: 0, entity: eidx };
        self.apply(updates, &mut rweight);
        proof {
            lemma_coalesce_finish(*old(self), *self, eidx, victim, t, mr, updates@);
        }
    }
}

/// The weight-index edits that coalescing at slot `a` issues, in order.
pub open spec fn coalesce_updates(s: Seq<StatemapRect>, a: int) -> Seq<(u64, u64, Option<u64>)> {
    let d = deltas_at(s, a);
    (if a > 0 {
        seq![(s[a - 1].start, s[a - 1].weight, Option::Some(d.0.1))]
    } else {
        Seq::<(u64, u64, Option<u64>)>::empty()
    }) + seq![
        (s[a].start, s[a].weight, Option::Some(d.1.1)),
        (s[a + 1].start, s[a + 1].weight, Option::<u64>::None),
    ] + (if a + 2 < s.len() {
        seq![(s[a + 2].start, s[a + 2].weight, Option::Some(d.3.1))]
    } else {
        Seq::<(u64, u64, Option<u64>)>::empty()
    })
}

/// Everything that holds between the statemap before a coalescing step
/// (`m0`) and after it (`m1`): the merged rectangle list `t` (reached
/// from `m0`'s via the intermediate stale-weight list `mr`), and the
/// weight index rewritten by the reported edits.
pub open spec fn coalesce_ctx(
    m0: Statemap,
    m1: Statemap,
    eidx: usize,
    victim: u64,
    t: Seq<StatemapRect>,
    mr: Seq<StatemapRect>,
    ups: Seq<(u64, u64, Option<u64>)>,
) -> bool {
    let s0r = m0.entities@[eidx as int].rects@;
    let a = merge_index(s0r, idx_of_start(s0r, victim));
    &&& m0.entities_wf()
    &&& m0.byweight.inv()
    &&& m0.index_sound()
    &&& (eidx as int) < m0.entities@.len()
    &&& m0.entities@.len() <= usize::MAX
    &&& s0r.len() >= 2
    &&& has_start(s0r, victim)
    &&& (forall|e: int, i: int|
        0 <= e < m0.entities@.len() && 0 <= i < m0.entities@[e].rects@.len()
            && m0.entities@[e].rects@.len() >= 2 && !(e == eidx as int
            && m0.entities@[e].rects@[i].start == victim) ==> m0.byweight@.contains(
            #[trigger] m0.rect_key(e, i),
        ))
    &&& is_merge_of(mr, s0r, a)
    &&& t.len() == mr.len()
    &&& (forall|i: int|
        0 <= i < mr.len() ==> t[i] == bump_by_deltas(#[trigger] mr[i], deltas_at(s0r, a)))
    &&& ups == coalesce_updates(s0r, a)
    &&& m1.byweight@ == apply_updates_spec(m0.byweight@, ups, eidx)
    &&& m1.byweight.inv()
    &&& m1.entities@.len() == m0.entities@.len()
    &&& (forall|e: int|
        0 <= e < m0.entities@.len() && e != eidx as int ==> m1.entities@[e] == m0.entities@[e])
    &&& m1.entities@[eidx as int].rects@ == t
    &&& m1.entities@[eidx as int].id == eidx
    &&& m1.entities@[eidx as int].last_ok()
    &&& m1.entities@[eidx as int].start == m0.entities@[eidx as int].start
    &&& m1.entities@[eidx as int].state == m0.entities@[eidx as int].state
    &&& m1.states == m0.states
    &&& m1.config == m0.config
}


/// Everything the in-memory delta application needs of the merged list:
/// where each edited start sits, and that the edits stay in `u64` range.
proof fn lemma_pre_apply(mr: Seq<StatemapRect>, s0r: Seq<StatemapRect>, a_g: int)
    requires
        chain_ok(s0r),
        weights_ok(s0r),
        crate::entity::states_len_uniform(s0r),
        is_merge_of(mr, s0r, a_g),
    ensures
        chain_ok(mr),
        starts_unique(mr),
        mr[a_g].start == s0r[a_g].start,
        idx_of_start(mr, s0r[a_g].start) == a_g,
        mr[a_g].weight == s0r[a_g].weight,
        s0r[a_g].weight + (if a_g + 2 < s0r.len() {
            s0r[a_g + 2].duration as int
        } else {
            0
        }) <= u64::MAX,
        a_g > 0 ==> mr[a_g - 1] == s0r[a_g - 1] && idx_of_start(mr, s0r[a_g - 1].start) == a_g - 1
            && s0r[a_g - 1].weight + s0r[a_g + 1].duration <= u64::MAX && s0r[a_g - 1].start
            < s0r[a_g].start && s0r[a_g - 1].start < s0r[a_g + 1].start,
        a_g + 2 < s0r.len() ==> mr[a_g + 1].start == s0r[a_g + 2].start && mr[a_g + 1].weight
            == s0r[a_g + 2].weight && idx_of_start(mr, s0r[a_g + 2].start) == a_g + 1
            && s0r[a_g + 2].weight + s0r[a_g].duration <= u64::MAX && s0r[a_g].start
            < s0r[a_g + 2].start && (a_g > 0 ==> s0r[a_g - 1].start < s0r[a_g + 2].start),
        chain_ok_at(s0r, a_g),
        chain_ok_at(s0r, a_g + 1),
        a_g + 2 < s0r.len() ==> chain_ok_at(s0r, a_g + 2),
        s0r[a_g].start < s0r[a_g + 1].start,
{
    lemma_deltas_fit(mr, s0r, a_g);
    lemma_chain_starts_unique(mr);
    assert(mr[a_g].start == s0r[a_g].start);
    lemma_idx_of_start(mr, s0r[a_g].start, a_g);
    if a_g > 0 {
        assert(mr[a_g - 1] == s0r[a_g - 1]);
        lemma_idx_of_start(mr, s0r[a_g - 1].start, a_g - 1);
        crate::entity::lemma_chain_starts_increase(s0r, a_g - 1, a_g);
        crate::entity::lemma_chain_starts_increase(s0r, a_g - 1, a_g + 1);
    }
    if a_g + 2 < s0r.len() {
        lemma_idx_of_start(mr, s0r[a_g + 2].start, a_g + 1);
        crate::entity::lemma_chain_starts_increase(s0r, a_g, a_g + 2);
        if a_g > 0 {
            crate::entity::lemma_chain_starts_increase(s0r, a_g - 1, a_g + 2);
        }
        assert(chain_ok_at(s0r, a_g + 2));
    }
    assert(chain_ok_at(s0r, a_g));
    assert(chain_ok_at(s0r, a_g + 1));
    crate::entity::lemma_chain_starts_increase(s0r, a_g, a_g + 1);
}

/// Once the subsumption, the in-memory delta application and the index
/// edits have all reported their effects, the rewritten statemap is well
/// formed again and the index shrank exactly when the victim's key had
/// been indexed.
#[verifier::rlimit(100)]
proof fn lemma_coalesce_finish(
    m0: Statemap,
    m1: Statemap,
    eidx: usize,
    victim: u64,
    t: Seq<StatemapRect>,
    mr: Seq<StatemapRect>,
    ups: Seq<(u64, u64, Option<u64>)>,
)
    requires
        m0.entities_wf(),
        m0.tags_ok(),
        m0.byweight.inv(),
        m0.index_sound(),
        m0.states@.len() <= u32::MAX,
        (eidx as int) < m0.entities@.len(),
        m0.entities@.len() <= usize::MAX,
        m0.entities@[eidx as int].rects@.len() >= 2,
        has_start(m0.entities@[eidx as int].rects@, victim),
        (forall|e: int, i: int|
            0 <= e < m0.entities@.len() && 0 <= i < m0.entities@[e].rects@.len()
                && m0.entities@[e].rects@.len() >= 2 && !(e == eidx as int
                && m0.entities@[e].rects@[i].start == victim) ==> m0.byweight@.contains(
                #[trigger] m0.rect_key(e, i),
            )),
        is_merge_of(mr, s0r_of(m0, eidx), merge_index(s0r_of(m0, eidx), idx_of_start(s0r_of(m0, eidx), victim))),
        t.len() == mr.len(),
        (forall|i: int|
            0 <= i < mr.len() ==> t[i] == bump_by_deltas(
                #[trigger] mr[i],
                deltas_at(s0r_of(m0, eidx), merge_index(s0r_of(m0, eidx), idx_of_start(s0r_of(m0, eidx), victim))),
            )),
        ({
            let d = deltas_at(
                s0r_of(m0, eidx),
                merge_index(s0r_of(m0, eidx), idx_of_start(s0r_of(m0, eidx), victim)),
            );
            ups == (match d.0.0 {
                Some(ls) => seq![(ls, mr[idx_of_start(mr, ls)].weight, Option::Some(d.0.1))],
                None => Seq::<(u64, u64, Option<u64>)>::empty(),
            }) + seq![
                (d.1.0, mr[idx_of_start(mr, d.1.0)].weight, Option::Some(d.1.1)),
                (d.2.0, d.2.1, Option::<u64>::None),
            ] + (match d.3.0 {
                Some(rs) => seq![(rs, mr[idx_of_start(mr, rs)].weight, Option::Some(d.3.1))],
                None => Seq::<(u64, u64, Option<u64>)>::empty(),
            })
        }),
        m1.byweight@ == apply_updates_spec(m0.byweight@, ups, eidx),
        m1.byweight.inv(),
        m1.entities@.len() == m0.entities@.len(),
        (forall|e: int|
            0 <= e < m0.entities@.len() && e != eidx as int ==> m1.entities@[e]
                == m0.entities@[e]),
        m1.entities@[eidx as int].rects@ == t,
        m1.entities@[eidx as int].id == eidx,
        m1.entities@[eidx as int].last == Option::Some(mr.last().start),
        m1.entities@[eidx as int].start == m0.entities@[eidx as int].start,
        m1.entities@[eidx as int].state == m0.entities@[eidx as int].state,
        m1.entities@[eidx as int].name == m0.entities@[eidx as int].name,
        m1.states == m0.states,
        m1.tags@ == m0.tags@,
        m1.config == m0.config,
    ensures
        m1.wf(),
        m1.byweight@.len() == m0.byweight@.len() - (if m0.byweight@.contains(
            m0.victim_key(eidx as int, victim),
        ) {
            1int
        } else {
            0
        }),
        forall|k: StatemapRectWeight|
            k.entity != eidx ==> (m1.byweight@.contains(k) <==> #[trigger] m0.byweight@.contains(
                k,
            )),
{
    broadcast use vstd::set::group_set_axioms;

    let s0r = s0r_of(m0, eidx);
    let vi = idx_of_start(s0r, victim);
    let a_g = merge_index(s0r, vi);
    assert(m0.entity_ok(eidx as int));
    lemma_pre_apply(mr, s0r, a_g);
    lemma_coalesced_wf(t, mr, s0r, a_g);
    let d = deltas_at(s0r, a_g);
    if a_g > 0 {
        assert(d.0.0 == Option::Some(s0r[a_g - 1].start));
        assert(mr[idx_of_start(mr, s0r[a_g - 1].start)].weight == s0r[a_g - 1].weight);
    } else {
        assert(d.0.0 is None);
    }
    assert(d.1.0 == s0r[a_g].start);
    assert(mr[idx_of_start(mr, d.1.0)].weight == s0r[a_g].weight);
    if a_g + 2 < s0r.len() {
        assert(d.3.0 == Option::Some(s0r[a_g + 2].start));
        assert(mr[idx_of_start(mr, s0r[a_g + 2].start)].weight == s0r[a_g + 2].weight);
    } else {
        assert(d.3.0 is None);
    }
    assert(ups =~= coalesce_updates(s0r, a_g));
    assert(m1.entities@[eidx as int].last_ok()) by {
        assert(t.len() == mr.len());
        assert(crate::entity::same_except_weight(t[t.len() - 1], mr[mr.len() - 1]));
        assert(t.last().start == mr.last().start);
    }
    assert(coalesce_ctx(m0, m1, eidx, victim, t, mr, ups));
    lemma_coalesce_sound(m0, m1, eidx, victim, t, mr, ups);
    lemma_coalesce_complete(m0, m1, eidx, victim, t, mr, ups);
    lemma_coalesce_entities(m0, m1, eidx, victim, t, mr, ups);
    lemma_coalesce_count(m0, m1, eidx, victim, t, mr, ups);
    assert forall|t1: int, t2: int|
        0 <= t1 < t2 < m1.tags@.len() implies !(m1.tags@[t1].state == m1.tags@[t2].state
        && m1.tags@[t1].tag@ == m1.tags@[t2].tag@) by {
        assert(m0.tags@[t1] == m1.tags@[t1] && m0.tags@[t2] == m1.tags@[t2]);
    }
    // every edited key belongs to the coalesced entity, so the other
    // entities' keys are untouched
    lemma_coalesce_chain(m0, m1, eidx, victim, t, mr, ups);
    assert forall|k: StatemapRectWeight| k.entity != eidx implies (m1.byweight@.contains(k)
        <==> #[trigger] m0.byweight@.contains(k)) by {}
}

/// The rectangle list of the entity a coalescing step works on.
pub open spec fn s0r_of(m: Statemap, eidx: usize) -> Seq<StatemapRect> {
    m.entities@[eidx as int].rects@
}

/// The chain of set edits a coalescing step performs, written out.
#[verifier::rlimit(100)]
proof fn lemma_coalesce_chain(
    m0: Statemap,
    m1: Statemap,
    eidx: usize,
    victim: u64,
    t: Seq<StatemapRect>,
    mr: Seq<StatemapRect>,
    ups: Seq<(u64, u64, Option<u64>)>,
)
    requires
        coalesce_ctx(m0, m1, eidx, victim, t, mr, ups),
    ensures
        ({
            let s0r = m0.entities@[eidx as int].rects@;
            let a = merge_index(s0r, idx_of_start(s0r, victim));
            let d = deltas_at(s0r, a);
            let uc = (s0r[a].start, s0r[a].weight, Option::Some(d.1.1));
            let uv = (s0r[a + 1].start, s0r[a + 1].weight, Option::<u64>::None);
            let base = if a > 0 {
                apply_one(
                    m0.byweight@,
                    (s0r[a - 1].start, s0r[a - 1].weight, Option::Some(d.0.1)),
                    eidx,
                )
            } else {
                m0.byweight@
            };
            let mid = apply_one(apply_one(base, uc, eidx), uv, eidx);
            m1.byweight@ == (if a + 2 < s0r.len() {
                apply_one(mid, (s0r[a + 2].start, s0r[a + 2].weight, Option::Some(d.3.1)), eidx)
            } else {
                mid
            })
        }),
{
    let s0r = m0.entities@[eidx as int].rects@;
    let a = merge_index(s0r, idx_of_start(s0r, victim));
    let d = deltas_at(s0r, a);
    let uc = (s0r[a].start, s0r[a].weight, Option::Some(d.1.1));
    let uv = (s0r[a + 1].start, s0r[a + 1].weight, Option::<u64>::None);
    let sw0 = m0.byweight@;
    if a > 0 && a + 2 < s0r.len() {
        let ul = (s0r[a - 1].start, s0r[a - 1].weight, Option::Some(d.0.1));
        let ur = (s0r[a + 2].start, s0r[a + 2].weight, Option::Some(d.3.1));
        assert(ups =~= seq![ul, uc, uv, ur]);
        lemma_apply_updates_small(sw0, ups, eidx);
    } else if a > 0 {
        let ul = (s0r[a - 1].start, s0r[a - 1].weight, Option::Some(d.0.1));
        assert(ups =~= seq![ul, uc, uv]);
        lemma_apply_updates_small(sw0, ups, eidx);
    } else if a + 2 < s0r.len() {
        let ur = (s0r[a + 2].start, s0r[a + 2].weight, Option::Some(d.3.1));
        assert(ups =~= seq![uc, uv, ur]);
        lemma_apply_updates_small(sw0, ups, eidx);
    } else {
        assert(ups =~= seq![uc, uv]);
        lemma_apply_updates_small(sw0, ups, eidx);
    }
}

/// The facts every reindexing argument leans on: the edited slots hold
/// four distinct, indexed start times, and a key of the edited entity
/// names its rectangle.
proof fn lemma_coalesce_prelude(
    m0: Statemap,
    m1: Statemap,
    eidx: usize,
    victim: u64,
    t: Seq<StatemapRect>,
    mr: Seq<StatemapRect>,
    ups: Seq<(u64, u64, Option<u64>)>,
)
    requires
        coalesce_ctx(m0, m1, eidx, victim, t, mr, ups),
    ensures
        ({
            let s0r = m0.entities@[eidx as int].rects@;
            let vi = idx_of_start(s0r, victim);
            let a = merge_index(s0r, vi);
            &&& (vi == a || vi == a + 1)
            &&& chain_ok_at(s0r, a)
            &&& chain_ok_at(s0r, a + 1)
            &&& (a > 0 ==> s0r[a - 1].start < s0r[a].start)
            &&& s0r[a].start < s0r[a + 1].start
            &&& (a + 2 < s0r.len() ==> s0r[a + 1].start < s0r[a + 2].start)
            &&& (a > 0 ==> s0r[a - 1].start < s0r[a + 1].start)
            &&& (a + 2 < s0r.len() ==> s0r[a].start < s0r[a + 2].start)
            &&& (a > 0 && a + 2 < s0r.len() ==> s0r[a - 1].start < s0r[a + 2].start)
            &&& (forall|k: StatemapRectWeight|
                m0.byweight@.contains(k) && k.entity == eidx ==> has_start(s0r, #[trigger] k.start)
                    && k == StatemapRectWeight {
                    weight: s0r[idx_of_start(s0r, k.start)].weight,
                    start: k.start,
                    entity: eidx,
                })
            &&& (forall|j: int|
                0 <= j < s0r.len() ==> idx_of_start(s0r, #[trigger] s0r[j].start) == j)
            &&& starts_unique(s0r)
            &&& starts_unique(t)
            &&& (forall|j: int| 0 <= j < t.len() ==> idx_of_start(t, #[trigger] t[j].start) == j)
        }),
{
    let s0r = m0.entities@[eidx as int].rects@;
    let vi = idx_of_start(s0r, victim);
    let a = merge_index(s0r, vi);
    assert(m0.entity_ok(eidx as int));
    lemma_chain_starts_unique(s0r);
    assert(chain_ok_at(s0r, a));
    assert(chain_ok_at(s0r, a + 1));
    if a > 0 {
        crate::entity::lemma_chain_starts_increase(s0r, a - 1, a);
        crate::entity::lemma_chain_starts_increase(s0r, a - 1, a + 1);
    }
    crate::entity::lemma_chain_starts_increase(s0r, a, a + 1);
    if a + 2 < s0r.len() {
        crate::entity::lemma_chain_starts_increase(s0r, a + 1, a + 2);
        crate::entity::lemma_chain_starts_increase(s0r, a, a + 2);
        if a > 0 {
            crate::entity::lemma_chain_starts_increase(s0r, a - 1, a + 2);
        }
    }
    assert forall|k: StatemapRectWeight|
        m0.byweight@.contains(k) && k.entity == eidx implies has_start(s0r, #[trigger] k.start)
        && k == (StatemapRectWeight {
        weight: s0r[idx_of_start(s0r, k.start)].weight,
        start: k.start,
        entity: eidx,
    }) by {
        assert(m0.entry_matches(k));
    }
    assert forall|j: int| 0 <= j < s0r.len() implies idx_of_start(s0r, #[trigger] s0r[j].start)
        == j by {
        lemma_idx_of_start(s0r, s0r[j].start, j);
    }
    lemma_coalesced_wf(t, mr, s0r, a);
    lemma_chain_starts_unique(t);
    assert forall|j: int| 0 <= j < t.len() implies idx_of_start(t, #[trigger] t[j].start) == j by {
        lemma_idx_of_start(t, t[j].start, j);
    }
}

/// Every key of the rewritten index names a live rectangle.
#[verifier::rlimit(100)]
proof fn lemma_coalesce_sound(
    m0: Statemap,
    m1: Statemap,
    eidx: usize,
    victim: u64,
    t: Seq<StatemapRect>,
    mr: Seq<StatemapRect>,
    ups: Seq<(u64, u64, Option<u64>)>,
)
    requires
        coalesce_ctx(m0, m1, eidx, victim, t, mr, ups),
    ensures
        m1.index_sound(),
{
    broadcast use vstd::set::group_set_axioms;

    let s0r = m0.entities@[eidx as int].rects@;
    let vi = idx_of_start(s0r, victim);
    let a_g = merge_index(s0r, vi);
    let n0 = s0r.len() as int;
    let hasl = a_g > 0;
    let hasr = a_g + 2 < n0;
    let d = deltas_at(s0r, a_g);
    let sw0 = m0.byweight@;
    assert(m0.entity_ok(eidx as int));
    lemma_coalesce_prelude(m0, m1, eidx, victim, t, mr, ups);
    lemma_coalesce_chain(m0, m1, eidx, victim, t, mr, ups);
    lemma_coalesced_wf(t, mr, s0r, a_g);
    let kc_new = StatemapRectWeight {
        weight: (s0r[a_g].weight + d.1.1) as u64,
        start: s0r[a_g].start,
        entity: eidx,
    };
    assert forall|k: StatemapRectWeight| m1.byweight@.contains(k) implies #[trigger] m1.entry_matches(
        k,
    ) by {
        if k.entity != eidx {
            assert(sw0.contains(k));
            assert(m0.entry_matches(k));
            assert(m1.entities@[k.entity as int] == m0.entities@[k.entity as int]);
        } else {
            if hasl && k == (StatemapRectWeight {
                weight: (s0r[a_g - 1].weight + d.0.1) as u64,
                start: s0r[a_g - 1].start,
                entity: eidx,
            }) {
                assert(t[a_g - 1].start == s0r[a_g - 1].start);
                assert(t[a_g - 1].weight == k.weight);
            } else if k == kc_new {
                assert(t[a_g].start == s0r[a_g].start);
                assert(t[a_g].weight == k.weight);
            } else if hasr && k == (StatemapRectWeight {
                weight: (s0r[a_g + 2].weight + d.3.1) as u64,
                start: s0r[a_g + 2].start,
                entity: eidx,
            }) {
                assert(t[a_g + 1].start == s0r[a_g + 2].start);
                assert(t[a_g + 1].weight == k.weight);
            } else {
                assert(sw0.contains(k));
                let j = idx_of_start(s0r, k.start);
                assert(0 <= j < n0 && s0r[j].start == k.start);
                assert(k == m0.rect_key(eidx as int, j));
                assert(j != a_g - 1 && j != a_g && j != a_g + 1 && j != a_g + 2);
                let j2 = if j < a_g {
                    j
                } else {
                    j - 1
                };
                assert(t[j2] == s0r[j]);
            }
        }
    }
}

/// Every rectangle of a multi-rectangle entity stays indexed.
#[verifier::rlimit(100)]
proof fn lemma_coalesce_complete(
    m0: Statemap,
    m1: Statemap,
    eidx: usize,
    victim: u64,
    t: Seq<StatemapRect>,
    mr: Seq<StatemapRect>,
    ups: Seq<(u64, u64, Option<u64>)>,
)
    requires
        coalesce_ctx(m0, m1, eidx, victim, t, mr, ups),
    ensures
        m1.index_complete(),
{
    broadcast use vstd::set::group_set_axioms;

    let s0r = m0.entities@[eidx as int].rects@;
    let vi = idx_of_start(s0r, victim);
    let a_g = merge_index(s0r, vi);
    let n0 = s0r.len() as int;
    let hasl = a_g > 0;
    let hasr = a_g + 2 < n0;
    let d = deltas_at(s0r, a_g);
    let sw0 = m0.byweight@;
    assert(m0.entity_ok(eidx as int));
    lemma_coalesce_prelude(m0, m1, eidx, victim, t, mr, ups);
    lemma_coalesce_chain(m0, m1, eidx, victim, t, mr, ups);
    lemma_coalesced_wf(t, mr, s0r, a_g);
    let kc_old = StatemapRectWeight {
        weight: s0r[a_g].weight,
        start: s0r[a_g].start,
        entity: eidx,
    };
    let kv = StatemapRectWeight {
        weight: s0r[a_g + 1].weight,
        start: s0r[a_g + 1].start,
        entity: eidx,
    };
    let kc_new = StatemapRectWeight {
        weight: (s0r[a_g].weight + d.1.1) as u64,
        start: s0r[a_g].start,
        entity: eidx,
    };
    assert forall|e: int, i: int|
        0 <= e < m1.entities@.len() && 0 <= i < m1.entities@[e].rects@.len()
            && m1.entities@[e].rects@.len() >= 2 implies m1.byweight@.contains(
        #[trigger] m1.rect_key(e, i),
    ) by {
        if e != eidx as int {
            assert(m1.entities@[e] == m0.entities@[e]);
            assert(m1.rect_key(e, i) == m0.rect_key(e, i));
            let k = m0.rect_key(e, i);
            assert(sw0.contains(k));
            assert(k.entity != eidx);
        } else {
            if i == a_g {
                assert(t[a_g].weight == kc_new.weight);
                assert(m1.rect_key(e, i) == kc_new);
            } else if hasl && i == a_g - 1 {
                assert(m1.rect_key(e, i) == (StatemapRectWeight {
                    weight: (s0r[a_g - 1].weight + d.0.1) as u64,
                    start: s0r[a_g - 1].start,
                    entity: eidx,
                }));
            } else if hasr && i == a_g + 1 {
                assert(m1.rect_key(e, i) == (StatemapRectWeight {
                    weight: (s0r[a_g + 2].weight + d.3.1) as u64,
                    start: s0r[a_g + 2].start,
                    entity: eidx,
                }));
            } else {
                let oj = if i < a_g {
                    i
                } else {
                    i + 1
                };
                assert(t[i] == s0r[oj]);
                assert(m1.rect_key(e, i) == m0.rect_key(eidx as int, oj));
                let k = m0.rect_key(eidx as int, oj);
                assert(oj != vi);
                assert(sw0.contains(k));
                if hasl {
                    assert(k != m0.rect_key(eidx as int, a_g - 1));
                }
                assert(k != kc_old && k != kv);
                if hasr {
                    assert(k != m0.rect_key(eidx as int, a_g + 2));
                }
            }
        }
    }
}

/// The rewritten statemap's entities all stay well formed.
#[verifier::rlimit(100)]
proof fn lemma_coalesce_entities(
    m0: Statemap,
    m1: Statemap,
    eidx: usize,
    victim: u64,
    t: Seq<StatemapRect>,
    mr: Seq<StatemapRect>,
    ups: Seq<(u64, u64, Option<u64>)>,
)
    requires
        coalesce_ctx(m0, m1, eidx, victim, t, mr, ups),
        m1.entities@[eidx as int].name == m0.entities@[eidx as int].name,
    ensures
        m1.entities_wf(),
{
    let s0r = m0.entities@[eidx as int].rects@;
    let vi = idx_of_start(s0r, victim);
    let a_g = merge_index(s0r, vi);
    assert(m0.entity_ok(eidx as int));
    lemma_coalesce_prelude(m0, m1, eidx, victim, t, mr, ups);
    lemma_coalesced_wf(t, mr, s0r, a_g);
    assert(m1.entity_ok(eidx as int)) by {
        let e1 = m1.entities@[eidx as int];
        let e0 = m0.entities@[eidx as int];
        assert(m0.entity_ok(eidx as int));
        assert(e1.rects@ == t);
        assert(chain_ok(t) && weights_ok(t));
        if t.len() > 0 {
            let tl = t.len() - 1;
            if a_g + 1 < t.len() {
                assert(t.last().start + t.last().duration == s0r.last().start
                    + s0r.last().duration);
            } else {
                assert(t.last().start + t.last().duration == s0r[a_g].start + s0r[a_g].duration
                    + s0r[a_g + 1].duration);
                assert(s0r[a_g].start + s0r[a_g].duration == s0r[a_g + 1].start);
            }
        }
        assert(e1.open_ok());
        assert forall|i: int|
            0 <= i < e1.rects@.len() implies (#[trigger] e1.rects@[i].states@.len())
            == m1.states@.len() by {
            assert(t[i].states@.len() == t[0].states@.len());
            assert(t[0].states@.len() == mr[0].states@.len());
            assert(mr[0].states@.len() == (if 0 < a_g {
                s0r[0].states@.len()
            } else {
                crate::rect::seq_add(s0r[0].states@, s0r[1].states@).len()
            }));
        }
    }
    assert forall|e: int| 0 <= e < m1.entities@.len() implies #[trigger] m1.entity_ok(e) by {
        if e != eidx as int {
            assert(m0.entity_ok(e));
            assert(m1.entities@[e] == m0.entities@[e]);
        }
    }
    assert forall|e1: int, e2: int|
        0 <= e1 < e2 < m1.entities@.len() implies m1.entities@[e1].name@
        != m1.entities@[e2].name@ by {
        assert(m1.entities@[e1].name == (if e1 == eidx as int {
            m0.entities@[e1].name
        } else {
            m1.entities@[e1].name
        }));
        assert(m1.entities@[e2].name == (if e2 == eidx as int {
            m0.entities@[e2].name
        } else {
            m1.entities@[e2].name
        }));
    }
}

/// The index shrinks by one exactly when the victim's key was present.
#[verifier::rlimit(100)]
proof fn lemma_coalesce_count(
    m0: Statemap,
    m1: Statemap,
    eidx: usize,
    victim: u64,
    t: Seq<StatemapRect>,
    mr: Seq<StatemapRect>,
    ups: Seq<(u64, u64, Option<u64>)>,
)
    requires
        coalesce_ctx(m0, m1, eidx, victim, t, mr, ups),
    ensures
        m1.byweight@.len() == m0.byweight@.len() - (if m0.byweight@.contains(
            m0.victim_key(eidx as int, victim),
        ) {
            1int
        } else {
            0
        }),
{
    broadcast use vstd::set::group_set_axioms;

    let s0r = m0.entities@[eidx as int].rects@;
    let vi = idx_of_start(s0r, victim);
    let a_g = merge_index(s0r, vi);
    let n0 = s0r.len() as int;
    let hasl = a_g > 0;
    let hasr = a_g + 2 < n0;
    let d = deltas_at(s0r, a_g);
    let sw0 = m0.byweight@;
    assert(m0.entity_ok(eidx as int));
    lemma_coalesce_prelude(m0, m1, eidx, victim, t, mr, ups);
    lemma_coalesce_chain(m0, m1, eidx, victim, t, mr, ups);
    lemma_deltas_fit(mr, s0r, a_g);
    m0.byweight.lemma_inv_facts();
    let vkey = m0.victim_key(eidx as int, victim);
    let kc_old = StatemapRectWeight {
        weight: s0r[a_g].weight,
        start: s0r[a_g].start,
        entity: eidx,
    };
    let kc_new = StatemapRectWeight {
        weight: (s0r[a_g].weight + d.1.1) as u64,
        start: s0r[a_g].start,
        entity: eidx,
    };
    let kv = StatemapRectWeight {
        weight: s0r[a_g + 1].weight,
        start: s0r[a_g + 1].start,
        entity: eidx,
    };
    let uc = (s0r[a_g].start, s0r[a_g].weight, Option::Some(d.1.1));
    let uv = (s0r[a_g + 1].start, s0r[a_g + 1].weight, Option::<u64>::None);
    assert(vkey == (if vi == a_g {
        kc_old
    } else {
        kv
    }));
    assert(chain_ok_at(s0r, a_g + 1));
    if vi == a_g {
        assert(sw0.contains(m0.rect_key(eidx as int, a_g + 1)));
    } else {
        assert(sw0.contains(m0.rect_key(eidx as int, a_g)));
    }
    // a stale key can only live in the index under its own weight
    assert(kc_old == m0.rect_key(eidx as int, a_g));
    assert(kv == m0.rect_key(eidx as int, a_g + 1));
    assert(sw0.contains(kc_new) ==> kc_new == kc_old) by {
        if sw0.contains(kc_new) {
            assert(m0.entry_matches(kc_new));
            assert(idx_of_start(s0r, kc_new.start) == a_g);
        }
    }
    let base = if hasl {
        apply_one(sw0, (s0r[a_g - 1].start, s0r[a_g - 1].weight, Option::Some(d.0.1)), eidx)
    } else {
        sw0
    };
    if hasl {
        let kl_old = StatemapRectWeight {
            weight: s0r[a_g - 1].weight,
            start: s0r[a_g - 1].start,
            entity: eidx,
        };
        let kl_new = StatemapRectWeight {
            weight: (s0r[a_g - 1].weight + d.0.1) as u64,
            start: s0r[a_g - 1].start,
            entity: eidx,
        };
        assert(kl_old == m0.rect_key(eidx as int, a_g - 1));
        assert(sw0.contains(m0.rect_key(eidx as int, a_g - 1)));
        assert(sw0.contains(kl_new) ==> kl_new == kl_old) by {
            if sw0.contains(kl_new) {
                assert(m0.entry_matches(kl_new));
                assert(idx_of_start(s0r, kl_new.start) == a_g - 1);
            }
        }
        assert(d.0.1 == s0r[a_g + 1].duration && d.0.1 > 0);
        assert(kl_new != kl_old);
        assert(base.len() == sw0.len());
        assert(base.contains(kc_old) == sw0.contains(kc_old));
        assert(base.contains(kv) == sw0.contains(kv));
        assert(base.finite());
    }
    let s2 = apply_one(base, uc, eidx);
    assert(s2.finite());
    assert(s2.len() == base.len() - (if sw0.contains(kc_old) {
        1int
    } else {
        0
    }) + 1) by {
        assert(base.contains(kc_old) == sw0.contains(kc_old));
        assert(!base.remove(kc_old).contains(kc_new));
    }
    assert(s2.contains(kv) == sw0.contains(kv));
    let s3 = apply_one(s2, uv, eidx);
    assert(s3.finite());
    assert(s3.len() == s2.len() - (if sw0.contains(kv) {
        1int
    } else {
        0
    }));
    if hasr {
        let kr_old = StatemapRectWeight {
            weight: s0r[a_g + 2].weight,
            start: s0r[a_g + 2].start,
            entity: eidx,
        };
        let kr_new = StatemapRectWeight {
            weight: (s0r[a_g + 2].weight + d.3.1) as u64,
            start: s0r[a_g + 2].start,
            entity: eidx,
        };
        assert(kr_old == m0.rect_key(eidx as int, a_g + 2));
        assert(sw0.contains(m0.rect_key(eidx as int, a_g + 2)));
        assert(sw0.contains(kr_new) ==> kr_new == kr_old) by {
            if sw0.contains(kr_new) {
                assert(m0.entry_matches(kr_new));
                assert(idx_of_start(s0r, kr_new.start) == a_g + 2);
            }
        }
        assert(d.3.1 == s0r[a_g].duration && d.3.1 > 0);
        assert(kr_new != kr_old);
        assert(s3.contains(kr_old) == sw0.contains(kr_old));
        let s4 = apply_one(s3, (s0r[a_g + 2].start, s0r[a_g + 2].weight, Option::Some(d.3.1)), eidx);
        assert(!s3.remove(kr_old).contains(kr_new));
        assert(s4.len() == s3.len());
        assert(m1.byweight@ == s4);
    } else {
        assert(m1.byweight@ == s3);
    }
    if vi == a_g {
        assert(sw0.contains(kv));
        assert(sw0.contains(kc_old) == sw0.contains(vkey));
    } else {
        assert(sw0.contains(kc_old));
        assert(sw0.contains(kv) == sw0.contains(vkey));
    }
}



impl Statemap {
    /// What one trim step leaves of the chosen entity: the least-weight
    /// key names it; a sole rectangle is simply dropped from the index,
    /// anything more is coalesced.
    pub open spec fn trimmed_entity_ok(m0: Statemap, m1: Statemap, k: StatemapRectWeight) -> bool {
        let e = k.entity as int;
        let s = m0.entities@[e].rects@;
        &&& (forall|e2: int|
            0 <= e2 < m0.entities@.len() && e2 != e ==> m1.entities@[e2] == m0.entities@[e2])
        &&& (s.len() == 1 ==> m1.entities@ == m0.entities@ && m1.byweight@ == m0.byweight@.remove(
            k,
        ))
        &&& (s.len() >= 2 ==> {
            let a = merge_index(s, idx_of_start(s, k.start));
            let e1 = m1.entities@[e];
            &&& is_coalesced(e1.rects@, s, a)
            &&& e1.start == m0.entities@[e].start
            &&& e1.state == m0.entities@[e].state
            &&& e1.tag == m0.entities@[e].tag
            &&& e1.same_identity(&m0.entities@[e])
            &&& (forall|st: int|
                0 <= st < m0.states@.len() ==> #[trigger] e1.state_total(st)
                    == m0.entities@[e].state_total(st))
            &&& e1.tag_total() == m0.entities@[e].tag_total()
        })
    }

    /// Pops the least-weight key and subsumes its rectangle into a
    /// neighbor (an entity down to one rectangle merely loses the key).
    pub fn trim(&mut self)
        requires
            old(self).wf(),
            old(self).byweight@.len() > 0,
        ensures
            final(self).wf(),
            final(self).byweight@.len() == old(self).byweight@.len() - 1,
            final(self).entities@.len() == old(self).entities@.len(),
            final(self).states == old(self).states,
            final(self).tags == old(self).tags,
            final(self).config == old(self).config,
            final(self).metadata == old(self).metadata,
            final(self).nrecs == old(self).nrecs,
            final(self).nevents == old(self).nevents,
            Self::trimmed_entity_ok(*old(self), *final(self), set_min(old(self).byweight@)),
            old(self).entry_matches(set_min(old(self).byweight@)),
            forall|k: StatemapRectWeight|
                k.entity != set_min(old(self).byweight@).entity ==> (final(self).byweight@.contains(k) <==> #[trigger] old(self).byweight@.contains(k)),
    {
        broadcast use vstd::set::group_set_axioms;

        let ne = self.entities.len();
        let remove_k = self.byweight.min();
        proof {
            lemma_set_min_unique(old(self).byweight@, remove_k);
            assert(old(self).byweight@.contains(remove_k));
            assert(old(self).entry_matches(remove_k));
            old(self).byweight.lemma_inv_facts();
        }
        self.byweight.remove(&remove_k);
        let eidx = remove_k.entity;
        let ghost s0r = old(self).entities@[eidx as int].rects@;
        let ghost vi = idx_of_start(s0r, remove_k.start);
        proof {
            assert(old(self).entity_ok(eidx as int));
            lemma_chain_starts_unique(s0r);
            assert(0 <= vi < s0r.len() && s0r[vi].start == remove_k.start);
            assert(remove_k == old(self).rect_key(eidx as int, vi));
        }
        let nrects = self.entities[eidx].rects.len();
        if nrects == 1 {
            proof {
                assert forall|e: int| 0 <= e < self.entities@.len() implies #[trigger] self.entity_ok(
                    e,
                ) by {
                    assert(old(self).entity_ok(e));
                }
                assert forall|k: StatemapRectWeight| self.byweight@.contains(
                    k,
                ) implies #[trigger] self.entry_matches(k) by {
                    assert(old(self).entry_matches(k));
                }
                assert forall|e: int, i: int|
                    0 <= e < self.entities@.len() && 0 <= i < self.entities@[e].rects@.len()
                        && self.entities@[e].rects@.len() >= 2 implies self.byweight@.contains(
                    #[trigger] self.rect_key(e, i),
                ) by {
                    assert(self.rect_key(e, i) == old(self).rect_key(e, i));
                    assert(old(self).byweight@.contains(old(self).rect_key(e, i)));
                    assert(e != eidx as int);
                    assert(old(self).rect_key(e, i).entity != eidx);
                }
            }
            return;
        }
        proof {
            assert forall|e: int| 0 <= e < self.entities@.len() implies #[trigger] self.entity_ok(
                e,
            ) by {
                assert(old(self).entity_ok(e));
            }
            assert forall|e: int, i: int|
                0 <= e < self.entities@.len() && 0 <= i < self.entities@[e].rects@.len()
                    && self.entities@[e].rects@.len() >= 2 && !(e == eidx as int
                    && self.entities@[e].rects@[i].start == remove_k.start) implies self.byweight@.contains(
                #[trigger] self.rect_key(e, i),
            ) by {
                assert(self.rect_key(e, i) == old(self).rect_key(e, i));
                assert(old(self).byweight@.contains(old(self).rect_key(e, i)));
                if e == eidx as int {
                    assert(s0r[i].start != remove_k.start);
                    assert(old(self).rect_key(e, i).start != remove_k.start);
                } else {
                    assert(old(self).rect_key(e, i).entity != eidx);
                }
            }
            assert forall|k: StatemapRectWeight| self.byweight@.contains(
                k,
            ) implies #[trigger] self.entry_matches(k) by {
                assert(old(self).entry_matches(k));
            }
        }
        let ghost popped = *self;
        self.coalesce_at(eidx, remove_k.start);
        proof {
            assert(popped.victim_key(eidx as int, remove_k.start) == remove_k);
            assert(!popped.byweight@.contains(remove_k));
            assert(self.byweight@.len() == popped.byweight@.len());
            popped.byweight.lemma_inv_facts();
            assert(popped.byweight@.len() == old(self).byweight@.len() - 1);
        }
    }

    /// Checks the global invariants as far as they can be checked from
    /// outside, the stronger full-tagging demand included, together with
    /// the weight-index correspondence: every rectangle but an entity's
    /// sole, trailing or next-to-trailing one is indexed, every key
    /// names a live rectangle, and no rectangle is indexed twice.
    pub open spec fn verify_spec(&self) -> bool {
        &&& (forall|e: int|
            0 <= e < self.entities@.len() ==> (#[trigger] self.entities@[e]).verify_spec())
        &&& (forall|e: int, i: int|
            0 <= e < self.entities@.len() && 0 <= i < self.entities@[e].rects@.len()
                ==> (self.byweight@.contains(#[trigger] self.rect_key(e, i))
                || self.entities@[e].rects@.len() == 1 || i >= self.entities@[e].rects@.len() - 2))
        &&& (forall|k: StatemapRectWeight| #[trigger]
            self.byweight@.contains(k) ==> (k.entity as int) < self.entities@.len() && has_start(
                self.entities@[k.entity as int].rects@,
                k.start,
            ))
        &&& (forall|k1: StatemapRectWeight, k2: StatemapRectWeight|
            self.byweight@.contains(k1) && self.byweight@.contains(k2) && k1.entity == k2.entity
                && k1.start == k2.start ==> k1 == k2)
    }

    pub fn verify(&self) -> (r: bool)
        requires
            self.byweight.inv(),
        ensures
            r == self.verify_spec(),
    {
        proof {
            self.byweight.lemma_inv_facts();
        }
        let ne = self.entities.len();
        let mut e: usize = 0;
        while e < ne
            invariant
                self.byweight.inv(),
                e <= ne,
                ne == self.entities@.len(),
                forall|j: int| 0 <= j < e ==> (#[trigger] self.entities@[j]).verify_spec(),
            decreases ne - e,
        {
            if !self.entities[e].verify() {
                return false;
            }
            e = e + 1;
        }
        let mut e: usize = 0;
        while e < ne
            invariant
                self.byweight.inv(),
                e <= ne,
                ne == self.entities@.len(),
                forall|j: int, i: int|
                    0 <= j < e && 0 <= i < self.entities@[j].rects@.len()
                        ==> (self.byweight@.contains(#[trigger] self.rect_key(j, i))
                        || self.entities@[j].rects@.len() == 1 || i >= self.entities@[j].rects@.len()
                        - 2),
            decreases ne - e,
        {
            let nr = self.entities[e].rects.len();
            let mut i: usize = 0;
            while i < nr
                invariant
                    self.byweight.inv(),
                    e < ne,
                    ne == self.entities@.len(),
                    i <= nr,
                    nr == self.entities@[e as int].rects@.len(),
                    forall|i2: int|
                        0 <= i2 < i ==> (self.byweight@.contains(
                            #[trigger] self.rect_key(e as int, i2),
                        ) || nr == 1 || i2 >= nr - 2),
                decreases nr - i,
            {
                let key = StatemapRectWeight {
                    weight: self.entities[e].rects[i].weight,
                    start: self.entities[e].rects[i].start,
                    entity: e,
                };
                if !(self.byweight.contains(&key) || nr == 1 || i >= nr - 2) {
                    proof {
                        assert(key == self.rect_key(e as int, i as int));
                    }
                    return false;
                }
                i = i + 1;
            }
            e = e + 1;
        }
        let nk = self.byweight.entries.len();
        let mut j: usize = 0;
        while j < nk
            invariant
                self.byweight.inv(),
                j <= nk,
                nk == self.byweight.entries@.len(),
                ne == self.entities@.len(),
                forall|j2: int|
                    0 <= j2 < j ==> ((#[trigger] self.byweight.entries@[j2]).entity as int) < ne
                        && has_start(
                        self.entities@[self.byweight.entries@[j2].entity as int].rects@,
                        self.byweight.entries@[j2].start,
                    ),
                forall|j1: int, j2: int|
                    0 <= j1 < j2 < self.byweight.entries@.len() && j2 < j
                        ==> !(self.byweight.entries@[j1].entity == self.byweight.entries@[j2].entity
                        && self.byweight.entries@[j1].start == self.byweight.entries@[j2].start),
            decreases nk - j,
        {
            let k = self.byweight.entries[j];
            if k.entity >= ne {
                proof {
                    assert(self.byweight@.contains(self.byweight.entries@[j as int]));
                }
                return false;
            }
            let nr = self.entities[k.entity].rects.len();
            let mut found = false;
            let mut i: usize = 0;
            while i < nr
                invariant
                    self.byweight.inv(),
                    ne == self.entities@.len(),
                    (k.entity as int) < ne,
                    i <= nr,
                    nr == self.entities@[k.entity as int].rects@.len(),
                    found ==> has_start(self.entities@[k.entity as int].rects@, k.start),
                    !found ==> forall|i2: int|
                        0 <= i2 < i ==> self.entities@[k.entity as int].rects@[i2].start != k.start,
                decreases nr - i,
            {
                if self.entities[k.entity].rects[i].start == k.start {
                    found = true;
                }
                i = i + 1;
            }
            if !found {
                proof {
                    assert(self.byweight@.contains(self.byweight.entries@[j as int]));
                    assert(!has_start(self.entities@[k.entity as int].rects@, k.start));
                }
                return false;
            }
            let mut j2: usize = 0;
            while j2 < j
                invariant
                    self.byweight.inv(),
                    j2 <= j < nk,
                    nk == self.byweight.entries@.len(),
                    k == self.byweight.entries@[j as int],
                    forall|p: int|
                        0 <= p < j2 ==> !((#[trigger] self.byweight.entries@[p]).entity == k.entity
                            && self.byweight.entries@[p].start == k.start),
                decreases j - j2,
            {
                let k2 = self.byweight.entries[j2];
                if k2.entity == k.entity && k2.start == k.start {
                    proof {
                        assert(self.byweight@.contains(self.byweight.entries@[j2 as int]));
                        assert(self.byweight@.contains(self.byweight.entries@[j as int]));
                        assert(crate::weight::wk_lt(
                            self.byweight.entries@[j2 as int],
                            self.byweight.entries@[j as int],
                        ));
                        assert(self.byweight.entries@[j2 as int]
                            != self.byweight.entries@[j as int]);
                    }
                    return false;
                }
                j2 = j2 + 1;
            }
            proof {
                assert forall|j1: int|
                    0 <= j1 < j implies !((#[trigger] self.byweight.entries@[j1]).entity
                    == self.byweight.entries@[j as int].entity && self.byweight.entries@[j1].start
                    == self.byweight.entries@[j as int].start) by {}
            }
            j = j + 1;
        }
        proof {
            assert forall|k: StatemapRectWeight| #[trigger]
                self.byweight@.contains(k) implies (k.entity as int) < self.entities@.len()
                && has_start(self.entities@[k.entity as int].rects@, k.start) by {
                let j3 = choose|j3: int|
                    0 <= j3 < self.byweight.entries@.len() && self.byweight.entries@[j3] == k;
            }
            assert forall|k1: StatemapRectWeight, k2: StatemapRectWeight|
                self.byweight@.contains(k1) && self.byweight@.contains(k2) && k1.entity
                == k2.entity && k1.start == k2.start implies k1 == k2 by {
                let j1 = choose|j3: int|
                    0 <= j3 < self.byweight.entries@.len() && self.byweight.entries@[j3] == k1;
                let j2 = choose|j3: int|
                    0 <= j3 < self.byweight.entries@.len() && self.byweight.entries@[j3] == k2;
                if j1 < j2 {
                    assert(!(self.byweight.entries@[j1].entity == self.byweight.entries@[j2].entity
                        && self.byweight.entries@[j1].start == self.byweight.entries@[j2].start)
                        || self.byweight.entries@[j1] == self.byweight.entries@[j2]);
                } else if j2 < j1 {
                    assert(!(self.byweight.entries@[j2].entity == self.byweight.entries@[j1].entity
                        && self.byweight.entries@[j2].start == self.byweight.entries@[j1].start)
                        || self.byweight.entries@[j2] == self.byweight.entries@[j1]);
                }
            }
        }
        true
    }
}


impl Statemap {
    /// Subsumes `victim` within the named entity, replays the weight
    /// edits, and reports whether the full checks still pass.
    pub fn subsume_apply_and_verify(&mut self, what: &str, victim: u64) -> (ok: bool)
        requires
            old(self).wf(),
            (match old(self).entity_named(what@) {
                Some(e) => old(self).entities@[e].rects@.len() >= 2 && has_start(
                    old(self).entities@[e].rects@,
                    victim,
                ),
                None => false,
            }),
        ensures
            final(self).wf(),
            ok == final(self).verify_spec(),
            final(self).entities@.len() == old(self).entities@.len(),
            final(self).states == old(self).states,
            final(self).tags == old(self).tags,
            final(self).config == old(self).config,
            final(self).nrecs == old(self).nrecs,
            final(self).nevents == old(self).nevents,
            ({
                let e = old(self).entity_named(what@).unwrap();
                let s = old(self).entities@[e].rects@;
                let a = merge_index(s, idx_of_start(s, victim));
                let e1 = final(self).entities@[e];
                &&& (forall|e2: int|
                    0 <= e2 < old(self).entities@.len() && e2 != e ==> final(self).entities@[e2]
                        == old(self).entities@[e2])
                &&& is_coalesced(e1.rects@, s, a)
                &&& (forall|st: int|
                    0 <= st < old(self).states@.len() ==> #[trigger] e1.state_total(st) == old(self).entities@[e].state_total(st))
                &&& e1.tag_total() == old(self).entities@[e].tag_total()
                &&& (forall|k: StatemapRectWeight|
                    (k.entity as int) != e ==> (final(self).byweight@.contains(k)
                        <==> #[trigger] old(self).byweight@.contains(k)))
            }),
    {
        let eidx = self.entity_lookup(what);
        proof {
            assert forall|e: int, i: int|
                0 <= e < self.entities@.len() && 0 <= i < self.entities@[e].rects@.len()
                    && self.entities@[e].rects@.len() >= 2 && !(e == eidx as int
                    && self.entities@[e].rects@[i].start == victim) implies self.byweight@.contains(
                #[trigger] self.rect_key(e, i),
            ) by {}
        }
        self.coalesce_at(eidx, victim);
        self.verify()
    }

    /// The rectangles of the named entity, ascending by start, each as
    /// `(start, duration, per-state durations)`; an unknown entity has
    /// none.
    pub fn get_rects(&self, entity: &str) -> (r: Vec<(u64, u64, Vec<u64>)>)
        requires
            self.names_unique(),
        ensures
            (match self.entity_named(entity@) {
                Some(e) => {
                    let rects = self.entities@[e].rects@;
                    &&& r@.len() == rects.len()
                    &&& (forall|i: int|
                        0 <= i < rects.len() ==> (#[trigger] r@[i]).0 == rects[i].start && r@[i].1
                            == rects[i].duration && r@[i].2@ == rects[i].states@)
                },
                None => r@.len() == 0,
            }),
    {
        let ne = self.entities.len();
        let mut e: usize = 0;
        while e < ne
            invariant
                self.names_unique(),
                e <= ne,
                ne == self.entities@.len(),
                forall|j: int| 0 <= j < e ==> self.entities@[j].name@ != entity@,
            decreases ne - e,
        {
            if crate::json::str_eq(self.entities[e].name.as_str(), entity) {
                proof {
                    let w = choose|w: int|
                        0 <= w < self.entities@.len() && self.entities@[w].name@ == entity@;
                }
                let mut r: Vec<(u64, u64, Vec<u64>)> = Vec::new();
                let nr = self.entities[e].rects.len();
                let mut i: usize = 0;
                while i < nr
                    invariant
                        self.names_unique(),
                        self.entities@[e as int].name@ == entity@,
                        e < ne,
                        ne == self.entities@.len(),
                        i <= nr,
                        nr == self.entities@[e as int].rects@.len(),
                        r@.len() == i,
                        forall|j: int|
                            0 <= j < i ==> (#[trigger] r@[j]).0
                                == self.entities@[e as int].rects@[j].start && r@[j].1
                                == self.entities@[e as int].rects@[j].duration && r@[j].2@
                                == self.entities@[e as int].rects@[j].states@,
                    decreases nr - i,
                {
                    let states = copy_u64s(&self.entities[e].rects[i].states);
                    r.push(
                        (self.entities[e].rects[i].start, self.entities[e].rects[i].duration, states),
                    );
                    i = i + 1;
                }
                proof {
                    let w = self.entity_named(entity@).unwrap();
                    if w != e {
                        if w < e {
                            assert(self.entities@[w].name@ != entity@);
                        } else {
                            assert(self.entities@[e as int].name@ != self.entities@[w].name@);
                        }
                    }
                }
                return r;
            }
            e = e + 1;
        }
        proof {
            assert(self.entity_named(entity@) is None);
        }
        Vec::new()
    }

    /// The tag list of the rectangle at `start` of the named entity.
    pub fn get_rect_tags(&self, entity: &str, start: u64) -> (r: Option<Vec<(usize, u64)>>)
        requires
            self.names_unique(),
            (match self.entity_named(entity@) {
                Some(e) => starts_unique(self.entities@[e].rects@),
                None => true,
            }),
        ensures
            (match self.entity_named(entity@) {
                Some(e) => {
                    let rects = self.entities@[e].rects@;
                    if has_start(rects, start) {
                        (match rects[idx_of_start(rects, start)].tags {
                            Some(tl) => r matches Some(v) && v@ == tl@,
                            None => r is None,
                        })
                    } else {
                        r is None
                    }
                },
                None => r is None,
            }),
    {
        let ne = self.entities.len();
        let mut e: usize = 0;
        while e < ne
            invariant
                self.names_unique(),
                e <= ne,
                ne == self.entities@.len(),
                (match self.entity_named(entity@) {
                    Some(w) => starts_unique(self.entities@[w].rects@),
                    None => true,
                }),
                forall|j: int| 0 <= j < e ==> self.entities@[j].name@ != entity@,
            decreases ne - e,
        {
            if crate::json::str_eq(self.entities[e].name.as_str(), entity) {
                proof {
                    let w = choose|w: int|
                        0 <= w < self.entities@.len() && self.entities@[w].name@ == entity@;
                    assert(self.entity_named(entity@) == Option::Some(w));
                    if w != e as int {
                        if w < e as int {
                            assert(self.entities@[w].name@ != entity@);
                        } else {
                            assert(self.entities@[e as int].name@ != self.entities@[w].name@);
                        }
                    }
                }
                let nr = self.entities[e].rects.len();
                let mut i: usize = 0;
                while i < nr
                    invariant
                        e < ne,
                        ne == self.entities@.len(),
                        self.entity_named(entity@) == Option::Some(e as int),
                        i <= nr,
                        nr == self.entities@[e as int].rects@.len(),
                        starts_unique(self.entities@[e as int].rects@),
                        forall|j: int|
                            0 <= j < i ==> self.entities@[e as int].rects@[j].start != start,
                    decreases nr - i,
                {
                    if self.entities[e].rects[i].start == start {
                        proof {
                            lemma_idx_of_start(self.entities@[e as int].rects@, start, i as int);
                        }
                        match &self.entities[e].rects[i].tags {
                            Some(tl) => {
                                let mut out: Vec<(usize, u64)> = Vec::new();
                                let nt = tl.len();
                                let mut j: usize = 0;
                                while j < nt
                                    invariant
                                        j <= nt,
                                        nt == tl@.len(),
                                        out@ == tl@.take(j as int),
                                    decreases nt - j,
                                {
                                    out.push(tl[j]);
                                    proof {
                                        assert(out@ =~= tl@.take(j as int + 1));
                                    }
                                    j = j + 1;
                                }
                                proof {
                                    assert(tl@.take(nt as int) =~= tl@);
                                }
                                return Some(out);
                            },
                            None => {
                                return None;
                            },
                        }
                    }
                    i = i + 1;
                }
                proof {
                    assert(!has_start(self.entities@[e as int].rects@, start));
                }
                return None;
            }
            e = e + 1;
        }
        proof {
            assert(self.entity_named(entity@) is None);
        }
        None
    }

    /// The description recorded for the named entity, if any.
    pub fn get_description(&self, entity: &str) -> (r: Option<String>)
        requires
            self.names_unique(),
        ensures
            (match self.entity_named(entity@) {
                Some(e) => (match self.entities@[e].description {
                    Some(d) => r matches Some(rd) && rd@ == d@,
                    None => r is None,
                }),
                None => r is None,
            }),
    {
        let ne = self.entities.len();
        let mut e: usize = 0;
        while e < ne
            invariant
                self.names_unique(),
                e <= ne,
                ne == self.entities@.len(),
                forall|j: int| 0 <= j < e ==> self.entities@[j].name@ != entity@,
            decreases ne - e,
        {
            if crate::json::str_eq(self.entities[e].name.as_str(), entity) {
                proof {
                    let w = choose|w: int|
                        0 <= w < self.entities@.len() && self.entities@[w].name@ == entity@;
                    if w != e as int {
                        if w < e as int {
                            assert(self.entities@[w].name@ != entity@);
                        } else {
                            assert(self.entities@[e as int].name@ != self.entities@[w].name@);
                        }
                    }
                }
                match &self.entities[e].description {
                    Some(d) => {
                        return Some(d.clone());
                    },
                    None => {
                        return None;
                    },
                }
            }
            e = e + 1;
        }
        proof {
            assert(self.entity_named(entity@) is None);
        }
        None
    }
}

/// Copies a duration vector.
fn copy_u64s(v: &Vec<u64>) -> (r: Vec<u64>)
    ensures
        r@ == v@,
{
    let mut r: Vec<u64> = Vec::new();
    let n = v.len();
    let mut i: usize = 0;
    while i < n
        invariant
            i <= n,
            n == v@.len(),
            r@ == v@.take(i as int),
        decreases n - i,
    {
        r.push(v[i]);
        proof {
            assert(r@ =~= v@.take(i as int + 1));
        }
        i = i + 1;
    }
    proof {
        assert(v@.take(n as int) =~= v@);
    }
    r
}


impl Statemap {
    /// What still holds once ingestion has been closed out: every
    /// entity's rectangle list keeps its invariants, and every key of
    /// the weight index still names a live rectangle start (weights in
    /// the index may be stale for the trailing rectangles, which are
    /// exempt from further coalescing).
    pub open spec fn closed_wf(&self) -> bool {
        &&& (forall|e: int| 0 <= e < self.entities@.len() ==> #[trigger] self.closed_entity_ok(e))
        &&& self.names_unique()
        &&& self.tags_ok()
        &&& self.byweight.inv()
        &&& (forall|k: StatemapRectWeight| #[trigger]
            self.byweight@.contains(k) ==> (k.entity as int) < self.entities@.len() && has_start(
                self.entities@[k.entity as int].rects@,
                k.start,
            ))
        &&& self.states@.len() <= u32::MAX
    }

    pub open spec fn closed_entity_ok(&self, e: int) -> bool {
        let ent = self.entities@[e];
        &&& ent.id == e
        &&& ent.rects_wf()
        &&& ent.last_ok()
        &&& (forall|i: int|
            0 <= i < ent.rects@.len() ==> (#[trigger] ent.rects@[i].states@.len())
                == self.states@.len())
    }
}


} // verus!
