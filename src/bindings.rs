//! The binding layer: the calls a module makes into the host, scoped to the
//! calling module's own bookkeeping (spawned entities, open queries).
use vstd::prelude::*;
use crate::value::{ComponentValue, lemma_same_value_equivalence, same_value};
use crate::world::{Components, ECSError, EntityData, World, data_error, apply_data, despawn_post, spawn_post};

verus! {

/// Which half of the runtime a module runs in.
#[derive(Clone, Copy, Debug, PartialEq, Eq, Structural)]
pub enum Side {
    Client,
    Server,
}

/// A failure returned to the calling module.
#[derive(Clone, Copy, Debug, PartialEq, Eq, Structural)]
pub enum BindingError {
    /// The world store refused the operation.
    Ecs(ECSError),
    /// The handle names no query that the caller has open.
    UnknownQueryHandle,
    /// The call exists only on the other side.
    Unsupported,
}

/// Text of `BindingError::Unsupported`.
pub const UNSUPPORTED_MESSAGE: &'static str =
    "This function is not supported on this side of the API. Please report this if you were able to access this function.";

/// Text of `BindingError::UnknownQueryHandle`.
pub const UNKNOWN_QUERY_MESSAGE: &'static str = "unknown query handle";

impl BindingError {
    pub open spec fn message_spec(self) -> Seq<char> {
        match self {
            BindingError::Ecs(e) => e.message_spec(),
            BindingError::UnknownQueryHandle => UNKNOWN_QUERY_MESSAGE@,
            BindingError::Unsupported => UNSUPPORTED_MESSAGE@,
        }
    }

    /// The human-readable text of the error, as the module sees it.
    pub fn message(&self) -> (r: &'static str)
        ensures
            r@ == self.message_spec(),
    {
        match self {
            BindingError::Ecs(e) => e.message(),
            BindingError::UnknownQueryHandle => UNKNOWN_QUERY_MESSAGE,
            BindingError::Unsupported => UNSUPPORTED_MESSAGE,
        }
    }
}

/// When a query reports entities.
#[derive(Clone, Copy, Debug, PartialEq, Eq, Structural)]
pub enum QueryEvent {
    /// Every matching entity, at each evaluation.
    Frame,
    /// Matching entities spawned since the previous evaluation.
    Spawn,
    /// Entities that matched at the previous evaluation and are gone now.
    Despawn,
    /// Matching entities that are new or whose fetched values differ from
    /// those the previous evaluation saw.
    Changed,
}

/// Which entities a query selects: those holding every fetched and required
/// component and none of the excluded ones. The values of the fetched
/// components are returned.
#[derive(Debug)]
pub struct QueryBuild {
    pub components: Vec<u32>,
    pub required: Vec<u32>,
    pub exclude: Vec<u32>,
}

/// An open query and its iteration state.
#[derive(Debug)]
pub struct QueryState {
    pub handle: u64,
    pub query: QueryBuild,
    pub event: QueryEvent,
    /// Entity ids below this were seen by an earlier evaluation.
    pub seen: u64,
    /// Entities that matched at the previous evaluation.
    pub last: Vec<u64>,
    /// For a `Changed` query: the matching entities and their fetched values
    /// at the previous evaluation.
    pub snapshot: Vec<QueryRow>,
}

/// One row of a query's result: an entity and its fetched values.
pub type QueryRow = (u64, Vec<ComponentValue>);

pub open spec fn has_all(row: Components, cs: Seq<u32>) -> bool {
    forall|k: int| 0 <= k < cs.len() ==> (#[trigger] cs[k]) < row.len() && row[cs[k] as int] is Some
}

pub open spec fn has_none(row: Components, cs: Seq<u32>) -> bool {
    forall|k: int| 0 <= k < cs.len() ==> !((#[trigger] cs[k]) < row.len() && row[cs[k] as int] is Some)
}

pub open spec fn row_matches(row: Components, q: &QueryBuild) -> bool {
    &&& has_all(row, q.components@)
    &&& has_all(row, q.required@)
    &&& has_none(row, q.exclude@)
}

/// Ids in `lo..n` of the live entities of `slots` that `q` selects, in
/// increasing order.
pub open spec fn matching_ids(slots: Seq<Option<Components>>, q: &QueryBuild, lo: nat, n: nat) -> Seq<u64>
    decreases n,
{
    if n <= lo {
        Seq::empty()
    } else {
        let rest = matching_ids(slots, q, lo, (n - 1) as nat);
        let i = n - 1;
        if slots[i] is Some && row_matches(slots[i]->0, q) {
            rest.push(i as u64)
        } else {
            rest
        }
    }
}

/// The ids of `s` that no longer live in `w`, in their order in `s`.
pub open spec fn gone_ids(w: World, s: Seq<u64>) -> Seq<u64>
    decreases s.len(),
{
    if s.len() == 0 {
        Seq::empty()
    } else {
        let rest = gone_ids(w, s.drop_last());
        if w.live(s.last()) {
            rest
        } else {
            rest.push(s.last())
        }
    }
}

/// `s` without any occurrence of `x`.
pub open spec fn without(s: Seq<u64>, x: u64) -> Seq<u64>
    decreases s.len(),
{
    if s.len() == 0 {
        Seq::empty()
    } else {
        let rest = without(s.drop_last(), x);
        if s.last() == x {
            rest
        } else {
            rest.push(s.last())
        }
    }
}

/// What `without` keeps was in `s` and is not `x`.
pub proof fn lemma_without_subset(s: Seq<u64>, x: u64)
    ensures
        forall|k: int|
            0 <= k < without(s, x).len() ==> s.contains(#[trigger] without(s, x)[k]) && without(s, x)[k] != x,
    decreases s.len(),
{
    if s.len() > 0 {
        let rest = s.drop_last();
        lemma_without_subset(rest, x);
        assert forall|k: int| 0 <= k < without(s, x).len() implies s.contains(#[trigger] without(s, x)[k]) && without(
            s,
            x,
        )[k] != x by {
            if k < without(rest, x).len() {
                assert(without(s, x)[k] == without(rest, x)[k]);
                let j = choose|j: int| 0 <= j < rest.len() && rest[j] == without(rest, x)[k];
                assert(s[j] == rest[j]);
            } else {
                assert(without(s, x)[k] == s.last());
                assert(s[s.len() - 1] == s.last());
            }
        }
    }
}

/// `rows` lists the entities `ids`, each with the values of the components
/// `cs` as `w` holds them.
pub open spec fn rows_hold(w: World, cs: Seq<u32>, ids: Seq<u64>, rows: Seq<QueryRow>) -> bool {
    &&& rows.len() == ids.len()
    &&& forall|i: int|
        0 <= i < rows.len() ==> {
            &&& (#[trigger] rows[i]).0 == ids[i]
            &&& rows[i].1@.len() == cs.len()
            &&& forall|j: int|
                0 <= j < cs.len() ==> same_value(#[trigger] rows[i].1@[j], w.value_of(ids[i], cs[j])->0)
        }
}

/// `rows` lists the entities `ids` without values.
pub open spec fn rows_hold_bare(ids: Seq<u64>, rows: Seq<QueryRow>) -> bool {
    &&& rows.len() == ids.len()
    &&& forall|i: int| 0 <= i < rows.len() ==> (#[trigger] rows[i]).0 == ids[i] && rows[i].1@.len() == 0
}

/// The components whose values an evaluation of `st` returns: none for
/// entities that are gone.
pub open spec fn reported_components(st: &QueryState) -> Seq<u32> {
    match st.event {
        QueryEvent::Despawn => Seq::empty(),
        _ => st.query.components@,
    }
}

/// What an evaluation of `st` against `w` reports.
pub open spec fn reported_ids(w: World, st: &QueryState) -> Seq<u64> {
    match st.event {
        QueryEvent::Frame => matching_ids(w.slots(), &st.query, 0, w.slots().len()),
        QueryEvent::Spawn => matching_ids(w.slots(), &st.query, st.seen as nat, w.slots().len()),
        QueryEvent::Despawn => gone_ids(w, st.last@),
        QueryEvent::Changed => changed_ids(w, &st.query, st.snapshot@, w.slots().len()),
    }
}

/// `snap` holds entity `id` with the values of the components `cs` that `w`
/// holds now.
pub open spec fn seen_same(w: World, cs: Seq<u32>, snap: Seq<QueryRow>, id: u64) -> bool {
    exists|k: int|
        0 <= k < snap.len() && (#[trigger] snap[k]).0 == id && snap[k].1@.len() == cs.len() && forall|j: int|
            0 <= j < cs.len() ==> same_value(#[trigger] snap[k].1@[j], w.value_of(id, cs[j])->0)
}

/// Ids below `n` of the entities `q` selects that `snap` does not hold as
/// they are now, in increasing order.
pub open spec fn changed_ids(w: World, q: &QueryBuild, snap: Seq<QueryRow>, n: nat) -> Seq<u64>
    decreases n,
{
    if n == 0 {
        Seq::empty()
    } else {
        let rest = changed_ids(w, q, snap, (n - 1) as nat);
        let i = n - 1;
        if w.slots()[i] is Some && row_matches(w.slots()[i]->0, q) && !seen_same(w, q.components@, snap, i as u64) {
            rest.push(i as u64)
        } else {
            rest
        }
    }
}

/// The bookkeeping of one module's bindings.
#[derive(Debug)]
pub struct BindingsBase {
    /// Entities this module spawned and has not despawned.
    pub spawned_entities: Vec<u64>,
    /// Open queries, by increasing handle.
    pub query_states: Vec<QueryState>,
    /// The handle the next query will get.
    pub next_query: u64,
}

impl BindingsBase {
    pub open spec fn wf(&self) -> bool {
        &&& forall|i: int|
            0 <= i < self.query_states@.len() ==> (#[trigger] self.query_states@[i]).handle < self.next_query
        &&& forall|i: int, j: int|
            0 <= i < j < self.query_states@.len() ==> (#[trigger] self.query_states@[i]).handle
                < (#[trigger] self.query_states@[j]).handle
        &&& self.spawned_entities@.no_duplicates()
    }

    pub open spec fn owns_query(&self, h: u64) -> bool {
        exists|i: int| 0 <= i < self.query_states@.len() && (#[trigger] self.query_states@[i]).handle == h
    }

    /// Position of the open query with handle `h`.
    pub open spec fn query_index(&self, h: u64) -> int {
        choose|i: int| 0 <= i < self.query_states@.len() && (#[trigger] self.query_states@[i]).handle == h
    }

    pub fn new() -> (r: BindingsBase)
        ensures
            r.wf(),
            r.spawned_entities@.len() == 0,
            r.query_states@.len() == 0,
            r.next_query == 0,
    {
        BindingsBase { spawned_entities: Vec::new(), query_states: Vec::new(), next_query: 0 }
    }
}

/// The bindings of one module: its side and its bookkeeping. The world is
/// handed to each call and held no longer than the call.
#[derive(Debug)]
pub struct Bindings {
    pub side: Side,
    pub base: BindingsBase,
    /// Server-only requests accepted from the module, oldest first, for the
    /// host to hand to the physics engine.
    pub physics: Vec<PhysicsCommand>,
}

/// A vector of three single-precision floats, each held as its IEEE-754 bit
/// pattern.
#[derive(Clone, Copy, Debug, PartialEq, Eq, Structural)]
pub struct Vec3Bits {
    pub x: u32,
    pub y: u32,
    pub z: u32,
}

/// A physics request from a server-side module.
#[derive(Debug, PartialEq, Eq)]
pub enum PhysicsCommand {
    ApplyForce { entities: Vec<u64>, force: Vec3Bits },
    SetGravity(Vec3Bits),
    Freeze(u64),
    Unfreeze(u64),
    StopMotor(u64),
}

impl Bindings {
    pub open spec fn wf(&self) -> bool {
        self.base.wf()
    }

    pub fn new(side: Side) -> (r: Bindings)
        ensures
            r.wf(),
            r.side == side,
            r.base.spawned_entities@.len() == 0,
            r.base.query_states@.len() == 0,
            r.base.next_query == 0,
            r.physics@.len() == 0,
    {
        Bindings { side, base: BindingsBase::new(), physics: Vec::new() }
    }

    /// Spawns an entity for the calling module and records it as the
    /// module's own.
    pub fn spawn(&mut self, world: &mut World, data: EntityData) -> (r: Result<u64, BindingError>)
        requires
            old(world).wf(),
            old(self).wf(),
        ensures
            final(world).wf(),
            final(self).wf(),
            final(self).side == old(self).side,
            final(self).physics == old(self).physics,
            final(self).base.query_states == old(self).base.query_states,
            final(self).base.next_query == old(self).base.next_query,
            final(world).same_frame(old(world)),
            spawn_post(*old(world), data@, *final(world), lower(r)),
            match r {
                Ok(id) => final(self).base.spawned_entities@ == if old(self).base.spawned_entities@.contains(id) {
                    old(self).base.spawned_entities@
                } else {
                    old(self).base.spawned_entities@.push(id)
                },
                Err(_) => final(self).base.spawned_entities@ == old(self).base.spawned_entities@,
            },
    {
        let r = world.spawn(data);
        match r {
            Ok(id) => {
                if !contains_id(&self.base.spawned_entities, id) {
                    self.base.spawned_entities.push(id);
                }
                Ok(id)
            },
            Err(e) => Err(BindingError::Ecs(e)),
        }
    }

    /// Despawns an entity; true when it lived. Never fails: the id leaves the
    /// module's spawned set either way.
    pub fn despawn(&mut self, world: &mut World, id: u64) -> (r: bool)
        requires
            old(world).wf(),
            old(self).wf(),
        ensures
            final(world).wf(),
            final(self).wf(),
            final(self).side == old(self).side,
            final(self).physics == old(self).physics,
            final(self).base.query_states == old(self).base.query_states,
            final(self).base.next_query == old(self).base.next_query,
            final(world).same_frame(old(world)),
            despawn_post(*old(world), id, *final(world), r),
            final(self).base.spawned_entities@ == without(old(self).base.spawned_entities@, id),
    {
        let r = world.despawn(id);
        let kept = remove_id(&self.base.spawned_entities, id);
        proof {
            lemma_without_no_duplicates(self.base.spawned_entities@, id);
        }
        self.base.spawned_entities = kept;
        r
    }

    /// The value of a component, or `None` where the entity or the value is
    /// absent.
    pub fn get_component(&self, world: &World, id: u64, c: u32) -> (r: Option<ComponentValue>)
        requires
            world.wf(),
        ensures
            match world.value_of(id, c) {
                Some(v) => r is Some && same_value(r->0, v),
                None => r is None,
            },
    {
        match world.get(id, c) {
            Ok(v) => Some(v),
            Err(_) => None,
        }
    }

    pub fn add_component(&self, world: &mut World, id: u64, c: u32, value: ComponentValue) -> (r: Result<(), BindingError>)
        requires
            old(world).wf(),
        ensures
            final(world).wf(),
            final(world).same_frame(old(world)),
            r == (if !old(world).live(id) {
                Err(BindingError::Ecs(ECSError::NoSuchEntity))
            } else {
                match crate::world::entry_error(old(world).types(), (c, value)) {
                    Some(e) => Err(BindingError::Ecs(e)),
                    None => Ok(()),
                }
            }),
            r is Ok ==> final(world).slots() == old(world).slots().update(
                id as int,
                Some(old(world).row(id).update(c as int, Some(value))),
            ),
            r is Err ==> final(world).slots() == old(world).slots(),
    {
        lift(world.add_component(id, c, value))
    }

    pub fn add_components(&self, world: &mut World, id: u64, data: EntityData) -> (r: Result<(), BindingError>)
        requires
            old(world).wf(),
        ensures
            final(world).wf(),
            final(world).same_frame(old(world)),
            r == (if !old(world).live(id) {
                Err(BindingError::Ecs(ECSError::NoSuchEntity))
            } else {
                match data_error(old(world).types(), data@) {
                    Some(e) => Err(BindingError::Ecs(e)),
                    None => Ok(()),
                }
            }),
            r is Ok ==> final(world).slots() == old(world).slots().update(
                id as int,
                Some(apply_data(old(world).row(id), data@)),
            ),
            r is Err ==> final(world).slots() == old(world).slots(),
    {
        lift(world.add_components(id, data))
    }

    pub fn set_component(&self, world: &mut World, id: u64, c: u32, value: ComponentValue) -> (r: Result<(), BindingError>)
        requires
            old(world).wf(),
        ensures
            final(world).wf(),
            final(world).same_frame(old(world)),
            r == (if !old(world).live(id) {
                Err(BindingError::Ecs(ECSError::NoSuchEntity))
            } else {
                match crate::world::entry_error(old(world).types(), (c, value)) {
                    Some(e) => Err(BindingError::Ecs(e)),
                    None => if old(world).value_of(id, c) is None {
                        Err(BindingError::Ecs(ECSError::EntityDoesntHaveComponent))
                    } else {
                        Ok(())
                    },
                }
            }),
            r is Ok ==> final(world).slots() == old(world).slots().update(
                id as int,
                Some(old(world).row(id).update(c as int, Some(value))),
            ),
            r is Err ==> final(world).slots() == old(world).slots(),
    {
        lift(world.set(id, c, value))
    }

    pub fn set_components(&self, world: &mut World, id: u64, data: EntityData) -> (r: Result<(), BindingError>)
        requires
            old(world).wf(),
        ensures
            final(world).wf(),
            final(world).same_frame(old(world)),
            r == (if !old(world).live(id) {
                Err(BindingError::Ecs(ECSError::NoSuchEntity))
            } else {
                match data_error(old(world).types(), data@) {
                    Some(e) => Err(BindingError::Ecs(e)),
                    None => if exists|k: int|
                        0 <= k < data@.len() && (#[trigger] old(world).value_of(id, data@[k].0)) is None {
                        Err(BindingError::Ecs(ECSError::EntityDoesntHaveComponent))
                    } else {
                        Ok(())
                    },
                }
            }),
            r is Ok ==> final(world).slots() == old(world).slots().update(
                id as int,
                Some(apply_data(old(world).row(id), data@)),
            ),
            r is Err ==> final(world).slots() == old(world).slots(),
    {
        lift(world.set_components(id, data))
    }

    pub fn has_component(&self, world: &World, id: u64, c: u32) -> (r: bool)
        requires
            world.wf(),
        ensures
            r == world.value_of(id, c) is Some,
    {
        world.has_component(id, c)
    }

    pub fn has_components(&self, world: &World, id: u64, cs: &Vec<u32>) -> (r: bool)
        requires
            world.wf(),
        ensures
            r == forall|k: int| 0 <= k < cs@.len() ==> (#[trigger] world.value_of(id, cs@[k])) is Some,
    {
        world.has_components(id, cs)
    }

    pub fn remove_component(&self, world: &mut World, id: u64, c: u32) -> (r: Result<(), BindingError>)
        requires
            old(world).wf(),
        ensures
            final(world).wf(),
            final(world).same_frame(old(world)),
            r == (if !old(world).live(id) {
                Err(BindingError::Ecs(ECSError::NoSuchEntity))
            } else if c >= old(world).types().len() {
                Err(BindingError::Ecs(ECSError::UnknownComponent))
            } else {
                Ok(())
            }),
            r is Ok ==> final(world).slots() == old(world).slots().update(
                id as int,
                Some(old(world).row(id).update(c as int, None)),
            ),
            r is Err ==> final(world).slots() == old(world).slots(),
    {
        lift(world.remove_component(id, c))
    }

    pub fn remove_components(&self, world: &mut World, id: u64, cs: &Vec<u32>) -> (r: Result<(), BindingError>)
        requires
            old(world).wf(),
        ensures
            final(world).wf(),
            final(world).same_frame(old(world)),
            r == (if !old(world).live(id) {
                Err(BindingError::Ecs(ECSError::NoSuchEntity))
            } else if exists|k: int| 0 <= k < cs@.len() && (#[trigger] cs@[k]) >= old(world).types().len() {
                Err(BindingError::Ecs(ECSError::UnknownComponent))
            } else {
                Ok(())
            }),
            r is Ok ==> final(world).slots() == old(world).slots().update(
                id as int,
                Some(crate::world::clear_all(old(world).row(id), cs@)),
            ),
            r is Err ==> final(world).slots() == old(world).slots(),
    {
        lift(world.remove_components(id, cs))
    }

    /// Opens a query; its handle is greater than every handle this module
    /// was given before.
    pub fn query(&mut self, query: QueryBuild, event: QueryEvent) -> (r: u64)
        requires
            old(self).wf(),
            old(self).base.next_query < u64::MAX,
        ensures
            final(self).wf(),
            final(self).side == old(self).side,
            final(self).physics == old(self).physics,
            final(self).base.spawned_entities == old(self).base.spawned_entities,
            r == old(self).base.next_query,
            final(self).base.next_query == r + 1,
            final(self).base.query_states@.len() == old(self).base.query_states@.len() + 1,
            final(self).base.query_states@.drop_last() == old(self).base.query_states@,
            final(self).base.query_states@.last().handle == r,
            final(self).base.query_states@.last().query == query,
            final(self).base.query_states@.last().event == event,
            final(self).base.query_states@.last().seen == 0,
            final(self).base.query_states@.last().last@.len() == 0,
            final(self).base.query_states@.last().snapshot@.len() == 0,
    {
        let h = self.base.next_query;
        self.base.query_states.push(
            QueryState { handle: h, query, event, seen: 0, last: Vec::new(), snapshot: Vec::new() },
        );
        self.base.next_query = h + 1;
        assert(self.base.query_states@.drop_last() =~= old(self).base.query_states@);
        h
    }

    /// Evaluates the open query `handle` against `world`.
    pub fn query_eval(&mut self, world: &World, handle: u64) -> (r: Result<Vec<QueryRow>, BindingError>)
        requires
            world.wf(),
            old(self).wf(),
        ensures
            final(self).wf(),
            final(self).side == old(self).side,
            final(self).physics == old(self).physics,
            final(self).base.spawned_entities == old(self).base.spawned_entities,
            final(self).base.next_query == old(self).base.next_query,
            final(self).base.query_states@.len() == old(self).base.query_states@.len(),
            !old(self).base.owns_query(handle) ==> r == Err::<Vec<QueryRow>, BindingError>(
                BindingError::UnknownQueryHandle,
            ) && final(self).base.query_states == old(self).base.query_states,
            old(self).base.owns_query(handle) ==> {
                let i = old(self).base.query_index(handle);
                let st = old(self).base.query_states@[i];
                let nst = final(self).base.query_states@[i];
                &&& r is Ok
                &&& rows_hold(*world, reported_components(&st), reported_ids(*world, &st), r->Ok_0@)
                &&& nst.handle == st.handle
                &&& nst.query == st.query
                &&& nst.event == st.event
                &&& nst.seen == world.slots().len()
                &&& nst.last@ == matching_ids(world.slots(), &st.query, 0, world.slots().len())
                &&& if st.event == QueryEvent::Changed {
                    rows_hold(
                        *world,
                        st.query.components@,
                        matching_ids(world.slots(), &st.query, 0, world.slots().len()),
                        nst.snapshot@,
                    )
                } else {
                    nst.snapshot == st.snapshot
                }
                &&& forall|j: int|
                    0 <= j < old(self).base.query_states@.len() && j != i ==> final(self).base.query_states@[j]
                        == old(self).base.query_states@[j]
            },
    {
        let found = find_query(&self.base.query_states, handle);
        let i = match found {
            None => {
                return Err(BindingError::UnknownQueryHandle);
            },
            Some(i) => i,
        };
        proof {
            let qs = self.base.query_states@;
            let c = self.base.query_index(handle);
            if c != i as int {
                if c < i {
                    assert(qs[c].handle < qs[i as int].handle);
                } else {
                    assert(qs[i as int].handle < qs[c].handle);
                }
            }
        }
        let n = world.slot_count();
        let all = collect_matching(world, &self.base.query_states[i].query, 0);
        let q = &self.base.query_states[i].query;
        let rows = match self.base.query_states[i].event {
            QueryEvent::Frame => {
                let ids = collect_matching(world, q, 0);
                proof { lemma_matching_ids_sound(world.slots(), q, 0, world.slots().len()); }
                fetch_rows(world, &q.components, ids, Ghost(q))
            },
            QueryEvent::Spawn => {
                let ids = collect_matching(world, q, self.base.query_states[i].seen);
                proof {
                    lemma_matching_ids_sound(world.slots(), q, self.base.query_states[i as int].seen as nat, world.slots().len());
                }
                fetch_rows(world, &q.components, ids, Ghost(q))
            },
            QueryEvent::Despawn => {
                let ids = collect_gone(world, &self.base.query_states[i].last);
                bare_rows(ids)
            },
            QueryEvent::Changed => {
                let ids = collect_changed(world, q, &self.base.query_states[i].snapshot);
                proof { lemma_changed_ids_sound(*world, q, self.base.query_states[i as int].snapshot@, world.slots().len()); }
                fetch_rows(world, &q.components, ids, Ghost(q))
            },
        };
        let snapshot = match self.base.query_states[i].event {
            QueryEvent::Changed => {
                let ids = collect_matching(world, q, 0);
                proof { lemma_matching_ids_sound(world.slots(), q, 0, world.slots().len()); }
                Some(fetch_rows(world, &q.components, ids, Ghost(q)))
            },
            _ => None,
        };
        assert(n as u64 == n);
        let st = &mut self.base.query_states[i];
        st.seen = n as u64;
        st.last = all;
        if let Some(rows_now) = snapshot {
            st.snapshot = rows_now;
        }
        Ok(rows)
    }

    /// Queues an event for the modules subscribed to `name`.
    pub fn send(&self, world: &mut World, name: String, data: EntityData) -> (r: Result<(), BindingError>)
        requires
            old(world).wf(),
        ensures
            final(world).wf(),
            final(world).types() == old(world).types(),
            final(world).names() == old(world).names(),
            final(world).slots() == old(world).slots(),
            match data_error(old(world).types(), data@) {
                Some(e) => r == Err::<(), BindingError>(BindingError::Ecs(e)) && final(world).events()
                    == old(world).events(),
                None => r is Ok && final(world).events() == old(world).events().push((name@, data@)),
            },
    {
        lift(world.send_event(name, data))
    }
}

/// Position of the query with handle `h`.
fn find_query(qs: &Vec<QueryState>, h: u64) -> (r: Option<usize>)
    ensures
        match r {
            Some(i) => i < qs@.len() && qs@[i as int].handle == h,
            None => forall|j: int| 0 <= j < qs@.len() ==> (#[trigger] qs@[j]).handle != h,
        },
{
    let mut i: usize = 0;
    while i < qs.len()
        invariant
            i <= qs@.len(),
            forall|j: int| 0 <= j < i ==> (#[trigger] qs@[j]).handle != h,
        decreases qs@.len() - i,
    {
        if qs[i].handle == h {
            return Some(i);
        }
        i = i + 1;
    }
    None
}

/// Whether the live entity `id` is selected by `q`.
fn entity_matches(world: &World, id: u64, q: &QueryBuild) -> (r: bool)
    requires
        world.wf(),
    ensures
        r == (world.live(id) && row_matches(world.row(id), q)),
{
    if !world.is_live(id) {
        return false;
    }
    let ghost row = world.row(id);
    assert(row.len() == world.types().len());
    let a = world.has_components(id, &q.components);
    let b = world.has_components(id, &q.required);
    let c = lacks_all(world, id, &q.exclude);
    proof {
        if a {
            assert forall|k: int| 0 <= k < q.components@.len() implies (#[trigger] q.components@[k]) < row.len()
                && row[q.components@[k] as int] is Some by {
                assert(world.value_of(id, q.components@[k]) is Some);
            }
        } else {
            let k = choose|k: int| 0 <= k < q.components@.len() && !(#[trigger] world.value_of(id, q.components@[k]) is Some);
            assert(!(q.components@[k] < row.len() && row[q.components@[k] as int] is Some));
        }
        if b {
            assert forall|k: int| 0 <= k < q.required@.len() implies (#[trigger] q.required@[k]) < row.len()
                && row[q.required@[k] as int] is Some by {
                assert(world.value_of(id, q.required@[k]) is Some);
            }
        } else {
            let k = choose|k: int| 0 <= k < q.required@.len() && !(#[trigger] world.value_of(id, q.required@[k]) is Some);
            assert(!(q.required@[k] < row.len() && row[q.required@[k] as int] is Some));
        }
        if c {
            assert forall|k: int| 0 <= k < q.exclude@.len() implies !((#[trigger] q.exclude@[k]) < row.len()
                && row[q.exclude@[k] as int] is Some) by {
                assert(world.value_of(id, q.exclude@[k]) is None);
            }
        } else {
            let k = choose|k: int| 0 <= k < q.exclude@.len() && !(#[trigger] world.value_of(id, q.exclude@[k]) is None);
            assert(q.exclude@[k] < row.len() && row[q.exclude@[k] as int] is Some);
        }
    }
    a && b && c
}

/// Whether entity `id` holds none of the listed components.
fn lacks_all(world: &World, id: u64, cs: &Vec<u32>) -> (r: bool)
    requires
        world.wf(),
    ensures
        r == forall|k: int| 0 <= k < cs@.len() ==> (#[trigger] world.value_of(id, cs@[k])) is None,
{
    let mut i: usize = 0;
    while i < cs.len()
        invariant
            world.wf(),
            i <= cs@.len(),
            forall|k: int| 0 <= k < i ==> (#[trigger] world.value_of(id, cs@[k])) is None,
        decreases cs@.len() - i,
    {
        if world.has_component(id, cs[i]) {
            return false;
        }
        i = i + 1;
    }
    true
}

/// Ids from `lo` on of the entities `q` selects.
fn collect_matching(world: &World, q: &QueryBuild, lo: u64) -> (r: Vec<u64>)
    requires
        world.wf(),
    ensures
        r@ == matching_ids(world.slots(), q, lo as nat, world.slots().len()),
{
    let n = world.slot_count();
    let mut r: Vec<u64> = Vec::new();
    if lo >= n as u64 {
        return r;
    }
    let mut i: usize = lo as usize;
    while i < n
        invariant
            world.wf(),
            n == world.slots().len(),
            lo <= i <= n,
            r@ == matching_ids(world.slots(), q, lo as nat, i as nat),
        decreases n - i,
    {
        if entity_matches(world, i as u64, q) {
            r.push(i as u64);
        }
        i = i + 1;
    }
    r
}

/// The ids of `s` that no longer live.
fn collect_gone(world: &World, s: &Vec<u64>) -> (r: Vec<u64>)
    ensures
        r@ == gone_ids(*world, s@),
{
    let mut r: Vec<u64> = Vec::new();
    let mut i: usize = 0;
    while i < s.len()
        invariant
            i <= s@.len(),
            r@ == gone_ids(*world, s@.subrange(0, i as int)),
        decreases s@.len() - i,
    {
        assert(s@.subrange(0, i + 1).drop_last() =~= s@.subrange(0, i as int));
        if !world.is_live(s[i]) {
            r.push(s[i]);
        }
        i = i + 1;
    }
    assert(s@.subrange(0, s@.len() as int) =~= s@);
    r
}

/// Every id that `matching_ids` lists lies in range, lives, and is selected.
pub proof fn lemma_matching_ids_sound(slots: Seq<Option<Components>>, q: &QueryBuild, lo: nat, n: nat)
    requires
        n <= u64::MAX,
    ensures
        forall|k: int|
            0 <= k < matching_ids(slots, q, lo, n).len() ==> {
                let id = #[trigger] matching_ids(slots, q, lo, n)[k];
                &&& lo <= id < n
                &&& slots[id as int] is Some
                &&& row_matches(slots[id as int]->0, q)
            },
    decreases n,
{
    if n > lo {
        lemma_matching_ids_sound(slots, q, lo, (n - 1) as nat);
    }
}

/// Every id that `changed_ids` lists lies in range, lives, and is selected.
pub proof fn lemma_changed_ids_sound(w: World, q: &QueryBuild, snap: Seq<QueryRow>, n: nat)
    requires
        n <= u64::MAX,
    ensures
        forall|k: int|
            0 <= k < changed_ids(w, q, snap, n).len() ==> {
                let id = #[trigger] changed_ids(w, q, snap, n)[k];
                &&& id < n
                &&& w.slots()[id as int] is Some
                &&& row_matches(w.slots()[id as int]->0, q)
            },
    decreases n,
{
    if n > 0 {
        lemma_changed_ids_sound(w, q, snap, (n - 1) as nat);
    }
}

/// Whether `snap` holds entity `id` with the values `current`, which are
/// the values of the components `cs` that the world holds now.
fn find_same(snap: &Vec<QueryRow>, id: u64, current: &Vec<ComponentValue>, Ghost(w): Ghost<World>, Ghost(cs): Ghost<Seq<u32>>) -> (r: bool)
    requires
        current@.len() == cs.len(),
        forall|j: int| 0 <= j < cs.len() ==> same_value(#[trigger] current@[j], w.value_of(id, cs[j])->0),
    ensures
        r == seen_same(w, cs, snap@, id),
{
    let mut k: usize = 0;
    while k < snap.len()
        invariant
            current@.len() == cs.len(),
            forall|j: int| 0 <= j < cs.len() ==> same_value(#[trigger] current@[j], w.value_of(id, cs[j])->0),
            k <= snap@.len(),
            forall|m: int|
                0 <= m < k ==> !((#[trigger] snap@[m]).0 == id && snap@[m].1@.len() == cs.len() && forall|j: int|
                    0 <= j < cs.len() ==> same_value(#[trigger] snap@[m].1@[j], w.value_of(id, cs[j])->0)),
        decreases snap@.len() - k,
    {
        if snap[k].0 == id && same_values(&snap[k].1, current) {
            proof {
                assert forall|j: int| 0 <= j < cs.len() implies same_value(
                    #[trigger] snap@[k as int].1@[j],
                    w.value_of(id, cs[j])->0,
                ) by {
                    lemma_same_value_equivalence(snap@[k as int].1@[j], current@[j], w.value_of(id, cs[j])->0);
                }
            }
            return true;
        }
        proof {
            if snap@[k as int].0 == id && snap@[k as int].1@.len() == cs.len() {
                let j = choose|j: int|
                    0 <= j < current@.len() && !same_value(#[trigger] snap@[k as int].1@[j], current@[j]);
                lemma_same_value_equivalence(snap@[k as int].1@[j], w.value_of(id, cs[j])->0, current@[j]);
                lemma_same_value_equivalence(current@[j], w.value_of(id, cs[j])->0, snap@[k as int].1@[j]);
            }
        }
        k = k + 1;
    }
    false
}

/// Whether two lists hold the same values, in order.
fn same_values(a: &Vec<ComponentValue>, b: &Vec<ComponentValue>) -> (r: bool)
    ensures
        r == (a@.len() == b@.len() && forall|j: int| 0 <= j < a@.len() ==> same_value(#[trigger] a@[j], b@[j])),
{
    if a.len() != b.len() {
        return false;
    }
    let mut j: usize = 0;
    while j < a.len()
        invariant
            a@.len() == b@.len(),
            j <= a@.len(),
            forall|m: int| 0 <= m < j ==> same_value(#[trigger] a@[m], b@[m]),
        decreases a@.len() - j,
    {
        if !a[j].same_as(&b[j]) {
            return false;
        }
        j = j + 1;
    }
    true
}

/// Ids of the entities `q` selects that `snap` does not hold as they are now.
fn collect_changed(world: &World, q: &QueryBuild, snap: &Vec<QueryRow>) -> (r: Vec<u64>)
    requires
        world.wf(),
    ensures
        r@ == changed_ids(*world, q, snap@, world.slots().len()),
{
    let n = world.slot_count();
    let mut r: Vec<u64> = Vec::new();
    let mut i: usize = 0;
    while i < n
        invariant
            world.wf(),
            n == world.slots().len(),
            i <= n,
            r@ == changed_ids(*world, q, snap@, i as nat),
        decreases n - i,
    {
        if entity_matches(world, i as u64, q) {
            let id = i as u64;
            proof {
                assert forall|k: int| 0 <= k < q.components@.len() implies (#[trigger] world.value_of(id, q.components@[k])) is Some by {
                    assert(has_all(world.row(id), q.components@));
                    assert(q.components@[k] < world.row(id).len());
                }
            }
            let current = fetch_values(world, id, &q.components);
            if !find_same(snap, id, &current, Ghost(*world), Ghost(q.components@)) {
                r.push(id);
            }
        }
        i = i + 1;
    }
    r
}

/// The values of the components `cs` on entity `id`, which holds them all.
fn fetch_values(world: &World, id: u64, cs: &Vec<u32>) -> (r: Vec<ComponentValue>)
    requires
        world.wf(),
        forall|k: int| 0 <= k < cs@.len() ==> (#[trigger] world.value_of(id, cs@[k])) is Some,
    ensures
        r@.len() == cs@.len(),
        forall|j: int| 0 <= j < cs@.len() ==> same_value(#[trigger] r@[j], world.value_of(id, cs@[j])->0),
{
    let mut r: Vec<ComponentValue> = Vec::new();
    let mut i: usize = 0;
    while i < cs.len()
        invariant
            world.wf(),
            forall|k: int| 0 <= k < cs@.len() ==> (#[trigger] world.value_of(id, cs@[k])) is Some,
            i <= cs@.len(),
            r@.len() == i,
            forall|j: int| 0 <= j < i ==> same_value(#[trigger] r@[j], world.value_of(id, cs@[j])->0),
        decreases cs@.len() - i,
    {
        assert(world.value_of(id, cs@[i as int]) is Some);
        match world.get(id, cs[i]) {
            Ok(v) => r.push(v),
            Err(_) => r.push(ComponentValue::Empty),
        }
        i = i + 1;
    }
    r
}

/// Rows for live entities that `q` selects.
fn fetch_rows(world: &World, cs: &Vec<u32>, ids: Vec<u64>, Ghost(q): Ghost<&QueryBuild>) -> (r: Vec<QueryRow>)
    requires
        world.wf(),
        cs@ == q.components@,
        forall|k: int|
            0 <= k < ids@.len() ==> {
                let id = #[trigger] ids@[k];
                &&& id < world.slots().len()
                &&& world.slots()[id as int] is Some
                &&& row_matches(world.slots()[id as int]->0, q)
            },
    ensures
        rows_hold(*world, cs@, ids@, r@),
{
    let mut r: Vec<QueryRow> = Vec::new();
    let mut i: usize = 0;
    while i < ids.len()
        invariant
            world.wf(),
            cs@ == q.components@,
            forall|k: int|
                0 <= k < ids@.len() ==> {
                    let id = #[trigger] ids@[k];
                    &&& id < world.slots().len()
                    &&& world.slots()[id as int] is Some
                    &&& row_matches(world.slots()[id as int]->0, q)
                },
            i <= ids@.len(),
            rows_hold(*world, cs@, ids@.subrange(0, i as int), r@),
        decreases ids@.len() - i,
    {
        let id = ids[i];
        assert(world.live(id));
        assert forall|k: int| 0 <= k < cs@.len() implies (#[trigger] world.value_of(id, cs@[k])) is Some by {
            assert(has_all(world.row(id), q.components@));
            assert(cs@[k] < world.row(id).len());
        }
        let vals = fetch_values(world, id, cs);
        r.push((id, vals));
        i = i + 1;
        assert(ids@.subrange(0, i as int).drop_last() =~= ids@.subrange(0, i - 1));
        assert forall|m: int| 0 <= m < r@.len() implies {
            &&& (#[trigger] r@[m]).0 == ids@.subrange(0, i as int)[m]
            &&& r@[m].1@.len() == cs@.len()
            &&& forall|j: int|
                0 <= j < cs@.len() ==> same_value(#[trigger] r@[m].1@[j], world.value_of(ids@.subrange(0, i as int)[m], cs@[j])->0)
        } by {
            if m < i - 1 {
                assert(ids@.subrange(0, i as int)[m] == ids@.subrange(0, i - 1)[m]);
            }
        }
    }
    assert(ids@.subrange(0, ids@.len() as int) =~= ids@);
    r
}

/// Rows without values for the given ids.
fn bare_rows(ids: Vec<u64>) -> (r: Vec<QueryRow>)
    ensures
        rows_hold_bare(ids@, r@),
{
    let mut r: Vec<QueryRow> = Vec::new();
    let mut i: usize = 0;
    while i < ids.len()
        invariant
            i <= ids@.len(),
            r@.len() == i,
            forall|m: int| 0 <= m < i ==> (#[trigger] r@[m]).0 == ids@[m] && r@[m].1@.len() == 0,
        decreases ids@.len() - i,
    {
        r.push((ids[i], Vec::new()));
        i = i + 1;
    }
    r
}

/// Whether `s` holds `x`.
fn contains_id(s: &Vec<u64>, x: u64) -> (r: bool)
    ensures
        r == s@.contains(x),
{
    let mut i: usize = 0;
    while i < s.len()
        invariant
            i <= s@.len(),
            forall|j: int| 0 <= j < i ==> s@[j] != x,
        decreases s@.len() - i,
    {
        if s[i] == x {
            return true;
        }
        i = i + 1;
    }
    false
}

/// `without` keeps a list free of duplicates.
pub proof fn lemma_without_no_duplicates(s: Seq<u64>, x: u64)
    requires
        s.no_duplicates(),
    ensures
        without(s, x).no_duplicates(),
    decreases s.len(),
{
    if s.len() > 0 {
        let rest = s.drop_last();
        assert(rest.no_duplicates());
        lemma_without_no_duplicates(rest, x);
        lemma_without_subset(rest, x);
        if s.last() != x {
            let w = without(rest, x);
            assert forall|i: int, j: int| 0 <= i < j < w.push(s.last()).len() implies w.push(s.last())[i] != w.push(s.last())[j] by {
                if j == w.len() {
                    if w[i] == s.last() {
                        let k = choose|k: int| 0 <= k < rest.len() && rest[k] == w[i];
                        assert(s[k] == s[s.len() - 1]);
                    }
                }
            }
        }
    }
}

/// `s` without any occurrence of `x`, in order.
fn remove_id(s: &Vec<u64>, x: u64) -> (r: Vec<u64>)
    ensures
        r@ == without(s@, x),
{
    let mut r: Vec<u64> = Vec::new();
    let mut i: usize = 0;
    while i < s.len()
        invariant
            i <= s@.len(),
            r@ == without(s@.subrange(0, i as int), x),
        decreases s@.len() - i,
    {
        assert(s@.subrange(0, i + 1).drop_last() =~= s@.subrange(0, i as int));
        if s[i] != x {
            r.push(s[i]);
        }
        i = i + 1;
    }
    assert(s@.subrange(0, s@.len() as int) =~= s@);
    r
}

/// The error returned by a call that does not exist on the caller's side;
/// its message is `UNSUPPORTED_MESSAGE`.
pub fn unsupported<T>() -> (r: Result<T, BindingError>)
    ensures
        r == Err::<T, BindingError>(BindingError::Unsupported),
        r->Err_0.message_spec() == UNSUPPORTED_MESSAGE@,
{
    Err(BindingError::Unsupported)
}

/// The world store's result behind a binding's result.
pub open spec fn lower<T>(r: Result<T, BindingError>) -> Result<T, ECSError> {
    match r {
        Ok(v) => Ok(v),
        Err(BindingError::Ecs(e)) => Err(e),
        Err(_) => Err(ECSError::NoSuchEntity),
    }
}

fn lift<T>(r: Result<T, ECSError>) -> (out: Result<T, BindingError>)
    ensures
        match r {
            Ok(v) => out == Ok::<T, BindingError>(v),
            Err(e) => out == Err::<T, BindingError>(BindingError::Ecs(e)),
        },
{
    match r {
        Ok(v) => Ok(v),
        Err(e) => Err(BindingError::Ecs(e)),
    }
}

} // verus!
