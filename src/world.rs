//! The shared world store: entities, their typed components, and the queue
//! of events sent by modules.
use vstd::prelude::*;
use crate::value::{ComponentValue, PrimitiveType, fits, same_value};

verus! {

/// Errors of the world store.
#[derive(Clone, Copy, Debug, PartialEq, Eq, Structural)]
pub enum ECSError {
    EntityDoesntHaveComponent,
    NoSuchEntity,
    UnknownComponent,
    TypeMismatch,
}

impl ECSError {
    pub open spec fn message_spec(self) -> Seq<char> {
        match self {
            ECSError::EntityDoesntHaveComponent => "entity doesn't have component"@,
            ECSError::NoSuchEntity => "no such entity"@,
            ECSError::UnknownComponent => "unknown component"@,
            ECSError::TypeMismatch => "value type does not match the component's type"@,
        }
    }

    /// The human-readable text of the error.
    pub fn message(&self) -> (r: &'static str)
        ensures
            r@ == self.message_spec(),
    {
        match self {
            ECSError::EntityDoesntHaveComponent => "entity doesn't have component",
            ECSError::NoSuchEntity => "no such entity",
            ECSError::UnknownComponent => "unknown component",
            ECSError::TypeMismatch => "value type does not match the component's type",
        }
    }
}

/// A component declared to the world: its name and primitive type. Its index
/// is its position in the world's list of declarations.
#[derive(Debug)]
pub struct ComponentDef {
    pub name: String,
    pub ty: PrimitiveType,
}

/// A handle on a declared component.
#[derive(Clone, Copy, Debug, PartialEq, Eq, Structural)]
pub struct ComponentDesc {
    index: u32,
}

impl ComponentDesc {
    pub closed spec fn index_spec(&self) -> u32 {
        self.index
    }

    pub fn new(index: u32) -> (r: ComponentDesc)
        ensures
            r.index_spec() == index,
    {
        ComponentDesc { index }
    }

    /// The component's index in the world's declarations.
    pub fn index(&self) -> (r: u32)
        ensures
            r == self.index_spec(),
    {
        self.index
    }
}

/// Components and values describing one entity, or one event's payload.
pub type EntityData = Vec<(u32, ComponentValue)>;

/// An event sent by a module, waiting to be routed.
#[derive(Debug)]
pub struct Event {
    pub name: String,
    pub data: EntityData,
}

/// What one entity holds: for each component index, its value if present.
pub type Components = Seq<Option<ComponentValue>>;

/// The error that one entry of a component list gives, if any.
pub open spec fn entry_error(types: Seq<PrimitiveType>, e: (u32, ComponentValue)) -> Option<ECSError> {
    if e.0 >= types.len() {
        Some(ECSError::UnknownComponent)
    } else if !fits(e.1, types[e.0 as int]) {
        Some(ECSError::TypeMismatch)
    } else {
        None
    }
}

/// The error of the first invalid entry of `data`, if any.
pub open spec fn data_error(types: Seq<PrimitiveType>, data: Seq<(u32, ComponentValue)>) -> Option<ECSError>
    decreases data.len(),
{
    if data.len() == 0 {
        None
    } else {
        match entry_error(types, data[0]) {
            Some(e) => Some(e),
            None => data_error(types, data.drop_first()),
        }
    }
}

/// `comps` with each entry of `data` stored in turn; a later entry for the
/// same index wins.
pub open spec fn apply_data(comps: Components, data: Seq<(u32, ComponentValue)>) -> Components
    decreases data.len(),
{
    if data.len() == 0 {
        comps
    } else {
        apply_data(comps.update(data[0].0 as int, Some(data[0].1)), data.drop_first())
    }
}

pub open spec fn no_components(n: nat) -> Components {
    Seq::new(n, |i: int| None)
}

/// Indices below `n` of the live entities in `slots` that hold component `c`,
/// in increasing order.
pub open spec fn ids_with(slots: Seq<Option<Components>>, c: u32, n: nat) -> Seq<u64>
    decreases n,
{
    if n == 0 {
        Seq::empty()
    } else {
        let rest = ids_with(slots, c, (n - 1) as nat);
        let i = n - 1;
        if slots[i] is Some && c < slots[i]->0.len() && slots[i]->0[c as int] is Some {
            rest.push(i as u64)
        } else {
            rest
        }
    }
}

/// `row` has one slot per declared type and each stored value fits its slot.
pub open spec fn row_fits(types: Seq<PrimitiveType>, row: Components) -> bool {
    &&& row.len() == types.len()
    &&& forall|c: int| 0 <= c < row.len() && (#[trigger] row[c]) is Some ==> fits(row[c]->0, types[c])
}

/// `row` with every listed component index cleared.
pub open spec fn clear_all(row: Components, cs: Seq<u32>) -> Components
    decreases cs.len(),
{
    if cs.len() == 0 {
        row
    } else {
        clear_all(row.update(cs[0] as int, None), cs.drop_first())
    }
}

proof fn lemma_apply_data_fits(types: Seq<PrimitiveType>, row: Components, data: Seq<(u32, ComponentValue)>)
    requires
        row_fits(types, row),
        data_error(types, data) is None,
    ensures
        row_fits(types, apply_data(row, data)),
    decreases data.len(),
{
    if data.len() > 0 {
        lemma_apply_data_fits(types, row.update(data[0].0 as int, Some(data[0].1)), data.drop_first());
    }
}

proof fn lemma_clear_all_fits(types: Seq<PrimitiveType>, row: Components, cs: Seq<u32>)
    requires
        row_fits(types, row),
        forall|k: int| 0 <= k < cs.len() ==> (#[trigger] cs[k]) < types.len(),
    ensures
        row_fits(types, clear_all(row, cs)),
    decreases cs.len(),
{
    if cs.len() > 0 {
        let rest = cs.drop_first();
        assert forall|k: int| 0 <= k < rest.len() implies (#[trigger] rest[k]) < types.len() by {
            assert(rest[k] == cs[k + 1]);
        }
        lemma_clear_all_fits(types, row.update(cs[0] as int, None), rest);
    }
}

/// What a spawn of `data` on `old` leaves: on an invalid entry, the world
/// unchanged and that entry's error; else a new entity holding `data`,
/// under an id never allocated before. Every other entity is as it was,
/// and ids allocated meanwhile hold nothing.
pub open spec fn spawn_post(old: World, data: Seq<(u32, ComponentValue)>, new: World, r: Result<u64, ECSError>) -> bool {
    match data_error(old.types(), data) {
        Some(e) => r == Err::<u64, ECSError>(e) && new.slots() == old.slots(),
        None => r is Ok && fresh_spawn(old.slots(), r->Ok_0, Some(apply_data(no_components(old.types().len()), data)), new.slots()),
    }
}

/// `new` is `old` with entity `id`, never allocated in `old`, holding `row`.
pub open spec fn fresh_spawn(old: Seq<Option<Components>>, id: u64, row: Option<Components>, new: Seq<Option<Components>>) -> bool {
    &&& old.len() <= id < new.len()
    &&& new[id as int] == row
    &&& forall|x: int|
        0 <= x < new.len() && x != id ==> #[trigger] new[x] == if x < old.len() {
            old[x]
        } else {
            None::<Components>
        }
}

/// What a despawn of `id` on `old` leaves: true and the entity gone when it
/// lived, else false and the world unchanged.
pub open spec fn despawn_post(old: World, id: u64, new: World, r: bool) -> bool {
    &&& r == old.live(id)
    &&& new.slots() == if r {
        old.slots().update(id as int, None)
    } else {
        old.slots()
    }
}

/// The world store.
pub struct World {
    defs: Vec<ComponentDef>,
    entities: Vec<Option<Vec<Option<ComponentValue>>>>,
    events: Vec<Event>,
}

impl World {
    /// Declared type of each component index.
    pub closed spec fn types(&self) -> Seq<PrimitiveType> {
        self.defs@.map_values(|d: ComponentDef| d.ty)
    }

    /// Declared name of each component index.
    pub closed spec fn names(&self) -> Seq<Seq<char>> {
        self.defs@.map_values(|d: ComponentDef| d.name@)
    }

    /// For each entity id ever allocated: its components while it lives,
    /// `None` once despawned.
    pub closed spec fn slots(&self) -> Seq<Option<Components>> {
        self.entities@.map_values(
            |e: Option<Vec<Option<ComponentValue>>>|
                match e {
                    Some(v) => Some(v@),
                    None => None,
                },
        )
    }

    /// Events sent and not yet taken: name and payload.
    pub closed spec fn events(&self) -> Seq<(Seq<char>, Seq<(u32, ComponentValue)>)> {
        self.events@.map_values(|e: Event| (e.name@, e.data@))
    }

    pub open spec fn wf(&self) -> bool {
        &&& 2 <= self.slots().len() <= u64::MAX
        &&& self.types().len() <= u32::MAX
        &&& forall|i: int|
            0 <= i < self.slots().len() && (#[trigger] self.slots()[i]) is Some ==> row_fits(
                self.types(),
                self.slots()[i]->0,
            )
    }

    /// Same declarations, same pending events.
    pub open spec fn same_frame(&self, other: &World) -> bool {
        &&& self.types() == other.types()
        &&& self.names() == other.names()
        &&& self.events() == other.events()
    }

    /// The components of a live entity.
    pub open spec fn row(&self, id: u64) -> Components {
        self.slots()[id as int]->0
    }

    pub open spec fn live(&self, id: u64) -> bool {
        id < self.slots().len() && self.slots()[id as int] is Some
    }

    /// The value of component `c` on entity `id`, if the entity lives and
    /// holds it.
    pub open spec fn value_of(&self, id: u64, c: u32) -> Option<ComponentValue> {
        if self.live(id) && c < self.types().len() {
            self.slots()[id as int]->0[c as int]
        } else {
            None
        }
    }

    /// Creates a world with the given component declarations and two
    /// entities without components: the resources entity (id 0) and the
    /// persisted resources entity (id 1).
    pub fn new(defs: Vec<ComponentDef>) -> (r: World)
        requires
            defs@.len() <= u32::MAX,
        ensures
            r.wf(),
            r.types() == defs@.map_values(|d: ComponentDef| d.ty),
            r.names() == defs@.map_values(|d: ComponentDef| d.name@),
            r.slots() == seq![Some(no_components(defs@.len())), Some(no_components(defs@.len()))],
            r.events().len() == 0,
    {
        let n = defs.len();
        let mut entities: Vec<Option<Vec<Option<ComponentValue>>>> = Vec::new();
        entities.push(Some(empty_row(n)));
        entities.push(Some(empty_row(n)));
        let r = World { defs, entities, events: Vec::new() };
        assert(r.slots() =~= seq![Some(no_components(n as nat)), Some(no_components(n as nat))]);
        assert(r.events() =~= Seq::empty());
        r
    }

    pub fn component_count(&self) -> (r: usize)
        ensures
            r == self.types().len(),
    {
        self.defs.len()
    }

    /// How many entity ids were ever allocated.
    pub fn slot_count(&self) -> (r: usize)
        ensures
            r == self.slots().len(),
    {
        proof { self.lemma_slots_len(); }
        self.entities.len()
    }

    /// The id of the resources entity.
    pub fn resources(&self) -> (r: u64)
        ensures
            r == 0,
    {
        0
    }

    /// The id of the persisted resources entity.
    pub fn persisted_resources(&self) -> (r: u64)
        ensures
            r == 1,
    {
        1
    }

    /// The index of the first component declared under `name`.
    pub fn get_index(&self, name: &str) -> (r: Option<u32>)
        requires
            self.wf(),
        ensures
            match r {
                Some(i) => i < self.names().len() && self.names()[i as int] == name@ && forall|j: int|
                    0 <= j < i ==> self.names()[j] != name@,
                None => forall|j: int| 0 <= j < self.names().len() ==> self.names()[j] != name@,
            },
    {
        let wanted = String::from_str(name);
        let mut i: usize = 0;
        while i < self.defs.len()
            invariant
                self.wf(),
                wanted@ == name@,
                i <= self.defs@.len(),
                forall|j: int| 0 <= j < i ==> self.names()[j] != name@,
            decreases self.defs@.len() - i,
        {
            assert(self.names()[i as int] == self.defs@[i as int].name@);
            if self.defs[i].name == wanted {
                return Some(i as u32);
            }
            i = i + 1;
        }
        None
    }

    pub fn is_live(&self, id: u64) -> (r: bool)
        ensures
            r == self.live(id),
    {
        proof { self.lemma_slots_len(); }
        id < self.entities.len() as u64 && self.entities[id as usize].is_some()
    }

    /// Creates an entity holding `data`, under an id never allocated before.
    /// The first invalid entry aborts the spawn.
    pub fn spawn(&mut self, data: EntityData) -> (r: Result<u64, ECSError>)
        requires
            old(self).wf(),
        ensures
            final(self).wf(),
            final(self).same_frame(old(self)),
            spawn_post(*old(self), data@, *final(self), r),
    {
        proof { self.lemma_slots_len(); }
        match self.check_data(&data) {
            Some(e) => Err(e),
            None => {
                let mut row = empty_row(self.defs.len());
                apply_row(&mut row, data, Ghost(self.types()));
                proof {
                    lemma_apply_data_fits(self.types(), no_components(self.types().len()), data@);
                }
                let id = self.entities.len() as u64;
                self.entities.push(Some(row));
                proof { self.lemma_slots_len(); }
                assert(self.slots() =~= old(self).slots().push(Some(row@)));
                Ok(id)
            },
        }
    }

    /// Removes entity `id`; true when it lived.
    pub fn despawn(&mut self, id: u64) -> (r: bool)
        requires
            old(self).wf(),
        ensures
            final(self).wf(),
            final(self).same_frame(old(self)),
            despawn_post(*old(self), id, *final(self), r),
    {
        proof { self.lemma_slots_len(); }
        if self.is_live(id) {
            let _ = self.take_row(id as usize);
            true
        } else {
            false
        }
    }

    /// The value of component `c` on entity `id`; `EntityDoesntHaveComponent`
    /// whenever there is none, the entity being gone included.
    pub fn get(&self, id: u64, c: u32) -> (r: Result<ComponentValue, ECSError>)
        requires
            self.wf(),
        ensures
            self.value_of(id, c) is None ==> r == Err::<ComponentValue, ECSError>(
                ECSError::EntityDoesntHaveComponent,
            ),
            self.value_of(id, c) is Some ==> r is Ok && same_value(r->Ok_0, self.value_of(id, c)->0),
    {
        proof { self.lemma_slots_len(); }
        if !self.is_live(id) || c as usize >= self.defs.len() {
            return Err(ECSError::EntityDoesntHaveComponent);
        }
        let row = self.entities[id as usize].as_ref().unwrap();
        assert(row@ == self.row(id));
        match &row[c as usize] {
            Some(v) => Ok(v.duplicate()),
            None => Err(ECSError::EntityDoesntHaveComponent),
        }
    }

    /// As `get`.
    pub fn get_ref(&self, id: u64, c: u32) -> (r: Result<ComponentValue, ECSError>)
        requires
            self.wf(),
        ensures
            self.value_of(id, c) is None ==> r == Err::<ComponentValue, ECSError>(
                ECSError::EntityDoesntHaveComponent,
            ),
            self.value_of(id, c) is Some ==> r is Ok && same_value(r->Ok_0, self.value_of(id, c)->0),
    {
        self.get(id, c)
    }

    /// The value of component `c` on the resources entity.
    pub fn resource(&self, c: u32) -> (r: ComponentValue)
        requires
            self.wf(),
            self.value_of(0, c) is Some,
        ensures
            same_value(r, self.value_of(0, c)->0),
    {
        match self.get(0, c) {
            Ok(v) => v,
            Err(_) => ComponentValue::Empty,
        }
    }

    pub fn has_component(&self, id: u64, c: u32) -> (r: bool)
        requires
            self.wf(),
        ensures
            r == self.value_of(id, c) is Some,
    {
        proof { self.lemma_slots_len(); }
        if !self.is_live(id) || c as usize >= self.defs.len() {
            return false;
        }
        let row = self.entities[id as usize].as_ref().unwrap();
        assert(row@ == self.row(id));
        row[c as usize].is_some()
    }

    /// Whether entity `id` holds every listed component.
    pub fn has_components(&self, id: u64, cs: &Vec<u32>) -> (r: bool)
        requires
            self.wf(),
        ensures
            r == forall|k: int| 0 <= k < cs@.len() ==> (#[trigger] self.value_of(id, cs@[k])) is Some,
    {
        let mut i: usize = 0;
        while i < cs.len()
            invariant
                self.wf(),
                i <= cs@.len(),
                forall|k: int| 0 <= k < i ==> (#[trigger] self.value_of(id, cs@[k])) is Some,
            decreases cs@.len() - i,
        {
            if !self.has_component(id, cs[i]) {
                return false;
            }
            i = i + 1;
        }
        true
    }

    /// Adds or overwrites component `c` on entity `id`.
    pub fn add_component(&mut self, id: u64, c: u32, value: ComponentValue) -> (r: Result<(), ECSError>)
        requires
            old(self).wf(),
        ensures
            final(self).wf(),
            final(self).same_frame(old(self)),
            r == (if !old(self).live(id) {
                Err(ECSError::NoSuchEntity)
            } else {
                match entry_error(old(self).types(), (c, value)) {
                    Some(e) => Err(e),
                    None => Ok(()),
                }
            }),
            r is Ok ==> final(self).slots() == old(self).slots().update(
                id as int,
                Some(old(self).row(id).update(c as int, Some(value))),
            ),
            r is Err ==> final(self).slots() == old(self).slots(),
    {
        let mut data: EntityData = Vec::new();
        data.push((c, value));
        let r = self.add_components(id, data);
        proof {
            let d = seq![(c, value)];
            assert(data@ =~= d);
            assert(d.drop_first() =~= Seq::<(u32, ComponentValue)>::empty());
            reveal_with_fuel(data_error, 2);
            reveal_with_fuel(apply_data, 2);
        }
        r
    }

    /// Overwrites component `c`, which entity `id` must already hold.
    pub fn set(&mut self, id: u64, c: u32, value: ComponentValue) -> (r: Result<(), ECSError>)
        requires
            old(self).wf(),
        ensures
            final(self).wf(),
            final(self).same_frame(old(self)),
            r == (if !old(self).live(id) {
                Err(ECSError::NoSuchEntity)
            } else {
                match entry_error(old(self).types(), (c, value)) {
                    Some(e) => Err(e),
                    None => if old(self).value_of(id, c) is None {
                        Err(ECSError::EntityDoesntHaveComponent)
                    } else {
                        Ok(())
                    },
                }
            }),
            r is Ok ==> final(self).slots() == old(self).slots().update(
                id as int,
                Some(old(self).row(id).update(c as int, Some(value))),
            ),
            r is Err ==> final(self).slots() == old(self).slots(),
    {
        proof { self.lemma_slots_len(); }
        if !self.is_live(id) {
            return Err(ECSError::NoSuchEntity);
        }
        if c as usize >= self.defs.len() {
            return Err(ECSError::UnknownComponent);
        }
        assert(self.types()[c as int] == self.defs@[c as int].ty);
        if value.tag() != self.defs[c as usize].ty {
            return Err(ECSError::TypeMismatch);
        }
        if !self.has_component(id, c) {
            return Err(ECSError::EntityDoesntHaveComponent);
        }
        let mut row = self.take_row(id as usize);
        row.set(c as usize, Some(value));
        self.put_row(id as usize, row);
        assert(self.types() == old(self).types());
        Ok(())
    }

    /// Adds or overwrites every entry of `data` on entity `id`; the first
    /// invalid entry aborts the whole batch.
    pub fn add_components(&mut self, id: u64, data: EntityData) -> (r: Result<(), ECSError>)
        requires
            old(self).wf(),
        ensures
            final(self).wf(),
            final(self).same_frame(old(self)),
            r == (if !old(self).live(id) {
                Err(ECSError::NoSuchEntity)
            } else {
                match data_error(old(self).types(), data@) {
                    Some(e) => Err(e),
                    None => Ok(()),
                }
            }),
            r is Ok ==> final(self).slots() == old(self).slots().update(
                id as int,
                Some(apply_data(old(self).row(id), data@)),
            ),
            r is Err ==> final(self).slots() == old(self).slots(),
    {
        proof { self.lemma_slots_len(); }
        if !self.is_live(id) {
            return Err(ECSError::NoSuchEntity);
        }
        if let Some(e) = self.check_data(&data) {
            return Err(e);
        }
        let ghost types = self.types();
        let mut row = self.take_row(id as usize);
        apply_row(&mut row, data, Ghost(types));
        proof {
            lemma_apply_data_fits(types, old(self).row(id), data@);
        }
        self.put_row(id as usize, row);
        assert(self.types() == old(self).types());
        Ok(())
    }

    /// Overwrites every entry of `data` on entity `id`, which must already
    /// hold each of them; the first failure aborts the whole batch.
    pub fn set_components(&mut self, id: u64, data: EntityData) -> (r: Result<(), ECSError>)
        requires
            old(self).wf(),
        ensures
            final(self).wf(),
            final(self).same_frame(old(self)),
            r == (if !old(self).live(id) {
                Err(ECSError::NoSuchEntity)
            } else {
                match data_error(old(self).types(), data@) {
                    Some(e) => Err(e),
                    None => if exists|k: int|
                        0 <= k < data@.len() && (#[trigger] old(self).value_of(id, data@[k].0)) is None {
                        Err(ECSError::EntityDoesntHaveComponent)
                    } else {
                        Ok(())
                    },
                }
            }),
            r is Ok ==> final(self).slots() == old(self).slots().update(
                id as int,
                Some(apply_data(old(self).row(id), data@)),
            ),
            r is Err ==> final(self).slots() == old(self).slots(),
    {
        proof { self.lemma_slots_len(); }
        if !self.is_live(id) {
            return Err(ECSError::NoSuchEntity);
        }
        if let Some(e) = self.check_data(&data) {
            return Err(e);
        }
        let mut i: usize = 0;
        while i < data.len()
            invariant
                self.wf(),
                self.types() == old(self).types(),
                self.slots() == old(self).slots(),
                old(self).live(id),
                data_error(old(self).types(), data@) is None,
                i <= data@.len(),
                forall|k: int| 0 <= k < i ==> (#[trigger] self.value_of(id, data@[k].0)) is Some,
            decreases data@.len() - i,
        {
            if !self.has_component(id, data[i].0) {
                assert(old(self).value_of(id, data@[i as int].0) is None);
                return Err(ECSError::EntityDoesntHaveComponent);
            }
            i = i + 1;
        }
        self.add_components(id, data)
    }

    /// Removes component `c` from entity `id`; removing one it lacks is no
    /// error.
    pub fn remove_component(&mut self, id: u64, c: u32) -> (r: Result<(), ECSError>)
        requires
            old(self).wf(),
        ensures
            final(self).wf(),
            final(self).same_frame(old(self)),
            r == (if !old(self).live(id) {
                Err(ECSError::NoSuchEntity)
            } else if c >= old(self).types().len() {
                Err(ECSError::UnknownComponent)
            } else {
                Ok(())
            }),
            r is Ok ==> final(self).slots() == old(self).slots().update(
                id as int,
                Some(old(self).row(id).update(c as int, None)),
            ),
            r is Err ==> final(self).slots() == old(self).slots(),
    {
        let mut cs: Vec<u32> = Vec::new();
        cs.push(c);
        let r = self.remove_components(id, &cs);
        proof {
            let d = seq![c];
            assert(cs@ =~= d);
            assert(d.drop_first() =~= Seq::<u32>::empty());
            reveal_with_fuel(clear_all, 2);
        }
        r
    }

    /// Removes every listed component from entity `id`.
    pub fn remove_components(&mut self, id: u64, cs: &Vec<u32>) -> (r: Result<(), ECSError>)
        requires
            old(self).wf(),
        ensures
            final(self).wf(),
            final(self).same_frame(old(self)),
            r == (if !old(self).live(id) {
                Err(ECSError::NoSuchEntity)
            } else if exists|k: int| 0 <= k < cs@.len() && (#[trigger] cs@[k]) >= old(self).types().len() {
                Err(ECSError::UnknownComponent)
            } else {
                Ok(())
            }),
            r is Ok ==> final(self).slots() == old(self).slots().update(
                id as int,
                Some(clear_all(old(self).row(id), cs@)),
            ),
            r is Err ==> final(self).slots() == old(self).slots(),
    {
        proof { self.lemma_slots_len(); }
        if !self.is_live(id) {
            return Err(ECSError::NoSuchEntity);
        }
        let mut i: usize = 0;
        while i < cs.len()
            invariant
                self.wf(),
                self.types() == old(self).types(),
                self.slots() == old(self).slots(),
                old(self).live(id),
                i <= cs@.len(),
                forall|k: int| 0 <= k < i ==> (#[trigger] cs@[k]) < self.types().len(),
            decreases cs@.len() - i,
        {
            if cs[i] as usize >= self.defs.len() {
                assert(cs@[i as int] >= old(self).types().len());
                return Err(ECSError::UnknownComponent);
            }
            i = i + 1;
        }
        let ghost types = self.types();
        let mut row = self.take_row(id as usize);
        clear_row(&mut row, cs);
        proof {
            lemma_clear_all_fits(types, old(self).row(id), cs@);
        }
        self.put_row(id as usize, row);
        assert(self.types() == old(self).types());
        Ok(())
    }

    /// Ids of the live entities holding component `c`, in increasing order.
    pub fn get_all(&self, c: u32) -> (r: Vec<u64>)
        requires
            self.wf(),
        ensures
            r@ == ids_with(self.slots(), c, self.slots().len()),
    {
        proof { self.lemma_slots_len(); }
        let mut r: Vec<u64> = Vec::new();
        let mut i: usize = 0;
        while i < self.entities.len()
            invariant
                self.wf(),
                self.slots().len() == self.entities@.len(),
                i <= self.entities@.len(),
                r@ == ids_with(self.slots(), c, i as nat),
            decreases self.entities@.len() - i,
        {
            if self.has_component(i as u64, c) {
                r.push(i as u64);
            }
            i = i + 1;
        }
        r
    }

    /// Queues an event; its payload is checked as a spawn's would be.
    pub fn send_event(&mut self, name: String, data: EntityData) -> (r: Result<(), ECSError>)
        requires
            old(self).wf(),
        ensures
            final(self).wf(),
            final(self).types() == old(self).types(),
            final(self).names() == old(self).names(),
            final(self).slots() == old(self).slots(),
            match data_error(old(self).types(), data@) {
                Some(e) => r == Err::<(), ECSError>(e) && final(self).events() == old(self).events(),
                None => r is Ok && final(self).events() == old(self).events().push((name@, data@)),
            },
    {
        if let Some(e) = self.check_data(&data) {
            return Err(e);
        }
        let ghost d = data@;
        self.events.push(Event { name, data });
        assert(self.events() =~= old(self).events().push((name@, d)));
        Ok(())
    }

    /// Hands out the queued events, oldest first, and empties the queue.
    pub fn take_events(&mut self) -> (r: Vec<Event>)
        requires
            old(self).wf(),
        ensures
            final(self).wf(),
            final(self).types() == old(self).types(),
            final(self).names() == old(self).names(),
            final(self).slots() == old(self).slots(),
            final(self).events().len() == 0,
            r@.map_values(|e: Event| (e.name@, e.data@)) == old(self).events(),
    {
        let mut r: Vec<Event> = Vec::new();
        std::mem::swap(&mut self.events, &mut r);
        assert(self.events() =~= Seq::empty());
        r
    }

    /// Checks every entry of `data` against the declared types.
    pub fn check_data(&self, data: &EntityData) -> (r: Option<ECSError>)
        ensures
            r == data_error(self.types(), data@),
    {
        let ghost types = self.types();
        let mut i: usize = 0;
        assert(data@.subrange(0, data@.len() as int) =~= data@);
        while i < data.len()
            invariant
                types == self.types(),
                i <= data@.len(),
                data_error(types, data@) == data_error(types, data@.subrange(i as int, data@.len() as int)),
            decreases data@.len() - i,
        {
            let ghost rest = data@.subrange(i as int, data@.len() as int);
            assert(rest.drop_first() =~= data@.subrange(i + 1, data@.len() as int));
            assert(rest[0] == data@[i as int]);
            let c = data[i].0;
            if c as usize >= self.defs.len() {
                return Some(ECSError::UnknownComponent);
            }
            assert(types[c as int] == self.defs@[c as int].ty);
            if data[i].1.tag() != self.defs[c as usize].ty {
                return Some(ECSError::TypeMismatch);
            }
            i = i + 1;
        }
        assert(data@.subrange(i as int, data@.len() as int) =~= Seq::empty());
        None
    }

    fn take_row(&mut self, i: usize) -> (r: Vec<Option<ComponentValue>>)
        requires
            i < old(self).slots().len(),
            old(self).slots()[i as int] is Some,
        ensures
            r@ == old(self).slots()[i as int]->0,
            final(self).slots() == old(self).slots().update(i as int, None),
            final(self).defs == old(self).defs,
            final(self).events == old(self).events,
    {
        proof { self.lemma_slots_len(); }
        let mut slot: Option<Vec<Option<ComponentValue>>> = None;
        std::mem::swap(&mut self.entities[i], &mut slot);
        assert(self.slots() =~= old(self).slots().update(i as int, None));
        slot.unwrap()
    }

    fn put_row(&mut self, i: usize, row: Vec<Option<ComponentValue>>)
        requires
            i < old(self).slots().len(),
        ensures
            final(self).slots() == old(self).slots().update(i as int, Some(row@)),
            final(self).defs == old(self).defs,
            final(self).events == old(self).events,
    {
        proof { self.lemma_slots_len(); }
        self.entities.set(i, Some(row));
        assert(self.slots() =~= old(self).slots().update(i as int, Some(row@)));
    }

    proof fn lemma_slots_len(&self)
        ensures
            self.slots().len() == self.entities@.len(),
            self.entities@.len() <= usize::MAX,
            forall|i: int|
                0 <= i < self.entities@.len() ==> #[trigger] self.slots()[i] == match self.entities@[i] {
                    Some(v) => Some(v@),
                    None => None::<Components>,
                },
    {
        assert(self.entities.len() as int == self.entities@.len());
    }
}

fn apply_row(row: &mut Vec<Option<ComponentValue>>, data: EntityData, Ghost(types): Ghost<Seq<PrimitiveType>>)
    requires
        old(row)@.len() == types.len(),
        data_error(types, data@) is None,
    ensures
        final(row)@ == apply_data(old(row)@, data@),
{
    let ghost initial = data@;
    let mut data = data;
    while data.len() > 0
        invariant
            row@.len() == types.len(),
            data_error(types, data@) is None,
            apply_data(old(row)@, initial) == apply_data(row@, data@),
        decreases data@.len(),
    {
        let ghost before = data@;
        let (c, v) = data.remove(0);
        assert(data@ =~= before.drop_first());
        row.set(c as usize, Some(v));
    }
}

fn clear_row(row: &mut Vec<Option<ComponentValue>>, cs: &Vec<u32>)
    requires
        forall|k: int| 0 <= k < cs@.len() ==> (#[trigger] cs@[k]) < old(row)@.len(),
    ensures
        final(row)@ == clear_all(old(row)@, cs@),
{
    let mut i: usize = 0;
    assert(cs@.subrange(0, cs@.len() as int) =~= cs@);
    while i < cs.len()
        invariant
            i <= cs@.len(),
            row@.len() == old(row)@.len(),
            forall|k: int| 0 <= k < cs@.len() ==> (#[trigger] cs@[k]) < row@.len(),
            clear_all(old(row)@, cs@) == clear_all(row@, cs@.subrange(i as int, cs@.len() as int)),
        decreases cs@.len() - i,
    {
        let ghost rest = cs@.subrange(i as int, cs@.len() as int);
        assert(rest.drop_first() =~= cs@.subrange(i + 1, cs@.len() as int));
        assert(rest[0] == cs@[i as int]);
        row.set(cs[i] as usize, None);
        i = i + 1;
    }
    assert(cs@.subrange(i as int, cs@.len() as int) =~= Seq::empty());
}

fn empty_row(n: usize) -> (r: Vec<Option<ComponentValue>>)
    ensures
        r@ == no_components(n as nat),
{
    let mut r: Vec<Option<ComponentValue>> = Vec::new();
    let mut i: usize = 0;
    while i < n
        invariant
            i <= n,
            r@ == no_components(i as nat),
        decreases n - i,
    {
        r.push(None);
        i = i + 1;
        assert(r@ =~= no_components(i as nat));
    }
    r
}

} // verus!
