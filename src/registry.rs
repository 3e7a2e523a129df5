//! The module registry: one record per loaded module, with its bytecode,
//! its bindings and the bookkeeping released when it unloads.
use vstd::prelude::*;
use crate::bindings::{BindingError, Bindings, Side, lemma_without_subset, lower, without};
use crate::world::{Components, EntityData, Event, World, despawn_post, spawn_post};
use crate::identifier::{Identifier, check_identifier, identifier_error, is_identifier, is_snake_char};

verus! {

/// A module's executable payload.
#[derive(Debug)]
pub enum Bytecode {
    /// Nothing yet, or detached on unload.
    Missing,
    /// The bytes, ready to run.
    Bytes(Vec<u8>),
    /// An absolute URL to fetch the bytes from.
    Url(String),
}

/// One loaded module.
#[derive(Debug)]
pub struct Module {
    pub name: Identifier,
    pub description: String,
    pub enabled: bool,
    /// False once the module was unloaded.
    pub loaded: bool,
    pub bytecode: Bytecode,
    /// The bytecode changed since the scheduler last instantiated the module.
    pub reload: bool,
    pub bindings: Bindings,
}

/// Bytes fetched for a module, waiting for a safe point to be attached.
#[derive(Debug)]
pub struct DeferredContinuation {
    pub module: u64,
    pub bytecode: Vec<u8>,
}

/// All modules, by id (their position), with the queue of deferred
/// continuations and the event subscriptions in the order they were made.
#[derive(Debug)]
pub struct ModuleRegistry {
    pub modules: Vec<Module>,
    pub continuations: Vec<DeferredContinuation>,
    pub subscriptions: Vec<(u64, String)>,
}

/// The name of a module built from the artifact `stem` of a project: the
/// project's own identifier when the artifact is the only one.
pub open spec fn derived_name(project: Seq<char>, stem: Seq<char>, sole: bool) -> Seq<char> {
    if sole {
        project
    } else {
        project + "_"@ + stem
    }
}

/// The description of such a module.
pub open spec fn derived_description(description: Seq<char>, stem: Seq<char>, sole: bool) -> Seq<char> {
    if sole {
        description
    } else {
        description + " ("@ + stem + ")"@
    }
}

/// Some registration result is `Ok(m)`.
pub open spec fn registered_as(r: Seq<Result<u64, &'static str>>, m: int) -> bool {
    exists|k: int| 0 <= k < r.len() && (#[trigger] r[k]) == Ok::<u64, &'static str>(m as u64)
}

/// `m` is a newly registered module with this name, description and side.
pub open spec fn fresh_module(m: Module, name: Seq<char>, description: Seq<char>, side: Side) -> bool {
    &&& m.name@ == name
    &&& m.description@ == description
    &&& m.enabled
    &&& m.loaded
    &&& m.bytecode is Missing
    &&& !m.reload
    &&& m.bindings.side == side
    &&& m.bindings.wf()
    &&& m.bindings.base.spawned_entities@.len() == 0
    &&& m.bindings.base.query_states@.len() == 0
    &&& m.bindings.base.next_query == 0
    &&& m.bindings.physics@.len() == 0
}

/// The bytes a module can run, if it has them.
pub open spec fn payload(m: Module) -> Option<Seq<u8>> {
    match m.bytecode {
        Bytecode::Bytes(v) => Some(v@),
        _ => None,
    }
}

/// `a` and `b` agree on everything but their bytecode and reload flag.
pub open spec fn same_identity(a: Module, b: Module) -> bool {
    &&& a.name == b.name
    &&& a.description == b.description
    &&& a.enabled == b.enabled
    &&& a.loaded == b.loaded
    &&& a.bindings == b.bindings
}

/// `new` is `old` with at most the module at `id` changed.
pub open spec fn others_same(old: Seq<Module>, new: Seq<Module>, id: int) -> bool {
    &&& new.len() == old.len()
    &&& forall|j: int| 0 <= j < old.len() && j != id ==> #[trigger] new[j] == old[j]
}

/// A module that is ticked: loaded, enabled, and with bytes to run.
pub open spec fn runnable(m: Module) -> bool {
    m.loaded && m.enabled && m.bytecode is Bytes
}

/// Ids below `n` of the runnable modules, in registration order.
pub open spec fn runnable_ids(ms: Seq<Module>, n: nat) -> Seq<u64>
    decreases n,
{
    if n == 0 {
        Seq::empty()
    } else {
        let rest = runnable_ids(ms, (n - 1) as nat);
        if runnable(ms[n - 1]) {
            rest.push((n - 1) as u64)
        } else {
            rest
        }
    }
}

/// The payload of the latest continuation for module `m`, if any.
pub open spec fn last_payload(cs: Seq<DeferredContinuation>, m: u64) -> Option<Seq<u8>>
    decreases cs.len(),
{
    if cs.len() == 0 {
        None
    } else if cs.last().module == m {
        Some(cs.last().bytecode@)
    } else {
        last_payload(cs.drop_last(), m)
    }
}

/// `after` is `before` once the continuations `cs` ran: each loaded module
/// with a continuation holds the payload of its latest one; every other
/// module is unchanged.
pub open spec fn drained(before: Seq<Module>, cs: Seq<DeferredContinuation>, after: Seq<Module>) -> bool {
    &&& after.len() == before.len()
    &&& forall|m: int|
        0 <= m < before.len() ==> {
            let p = last_payload(cs, m as u64);
            if before[m].loaded && p is Some {
                same_identity(#[trigger] after[m], before[m]) && payload(after[m]) == p && after[m].reload
            } else {
                after[m] == before[m]
            }
        }
}

/// Every entity in a module's spawned set has an id below `n`, and no entity
/// is in the spawned sets of two modules.
pub open spec fn owns_disjoint(ms: Seq<Module>, n: nat) -> bool {
    &&& forall|m: int, k: int|
        0 <= m < ms.len() && 0 <= k < ms[m].bindings.base.spawned_entities@.len() ==> (#[trigger] ms[m].bindings.base.spawned_entities@[k])
            < n
    &&& forall|m1: int, m2: int, k1: int, k2: int|
        0 <= m1 < ms.len() && 0 <= m2 < ms.len() && m1 != m2 && 0 <= k1 < ms[m1].bindings.base.spawned_entities@.len()
            && 0 <= k2 < ms[m2].bindings.base.spawned_entities@.len() ==> #[trigger] ms[m1].bindings.base.spawned_entities@[k1]
            != #[trigger] ms[m2].bindings.base.spawned_entities@[k2]
}

/// The four bytes every module's bytecode starts with.
pub open spec fn module_magic() -> Seq<u8> {
    seq![0u8, 0x61u8, 0x73u8, 0x6du8]
}

/// Whether `bytes` start with the bytecode magic, the first thing a module's
/// instantiation checks.
pub fn has_module_header(bytes: &Vec<u8>) -> (r: bool)
    ensures
        r == (bytes@.len() >= 4 && bytes@.subrange(0, 4) == module_magic()),
{
    if bytes.len() < 4 {
        return false;
    }
    let ok = bytes[0] == 0u8 && bytes[1] == 0x61u8 && bytes[2] == 0x73u8 && bytes[3] == 0x6du8;
    proof {
        if ok {
            assert(bytes@.subrange(0, 4) =~= module_magic());
        } else {
            if bytes@.subrange(0, 4) == module_magic() {
                assert(bytes@.subrange(0, 4)[0] == bytes@[0]);
                assert(bytes@.subrange(0, 4)[1] == bytes@[1]);
                assert(bytes@.subrange(0, 4)[2] == bytes@[2]);
                assert(bytes@.subrange(0, 4)[3] == bytes@[3]);
            }
        }
    }
    ok
}

/// `slots` with every listed entity despawned.
pub open spec fn cleared(slots: Seq<Option<Components>>, ids: Seq<u64>) -> Seq<Option<Components>> {
    Seq::new(slots.len(), |x: int| if ids.contains(x as u64) { None } else { slots[x] })
}

/// `subs` without the subscriptions of module `id`.
pub open spec fn drop_module(subs: Seq<(u64, String)>, id: u64) -> Seq<(u64, String)>
    decreases subs.len(),
{
    if subs.len() == 0 {
        Seq::empty()
    } else {
        let rest = drop_module(subs.drop_last(), id);
        if subs.last().0 == id {
            rest
        } else {
            rest.push(subs.last())
        }
    }
}

/// Whether module `id` subscribed to `name`.
pub open spec fn subscribed(subs: Seq<(u64, String)>, id: u64, name: Seq<char>) -> bool {
    exists|k: int| 0 <= k < subs.len() && (#[trigger] subs[k]).0 == id && subs[k].1@ == name
}

/// The modules subscribed to `name`, in the order they subscribed.
pub open spec fn subscribers_of(subs: Seq<(u64, String)>, name: Seq<char>) -> Seq<u64>
    decreases subs.len(),
{
    if subs.len() == 0 {
        Seq::empty()
    } else {
        let rest = subscribers_of(subs.drop_last(), name);
        if subs.last().1@ == name {
            rest.push(subs.last().0)
        } else {
            rest
        }
    }
}

proof fn lemma_joined_identifier(project: Seq<char>, stem: Seq<char>)
    requires
        is_identifier(project),
        is_identifier(stem),
    ensures
        is_identifier(project + "_"@ + stem),
{
    reveal_strlit("_");
    let s = project + "_"@ + stem;
    assert forall|i: int| 0 <= i < s.len() implies is_snake_char(#[trigger] s[i]) by {
        if i < project.len() {
            assert(s[i] == project[i]);
            if !is_snake_char(project[i]) {
                assert(identifier_error(project) is Some);
            }
        } else if i == project.len() {
            assert(s[i] == '_');
        } else {
            assert(s[i] == stem[i - project.len() - 1]);
            if !is_snake_char(stem[i - project.len() - 1]) {
                assert(identifier_error(stem) is Some);
            }
        }
    }
    assert(s[0] == project[0]);
}

/// Derives the name and description of the module built from the artifact
/// `stem`; fails when the stem is not an identifier.
pub fn derive_module_name(project: &Identifier, description: &String, stem: &str, sole: bool) -> (r: Result<
    (Identifier, String),
    &'static str,
>)
    ensures
        match identifier_error(stem@) {
            Some(e) => r is Err && r->Err_0@ == e.message_spec(),
            None => r is Ok && r->Ok_0.0@ == derived_name(project@, stem@, sole) && r->Ok_0.1@
                == derived_description(description@, stem@, sole) && (is_identifier(project@) ==> is_identifier(
                r->Ok_0.0@,
            )),
        },
{
    if let Some(e) = check_identifier(stem) {
        return Err(e.message());
    }
    if sole {
        return Ok((project.duplicate(), description.clone()));
    }
    let mut name = project.0.clone();
    name.append("_");
    name.append(stem);
    let mut text = description.clone();
    text.append(" (");
    text.append(stem);
    text.append(")");
    proof {
        if is_identifier(project@) {
            lemma_joined_identifier(project@, stem@);
        }
    }
    Ok((Identifier(name), text))
}

impl ModuleRegistry {
    pub fn new() -> (r: ModuleRegistry)
        ensures
            r.modules@.len() == 0,
            r.continuations@.len() == 0,
            r.subscriptions@.len() == 0,
    {
        ModuleRegistry { modules: Vec::new(), continuations: Vec::new(), subscriptions: Vec::new() }
    }

    /// Adds an enabled module without bytecode; its id is its position.
    pub fn spawn_module(&mut self, name: Identifier, description: String, side: Side) -> (r: u64)
        ensures
            r == old(self).modules@.len(),
            final(self).modules@.len() == old(self).modules@.len() + 1,
            final(self).modules@.drop_last() == old(self).modules@,
            fresh_module(final(self).modules@.last(), name@, description@, side),
            final(self).continuations == old(self).continuations,
            final(self).subscriptions == old(self).subscriptions,
            forall|n: nat| owns_disjoint(old(self).modules@, n) ==> #[trigger] owns_disjoint(final(self).modules@, n),
    {
        let id = self.modules.len() as u64;
        self.modules.push(
            Module {
                name,
                description,
                enabled: true,
                loaded: true,
                bytecode: Bytecode::Missing,
                reload: false,
                bindings: Bindings::new(side),
            },
        );
        assert(self.modules@.drop_last() =~= old(self).modules@);
        assert forall|m: int| 0 <= m < old(self).modules@.len() implies #[trigger] self.modules@[m] == old(self).modules@[m] by {
            assert(self.modules@.drop_last()[m] == self.modules@[m]);
        }
        id
    }

    /// Registers one module for each artifact stem of a build for `side`.
    /// An artifact whose stem is not an identifier is skipped with the
    /// reason; the others are registered all the same.
    pub fn register(&mut self, side: Side, project: &Identifier, description: &String, stems: &Vec<String>) -> (r: Vec<
        Result<u64, &'static str>,
    >)
        ensures
            r@.len() == stems@.len(),
            final(self).modules@.len() >= old(self).modules@.len(),
            final(self).modules@.subrange(0, old(self).modules@.len() as int) == old(self).modules@,
            final(self).continuations == old(self).continuations,
            final(self).subscriptions == old(self).subscriptions,
            forall|k: int|
                0 <= k < stems@.len() ==> match identifier_error((#[trigger] stems@[k])@) {
                    Some(e) => r@[k] is Err && r@[k]->Err_0@ == e.message_spec(),
                    None => {
                        &&& r@[k] is Ok
                        &&& old(self).modules@.len() <= r@[k]->Ok_0 < final(self).modules@.len()
                        &&& fresh_module(
                            final(self).modules@[r@[k]->Ok_0 as int],
                            derived_name(project@, stems@[k]@, stems@.len() == 1),
                            derived_description(description@, stems@[k]@, stems@.len() == 1),
                            side,
                        )
                        &&& is_identifier(project@) ==> is_identifier(derived_name(project@, stems@[k]@, stems@.len() == 1))
                    },
                },
            forall|k1: int, k2: int|
                0 <= k1 < k2 < stems@.len() && (#[trigger] r@[k1]) is Ok && (#[trigger] r@[k2]) is Ok ==> r@[k1]->Ok_0
                    < r@[k2]->Ok_0,
            forall|m: int|
                old(self).modules@.len() <= m < final(self).modules@.len() ==> #[trigger] registered_as(r@, m),
            forall|n: nat| owns_disjoint(old(self).modules@, n) ==> #[trigger] owns_disjoint(final(self).modules@, n),
    {
        let sole = stems.len() == 1;
        let mut r: Vec<Result<u64, &'static str>> = Vec::new();
        let mut i: usize = 0;
        while i < stems.len()
            invariant
                sole == (stems@.len() == 1),
                i <= stems@.len(),
                r@.len() == i,
                self.modules@.len() >= old(self).modules@.len(),
                self.modules@.subrange(0, old(self).modules@.len() as int) == old(self).modules@,
                self.continuations == old(self).continuations,
                self.subscriptions == old(self).subscriptions,
                forall|k: int|
                    0 <= k < i ==> match identifier_error((#[trigger] stems@[k])@) {
                        Some(e) => r@[k] is Err && r@[k]->Err_0@ == e.message_spec(),
                        None => {
                            &&& r@[k] is Ok
                            &&& old(self).modules@.len() <= r@[k]->Ok_0 < self.modules@.len()
                            &&& fresh_module(
                                self.modules@[r@[k]->Ok_0 as int],
                                derived_name(project@, stems@[k]@, sole),
                                derived_description(description@, stems@[k]@, sole),
                                side,
                            )
                            &&& is_identifier(project@) ==> is_identifier(derived_name(project@, stems@[k]@, sole))
                        },
                    },
                forall|k1: int, k2: int|
                    0 <= k1 < k2 < i && (#[trigger] r@[k1]) is Ok && (#[trigger] r@[k2]) is Ok ==> r@[k1]->Ok_0
                        < r@[k2]->Ok_0,
                forall|m: int| old(self).modules@.len() <= m < self.modules@.len() ==> #[trigger] registered_as(r@, m),
            decreases stems@.len() - i,
        {
            let derived = derive_module_name(project, description, stems[i].as_str(), sole);
            let ghost before = self.modules@;
            let ghost r_before = r@;
            match derived {
                Err(msg) => {
                    r.push(Err(msg));
                },
                Ok((name, text)) => {
                    let id = self.spawn_module(name, text, side);
                    r.push(Ok(id));
                    proof {
                        assert(self.modules@.drop_last() == before);
                        assert forall|j: int| 0 <= j < before.len() implies self.modules@[j] == before[j] by {
                            assert(self.modules@.drop_last()[j] == self.modules@[j]);
                        }
                        assert(self.modules@.subrange(0, old(self).modules@.len() as int) =~= before.subrange(
                            0,
                            old(self).modules@.len() as int,
                        ));
                    }
                },
            }
            proof {
                assert forall|k: int| 0 <= k < i implies r@[k] == r_before[k] by {}
                assert forall|m: int| old(self).modules@.len() <= m < self.modules@.len() implies #[trigger] registered_as(
                    r@,
                    m,
                ) by {
                    if m < before.len() {
                        assert(registered_as(r_before, m));
                        let k = choose|k: int| 0 <= k < r_before.len() && (#[trigger] r_before[k]) == Ok::<u64, &'static str>(m as u64);
                        assert(r@[k] == r_before[k]);
                    } else {
                        assert(r@[i as int] == Ok::<u64, &'static str>(m as u64));
                    }
                }
                assert forall|k: int| 0 <= k < i && (#[trigger] r@[k]) is Ok implies self.modules@[r@[k]->Ok_0 as int]
                    == before[r@[k]->Ok_0 as int] && r@[k]->Ok_0 < before.len() by {
                    assert(r_before[k] is Ok);
                    let _ = stems@[k];
                }
                assert forall|k: int| 0 <= k <= i implies match identifier_error((#[trigger] stems@[k])@) {
                    Some(e) => r@[k] is Err && r@[k]->Err_0@ == e.message_spec(),
                    None => {
                        &&& r@[k] is Ok
                        &&& old(self).modules@.len() <= r@[k]->Ok_0 < self.modules@.len()
                        &&& fresh_module(
                            self.modules@[r@[k]->Ok_0 as int],
                            derived_name(project@, stems@[k]@, sole),
                            derived_description(description@, stems@[k]@, sole),
                            side,
                        )
                        &&& is_identifier(project@) ==> is_identifier(derived_name(project@, stems@[k]@, sole))
                    },
                } by {
                    if k < i {
                        assert(r@[k] == r_before[k]);
                        if r_before[k] is Ok {
                            assert(self.modules@[r@[k]->Ok_0 as int] == before[r@[k]->Ok_0 as int]);
                        }
                    } else {
                        assert(r@[k] == r@[i as int]);
                        if r@[k] is Ok {
                            assert(self.modules@[r@[k]->Ok_0 as int] == self.modules@.last());
                        }
                    }
                }
            }
            i = i + 1;
        }
        proof {
            assert(self.modules.len() as int == self.modules@.len());
            let o = old(self).modules@.len() as int;
            assert forall|m: int| o <= m < self.modules@.len() implies (#[trigger] self.modules@[m]).bindings.base.spawned_entities@.len()
                == 0 by {
                assert(registered_as(r@, m));
                let k = choose|k: int| 0 <= k < r@.len() && (#[trigger] r@[k]) == Ok::<u64, &'static str>(m as u64);
                let _ = stems@[k];
            }
            assert forall|m: int| 0 <= m < o implies #[trigger] self.modules@[m] == old(self).modules@[m] by {
                assert(self.modules@.subrange(0, o)[m] == self.modules@[m]);
            }
        }
        r
    }

    pub open spec fn live_module(&self, id: u64) -> bool {
        id < self.modules@.len() && self.modules@[id as int].loaded
    }

    /// Stores `bytes` as the module's payload, to be instantiated before its
    /// next tick. False, and nothing done, for an unknown or unloaded module.
    pub fn attach_bytecode(&mut self, id: u64, bytes: Vec<u8>) -> (r: bool)
        ensures
            r == old(self).live_module(id),
            others_same(old(self).modules@, final(self).modules@, id as int),
            final(self).continuations == old(self).continuations,
            final(self).subscriptions == old(self).subscriptions,
            r ==> {
                let m = final(self).modules@[id as int];
                &&& same_identity(m, old(self).modules@[id as int])
                &&& m.bytecode == Bytecode::Bytes(bytes)
                &&& m.reload
            },
            !r ==> final(self).modules == old(self).modules,
    {
        if id >= self.modules.len() as u64 || !self.modules[id as usize].loaded {
            return false;
        }
        let i = id as usize;
        self.modules[i].bytecode = Bytecode::Bytes(bytes);
        self.modules[i].reload = true;
        true
    }

    /// Records the absolute URL that a client-side module's bytes will be
    /// fetched from. False, and nothing done, for an unknown, unloaded or
    /// server-side module.
    pub fn attach_bytecode_url(&mut self, id: u64, url: String) -> (r: bool)
        ensures
            r == (old(self).live_module(id) && old(self).modules@[id as int].bindings.side == Side::Client),
            others_same(old(self).modules@, final(self).modules@, id as int),
            final(self).continuations == old(self).continuations,
            final(self).subscriptions == old(self).subscriptions,
            r ==> {
                let m = final(self).modules@[id as int];
                &&& same_identity(m, old(self).modules@[id as int])
                &&& m.bytecode == Bytecode::Url(url)
                &&& m.reload == old(self).modules@[id as int].reload
            },
            !r ==> final(self).modules == old(self).modules,
    {
        if id >= self.modules.len() as u64 || !self.modules[id as usize].loaded {
            return false;
        }
        let i = id as usize;
        match self.modules[i].bindings.side {
            Side::Server => false,
            Side::Client => {
                self.modules[i].bytecode = Bytecode::Url(url);
                true
            },
        }
    }

    /// Queues fetched bytes for the next safe point.
    pub fn enqueue(&mut self, continuation: DeferredContinuation)
        ensures
            final(self).continuations@ == old(self).continuations@.push(continuation),
            final(self).modules == old(self).modules,
            final(self).subscriptions == old(self).subscriptions,
    {
        self.continuations.push(continuation);
    }

    /// Runs the queued continuations in order: each attaches its bytes to its
    /// module if that module is still loaded, and is dropped otherwise.
    pub fn drain_continuations(&mut self)
        ensures
            final(self).continuations@.len() == 0,
            final(self).subscriptions == old(self).subscriptions,
            final(self).modules@.len() == old(self).modules@.len(),
            drained(old(self).modules@, old(self).continuations@, final(self).modules@),
    {
        let ghost all = self.continuations@;
        let ghost start = self.modules@;
        let mut queue: Vec<DeferredContinuation> = Vec::new();
        std::mem::swap(&mut self.continuations, &mut queue);
        let ghost mut done: int = 0;
        while queue.len() > 0
            invariant
                0 <= done <= all.len(),
                queue@ == all.subrange(done, all.len() as int),
                self.continuations@.len() == 0,
                self.subscriptions == old(self).subscriptions,
                self.modules@.len() == start.len(),
                start == old(self).modules@,
                all == old(self).continuations@,
                forall|m: int|
                    0 <= m < start.len() ==> {
                        let before = start[m];
                        let after = #[trigger] self.modules@[m];
                        let p = last_payload(all.subrange(0, done), m as u64);
                        if before.loaded && p is Some {
                            same_identity(after, before) && payload(after) == p && after.reload
                        } else {
                            after == before
                        }
                    },
            decreases queue@.len(),
        {
            let ghost q0 = queue@;
            let c = queue.remove(0);
            assert(c == all[done]);
            let ghost prev = self.modules@;
            let id = c.module;
            if id < self.modules.len() as u64 && self.modules[id as usize].loaded {
                let i = id as usize;
                self.modules[i].bytecode = Bytecode::Bytes(c.bytecode);
                self.modules[i].reload = true;
            }
            proof {
                assert(all.subrange(0, done + 1).drop_last() =~= all.subrange(0, done));
                assert(all.subrange(0, done + 1).last() == all[done]);
                assert(queue@ =~= all.subrange(done + 1, all.len() as int));
                assert forall|m: int| 0 <= m < start.len() implies {
                    let before = start[m];
                    let after = #[trigger] self.modules@[m];
                    let p = last_payload(all.subrange(0, done + 1), m as u64);
                    if before.loaded && p is Some {
                        same_identity(after, before) && payload(after) == p && after.reload
                    } else {
                        after == before
                    }
                } by {
                    let p0 = last_payload(all.subrange(0, done), m as u64);
                    if m == all[done].module as int {
                        assert(prev[m].loaded == start[m].loaded);
                    } else {
                        assert(self.modules@[m] == prev[m]);
                    }
                }
                done = done + 1;
            }
        }
        assert(all.subrange(0, all.len() as int) =~= all);
    }

    /// Unloads module `id`: despawns every entity it spawned, drops its
    /// queries and subscriptions, detaches its bytecode and disables it.
    /// False, and nothing done, for an unknown or already unloaded module.
    pub fn unload(&mut self, world: &mut World, id: u64) -> (r: bool)
        requires
            old(world).wf(),
        ensures
            final(world).wf(),
            final(world).same_frame(old(world)),
            r == old(self).live_module(id),
            final(self).continuations == old(self).continuations,
            owns_disjoint(old(self).modules@, old(world).slots().len()) ==> owns_disjoint(
                final(self).modules@,
                final(world).slots().len(),
            ),
            !r ==> final(world).slots() == old(world).slots() && final(self).modules == old(self).modules
                && final(self).subscriptions == old(self).subscriptions,
            r ==> {
                let before = old(self).modules@[id as int];
                let after = final(self).modules@[id as int];
                let spawned = before.bindings.base.spawned_entities@;
                &&& final(world).slots() == cleared(old(world).slots(), spawned)
                &&& forall|k: int| 0 <= k < spawned.len() ==> !final(world).live(#[trigger] spawned[k])
                &&& others_same(old(self).modules@, final(self).modules@, id as int)
                &&& after.name == before.name
                &&& after.description == before.description
                &&& after.bindings.side == before.bindings.side
                &&& !after.loaded
                &&& !after.enabled
                &&& after.bytecode is Missing
                &&& !after.reload
                &&& after.bindings.wf()
                &&& after.bindings.base.spawned_entities@.len() == 0
                &&& after.bindings.base.query_states@.len() == 0
                &&& after.bindings.base.next_query == before.bindings.base.next_query
                &&& final(self).subscriptions@ == drop_module(old(self).subscriptions@, id)
            },
    {
        if id >= self.modules.len() as u64 || !self.modules[id as usize].loaded {
            return false;
        }
        let i = id as usize;
        let ghost w0 = world.slots();
        let ghost spawned = self.modules@[i as int].bindings.base.spawned_entities@;
        let mut k: usize = 0;
        assert(cleared(w0, spawned.subrange(0, 0)) =~= w0);
        while k < self.modules[i].bindings.base.spawned_entities.len()
            invariant
                i < self.modules@.len(),
                spawned == self.modules@[i as int].bindings.base.spawned_entities@,
                self.modules == old(self).modules,
                self.subscriptions == old(self).subscriptions,
                self.continuations == old(self).continuations,
                world.wf(),
                world.same_frame(old(world)),
                w0 == old(world).slots(),
                k <= spawned.len(),
                world.slots() == cleared(w0, spawned.subrange(0, k as int)),
            decreases spawned.len() - k,
        {
            let e = self.modules[i].bindings.base.spawned_entities[k];
            let ghost pre = world.slots();
            world.despawn(e);
            proof {
                let next = spawned.subrange(0, k + 1);
                assert(next =~= spawned.subrange(0, k as int).push(e));
                assert forall|x: int| 0 <= x < w0.len() implies (#[trigger] next.contains(x as u64) == (spawned.subrange(
                    0,
                    k as int,
                ).contains(x as u64) || x as u64 == e)) by {
                    if x as u64 == e {
                        assert(next[k as int] == e);
                    }
                    if spawned.subrange(0, k as int).contains(x as u64) {
                        let j = choose|j: int| 0 <= j < k && spawned.subrange(0, k as int)[j] == x as u64;
                        assert(next[j] == x as u64);
                    }
                    if next.contains(x as u64) && x as u64 != e {
                        let j = choose|j: int| 0 <= j < k + 1 && next[j] == x as u64;
                        assert(spawned.subrange(0, k as int)[j] == x as u64);
                    }
                }
                assert(world.slots() =~= cleared(w0, next));
            }
            k = k + 1;
        }
        proof {
            assert(spawned.subrange(0, spawned.len() as int) =~= spawned);
            assert forall|j: int| 0 <= j < spawned.len() implies !world.live(#[trigger] spawned[j]) by {
                assert(spawned.contains(spawned[j]));
                if spawned[j] < w0.len() {
                    assert(world.slots()[spawned[j] as int] is None);
                }
            }
        }
        self.modules[i].bindings.base.spawned_entities = Vec::new();
        self.modules[i].bindings.base.query_states = Vec::new();
        self.modules[i].bytecode = Bytecode::Missing;
        self.modules[i].reload = false;
        self.modules[i].enabled = false;
        self.modules[i].loaded = false;
        let kept = without_module(&self.subscriptions, id);
        self.subscriptions = kept;
        true
    }

    /// The name a module's diagnostics are attributed to.
    pub fn display_name(&self, id: u64) -> (r: Option<String>)
        ensures
            id < self.modules@.len() ==> r is Some && r->0@ == self.modules@[id as int].name@,
            id >= self.modules@.len() ==> r is None,
    {
        if id >= self.modules.len() as u64 {
            return None;
        }
        Some(self.modules[id as usize].name.0.clone())
    }

    /// Spawns an entity on behalf of module `id` and adds it to that
    /// module's spawned set.
    pub fn spawn_entity(&mut self, world: &mut World, id: u64, data: EntityData) -> (r: Result<u64, BindingError>)
        requires
            old(world).wf(),
            old(self).live_module(id),
            old(self).modules@[id as int].bindings.wf(),
        ensures
            final(world).wf(),
            final(world).same_frame(old(world)),
            spawn_post(*old(world), data@, *final(world), lower(r)),
            others_same(old(self).modules@, final(self).modules@, id as int),
            final(self).continuations == old(self).continuations,
            final(self).subscriptions == old(self).subscriptions,
            ({
                let before = old(self).modules@[id as int];
                let after = final(self).modules@[id as int];
                &&& after.name == before.name && after.description == before.description
                &&& after.enabled == before.enabled && after.loaded == before.loaded
                &&& after.bytecode == before.bytecode && after.reload == before.reload
                &&& after.bindings.wf()
                &&& after.bindings.side == before.bindings.side
                &&& after.bindings.base.query_states == before.bindings.base.query_states
                &&& after.bindings.base.spawned_entities@ == match r {
                    Ok(e) => if before.bindings.base.spawned_entities@.contains(e) {
                        before.bindings.base.spawned_entities@
                    } else {
                        before.bindings.base.spawned_entities@.push(e)
                    },
                    Err(_) => before.bindings.base.spawned_entities@,
                }
            }),
            owns_disjoint(old(self).modules@, old(world).slots().len()) ==> owns_disjoint(
                final(self).modules@,
                final(world).slots().len(),
            ),
            owns_disjoint(old(self).modules@, old(world).slots().len()) && r is Ok
                ==> final(self).modules@[id as int].bindings.base.spawned_entities@
                == old(self).modules@[id as int].bindings.base.spawned_entities@.push(r->Ok_0),
    {
        let count = self.modules.len();
        assert(id < count);
        let i = id as usize;
        let r = self.modules[i].bindings.spawn(world, data);
        proof {
            let ms = self.modules@;
            let o = old(self).modules@;
            let n0 = old(world).slots().len();
            if owns_disjoint(o, n0) {
                if r is Ok {
                    assert(r->Ok_0 >= n0);
                    let s0 = o[i as int].bindings.base.spawned_entities@;
                    if s0.contains(r->Ok_0) {
                        let k = choose|k: int| 0 <= k < s0.len() && s0[k] == r->Ok_0;
                        assert(o[i as int].bindings.base.spawned_entities@[k] < n0);
                    }
                }
                assert forall|m: int, k: int|
                    0 <= m < ms.len() && 0 <= k < ms[m].bindings.base.spawned_entities@.len() implies (#[trigger] ms[m].bindings.base.spawned_entities@[k])
                        < world.slots().len() by {
                    if m != i && k < o[m].bindings.base.spawned_entities@.len() {
                        assert(ms[m] == o[m]);
                    }
                    if m == i && k < o[m].bindings.base.spawned_entities@.len() {
                        assert(ms[m].bindings.base.spawned_entities@[k] == o[m].bindings.base.spawned_entities@[k]);
                    }
                }
                assert forall|m1: int, m2: int, k1: int, k2: int|
                    0 <= m1 < ms.len() && 0 <= m2 < ms.len() && m1 != m2 && 0 <= k1 < ms[m1].bindings.base.spawned_entities@.len()
                        && 0 <= k2 < ms[m2].bindings.base.spawned_entities@.len() implies #[trigger] ms[m1].bindings.base.spawned_entities@[k1]
                        != #[trigger] ms[m2].bindings.base.spawned_entities@[k2] by {
                    let a = ms[m1].bindings.base.spawned_entities@;
                    let b = ms[m2].bindings.base.spawned_entities@;
                    let a0 = o[m1].bindings.base.spawned_entities@;
                    let b0 = o[m2].bindings.base.spawned_entities@;
                    if m1 != i {
                        assert(a == a0);
                        assert(a[k1] < n0);
                    }
                    if m2 != i {
                        assert(b == b0);
                        assert(b[k2] < n0);
                    }
                    if m1 == i && k1 < a0.len() {
                        assert(a[k1] == a0[k1]);
                        assert(a[k1] < n0);
                    }
                    if m2 == i && k2 < b0.len() {
                        assert(b[k2] == b0[k2]);
                        assert(b[k2] < n0);
                    }
                }
            }
        }
        r
    }

    /// Despawns entity `e` on behalf of module `id`; true when it lived. It
    /// leaves the module's spawned set either way.
    pub fn despawn_entity(&mut self, world: &mut World, id: u64, e: u64) -> (r: bool)
        requires
            old(world).wf(),
            id < old(self).modules@.len(),
            old(self).modules@[id as int].bindings.wf(),
        ensures
            final(world).wf(),
            final(world).same_frame(old(world)),
            despawn_post(*old(world), e, *final(world), r),
            others_same(old(self).modules@, final(self).modules@, id as int),
            final(self).continuations == old(self).continuations,
            final(self).subscriptions == old(self).subscriptions,
            ({
                let before = old(self).modules@[id as int];
                let after = final(self).modules@[id as int];
                &&& after.name == before.name && after.description == before.description
                &&& after.enabled == before.enabled && after.loaded == before.loaded
                &&& after.bytecode == before.bytecode && after.reload == before.reload
                &&& after.bindings.wf()
                &&& after.bindings.side == before.bindings.side
                &&& after.bindings.base.query_states == before.bindings.base.query_states
                &&& after.bindings.base.spawned_entities@ == without(before.bindings.base.spawned_entities@, e)
            }),
            owns_disjoint(old(self).modules@, old(world).slots().len()) ==> owns_disjoint(
                final(self).modules@,
                final(world).slots().len(),
            ),
    {
        let count = self.modules.len();
        assert(id < count);
        let i = id as usize;
        let r = self.modules[i].bindings.despawn(world, e);
        proof {
            let ms = self.modules@;
            let o = old(self).modules@;
            let s0 = o[i as int].bindings.base.spawned_entities@;
            lemma_without_subset(s0, e);
            if owns_disjoint(o, old(world).slots().len()) {
                assert forall|k: int| 0 <= k < ms[i as int].bindings.base.spawned_entities@.len() implies exists|j: int|
                    0 <= j < s0.len() && s0[j] == #[trigger] ms[i as int].bindings.base.spawned_entities@[k] by {
                    assert(s0.contains(without(s0, e)[k]));
                }
                assert forall|m: int, k: int|
                    0 <= m < ms.len() && 0 <= k < ms[m].bindings.base.spawned_entities@.len() implies (#[trigger] ms[m].bindings.base.spawned_entities@[k])
                        < world.slots().len() by {
                    if m != i {
                        assert(ms[m] == o[m]);
                    } else {
                        let j = choose|j: int| 0 <= j < s0.len() && s0[j] == ms[i as int].bindings.base.spawned_entities@[k];
                        assert(o[m].bindings.base.spawned_entities@[j] < old(world).slots().len());
                    }
                }
                assert forall|m1: int, m2: int, k1: int, k2: int|
                    0 <= m1 < ms.len() && 0 <= m2 < ms.len() && m1 != m2 && 0 <= k1 < ms[m1].bindings.base.spawned_entities@.len()
                        && 0 <= k2 < ms[m2].bindings.base.spawned_entities@.len() implies #[trigger] ms[m1].bindings.base.spawned_entities@[k1]
                        != #[trigger] ms[m2].bindings.base.spawned_entities@[k2] by {
                    if m1 == i {
                        let j = choose|j: int| 0 <= j < s0.len() && s0[j] == ms[i as int].bindings.base.spawned_entities@[k1];
                        assert(ms[m2] == o[m2]);
                        assert(o[m1].bindings.base.spawned_entities@[j] != o[m2].bindings.base.spawned_entities@[k2]);
                    } else if m2 == i {
                        let j = choose|j: int| 0 <= j < s0.len() && s0[j] == ms[i as int].bindings.base.spawned_entities@[k2];
                        assert(ms[m1] == o[m1]);
                        assert(o[m1].bindings.base.spawned_entities@[k1] != o[m2].bindings.base.spawned_entities@[j]);
                    } else {
                        assert(ms[m1] == o[m1]);
                        assert(ms[m2] == o[m2]);
                    }
                }
            }
        }
        r
    }

    /// Enables or disables a module; its spawned state is kept.
    pub fn set_enabled(&mut self, id: u64, enabled: bool) -> (r: bool)
        ensures
            r == (id < old(self).modules@.len()),
            others_same(old(self).modules@, final(self).modules@, id as int),
            final(self).continuations == old(self).continuations,
            final(self).subscriptions == old(self).subscriptions,
            r ==> {
                let m = final(self).modules@[id as int];
                let b = old(self).modules@[id as int];
                &&& m.enabled == enabled
                &&& m.name == b.name && m.description == b.description && m.loaded == b.loaded
                &&& m.bindings == b.bindings && m.bytecode == b.bytecode && m.reload == b.reload
            },
            !r ==> final(self).modules == old(self).modules,
    {
        if id >= self.modules.len() as u64 {
            return false;
        }
        self.modules[id as usize].enabled = enabled;
        true
    }

    /// A module faulted during its tick: it is disabled, the others run on.
    pub fn record_fault(&mut self, id: u64) -> (r: bool)
        ensures
            r == (id < old(self).modules@.len()),
            others_same(old(self).modules@, final(self).modules@, id as int),
            final(self).continuations == old(self).continuations,
            final(self).subscriptions == old(self).subscriptions,
            r ==> {
                let m = final(self).modules@[id as int];
                let b = old(self).modules@[id as int];
                &&& !m.enabled
                &&& m.name == b.name && m.description == b.description && m.loaded == b.loaded
                &&& m.bindings == b.bindings && m.bytecode == b.bytecode && m.reload == b.reload
            },
            !r ==> final(self).modules == old(self).modules,
    {
        self.set_enabled(id, false)
    }

    /// Clears and returns the module's reload flag, telling the scheduler
    /// whether to instantiate it anew before ticking it.
    pub fn take_reload(&mut self, id: u64) -> (r: bool)
        ensures
            r == (id < old(self).modules@.len() && old(self).modules@[id as int].reload),
            others_same(old(self).modules@, final(self).modules@, id as int),
            final(self).continuations == old(self).continuations,
            final(self).subscriptions == old(self).subscriptions,
            id < old(self).modules@.len() ==> {
                let m = final(self).modules@[id as int];
                let b = old(self).modules@[id as int];
                &&& !m.reload
                &&& same_identity(m, b)
                &&& m.bytecode == b.bytecode
            },
            id >= old(self).modules@.len() ==> final(self).modules == old(self).modules,
    {
        if id >= self.modules.len() as u64 {
            return false;
        }
        let i = id as usize;
        let r = self.modules[i].reload;
        self.modules[i].reload = false;
        r
    }

    /// The modules to tick this update, in registration order.
    pub fn tick_order(&self) -> (r: Vec<u64>)
        ensures
            r@ == runnable_ids(self.modules@, self.modules@.len()),
    {
        let mut r: Vec<u64> = Vec::new();
        let mut i: usize = 0;
        while i < self.modules.len()
            invariant
                i <= self.modules@.len(),
                r@ == runnable_ids(self.modules@, i as nat),
            decreases self.modules@.len() - i,
        {
            let m = &self.modules[i];
            let ready = match m.bytecode {
                Bytecode::Bytes(_) => true,
                _ => false,
            };
            if m.loaded && m.enabled && ready {
                r.push(i as u64);
            }
            i = i + 1;
        }
        r
    }

    /// Subscribes a loaded module to the events named `name`; subscribing
    /// twice changes nothing. True when the subscription is new.
    pub fn subscribe(&mut self, id: u64, name: String) -> (r: bool)
        ensures
            r == (old(self).live_module(id) && !subscribed(old(self).subscriptions@, id, name@)),
            final(self).subscriptions@ == if r {
                old(self).subscriptions@.push((id, name))
            } else {
                old(self).subscriptions@
            },
            final(self).modules == old(self).modules,
            final(self).continuations == old(self).continuations,
    {
        if id >= self.modules.len() as u64 || !self.modules[id as usize].loaded {
            return false;
        }
        let mut k: usize = 0;
        while k < self.subscriptions.len()
            invariant
                k <= self.subscriptions@.len(),
                forall|j: int| 0 <= j < k ==> !((#[trigger] self.subscriptions@[j]).0 == id
                    && self.subscriptions@[j].1@ == name@),
            decreases self.subscriptions@.len() - k,
        {
            if self.subscriptions[k].0 == id && self.subscriptions[k].1 == name {
                return false;
            }
            k = k + 1;
        }
        self.subscriptions.push((id, name));
        true
    }

    /// The modules subscribed to `name`, in the order they subscribed.
    pub fn subscribers(&self, name: &String) -> (r: Vec<u64>)
        ensures
            r@ == subscribers_of(self.subscriptions@, name@),
    {
        let mut r: Vec<u64> = Vec::new();
        let mut k: usize = 0;
        while k < self.subscriptions.len()
            invariant
                k <= self.subscriptions@.len(),
                r@ == subscribers_of(self.subscriptions@.subrange(0, k as int), name@),
            decreases self.subscriptions@.len() - k,
        {
            assert(self.subscriptions@.subrange(0, k + 1).drop_last() =~= self.subscriptions@.subrange(0, k as int));
            if self.subscriptions[k].1 == *name {
                r.push(self.subscriptions[k].0);
            }
            k = k + 1;
        }
        assert(self.subscriptions@.subrange(0, self.subscriptions@.len() as int) =~= self.subscriptions@);
        r
    }

    /// For each event, the modules it is delivered to: those subscribed to
    /// its name, in the order they subscribed.
    pub fn deliveries(&self, events: &Vec<Event>) -> (r: Vec<Vec<u64>>)
        ensures
            r@.len() == events@.len(),
            forall|i: int|
                0 <= i < events@.len() ==> (#[trigger] r@[i])@ == subscribers_of(self.subscriptions@, events@[i].name@),
    {
        let mut r: Vec<Vec<u64>> = Vec::new();
        let mut i: usize = 0;
        while i < events.len()
            invariant
                i <= events@.len(),
                r@.len() == i,
                forall|j: int| 0 <= j < i ==> (#[trigger] r@[j])@ == subscribers_of(self.subscriptions@, events@[j].name@),
            decreases events@.len() - i,
        {
            r.push(self.subscribers(&events[i].name));
            i = i + 1;
        }
        r
    }
}

fn without_module(subs: &Vec<(u64, String)>, id: u64) -> (r: Vec<(u64, String)>)
    ensures
        r@ == drop_module(subs@, id),
{
    let mut r: Vec<(u64, String)> = Vec::new();
    let mut k: usize = 0;
    while k < subs.len()
        invariant
            k <= subs@.len(),
            r@ == drop_module(subs@.subrange(0, k as int), id),
        decreases subs@.len() - k,
    {
        assert(subs@.subrange(0, k + 1).drop_last() =~= subs@.subrange(0, k as int));
        if subs[k].0 != id {
            let name = subs[k].1.clone();
            r.push((subs[k].0, name));
            assert(r@.last() == subs@[k as int]);
        }
        k = k + 1;
    }
    assert(subs@.subrange(0, subs@.len() as int) =~= subs@);
    r
}

} // verus!
