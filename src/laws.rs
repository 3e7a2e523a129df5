//! Properties that relate several operations of the library.
use vstd::prelude::*;
use crate::bindings::{QueryBuild, QueryEvent, QueryRow, QueryState, changed_ids, matching_ids, reported_ids, row_matches};
use crate::registry::{Module, DeferredContinuation, derived_name, drained, last_payload, runnable, runnable_ids, cleared};
use crate::value::ComponentValue;
use crate::world::{Components, World, apply_data, data_error, despawn_post, no_components, spawn_post};

verus! {

/// Modules built from two or more artifacts with distinct stems get distinct
/// names, each the project's identifier joined to its stem by `_`; a sole
/// artifact's module takes the project's identifier itself.
pub proof fn law_module_names(project: Seq<char>, stems: Seq<Seq<char>>)
    requires
        forall|i: int, j: int| 0 <= i < j < stems.len() ==> stems[i] != stems[j],
    ensures
        stems.len() > 1 ==> forall|i: int, j: int|
            0 <= i < j < stems.len() ==> #[trigger] derived_name(project, stems[i], false) != #[trigger] derived_name(
                project,
                stems[j],
                false,
            ),
        forall|i: int| 0 <= i < stems.len() ==> #[trigger] derived_name(project, stems[i], false) == project + "_"@ + stems[i],
        forall|s: Seq<char>| #[trigger] derived_name(project, s, true) == project,
{
    assert forall|i: int, j: int|
        0 <= i < j < stems.len() implies #[trigger] derived_name(project, stems[i], false) != #[trigger] derived_name(
        project,
        stems[j],
        false,
    ) by {
        let a = derived_name(project, stems[i], false);
        let b = derived_name(project, stems[j], false);
        let k = project.len() + "_"@.len();
        if a == b {
            assert(a.subrange(k as int, a.len() as int) =~= stems[i]);
            assert(b.subrange(k as int, b.len() as int) =~= stems[j]);
        }
    }
}

/// Despawning a freshly spawned entity succeeds once; a second despawn of
/// the same id returns false.
pub proof fn law_despawn_once(
    w0: World,
    data: Seq<(u32, ComponentValue)>,
    w1: World,
    id: u64,
    w2: World,
    first: bool,
    w3: World,
    second: bool,
)
    requires
        w0.wf(),
        spawn_post(w0, data, w1, Ok(id)),
        despawn_post(w1, id, w2, first),
        despawn_post(w2, id, w3, second),
    ensures
        first,
        !second,
{
    if data_error(w0.types(), data) is Some {
        assert(false);
    }
}

/// An id that a spawn returned is never returned again: a later spawn, on a
/// world that kept every id allocated since, returns a greater one. So no
/// entity can enter the spawned sets of two modules.
pub proof fn law_spawn_ids_never_reused(
    w0: World,
    d0: Seq<(u32, ComponentValue)>,
    w1: World,
    a: u64,
    w2: World,
    d1: Seq<(u32, ComponentValue)>,
    w3: World,
    b: u64,
)
    requires
        w0.wf(),
        w2.wf(),
        spawn_post(w0, d0, w1, Ok(a)),
        w1.slots().len() <= w2.slots().len(),
        spawn_post(w2, d1, w3, Ok(b)),
    ensures
        a < b,
{
    if data_error(w0.types(), d0) is Some || data_error(w2.types(), d1) is Some {
        assert(false);
    }
}

/// With no live entity in `lo..n` selected, `matching_ids` is empty.
proof fn lemma_matching_ids_none(s: Seq<Option<Components>>, q: &QueryBuild, lo: nat, n: nat)
    requires
        forall|x: int| lo <= x < n ==> !(#[trigger] s[x] is Some && row_matches(s[x]->0, q)),
    ensures
        matching_ids(s, q, lo, n) == Seq::<u64>::empty(),
    decreases n,
{
    if n > lo {
        lemma_matching_ids_none(s, q, lo, (n - 1) as nat);
    }
}

/// With `id` the only live entity in `lo..n` selected, `matching_ids` lists
/// it alone.
proof fn lemma_matching_ids_single(s: Seq<Option<Components>>, q: &QueryBuild, lo: nat, n: nat, id: u64)
    requires
        n <= u64::MAX,
        lo <= id,
        forall|x: int| lo <= x < n && x != id ==> !(#[trigger] s[x] is Some && row_matches(s[x]->0, q)),
        id < n ==> s[id as int] is Some && row_matches(s[id as int]->0, q),
    ensures
        matching_ids(s, q, lo, n) == if id < n {
            seq![id]
        } else {
            Seq::<u64>::empty()
        },
    decreases n,
{
    if n > lo {
        lemma_matching_ids_single(s, q, lo, (n - 1) as nat, id);
        if n - 1 == id {
            assert(Seq::<u64>::empty().push(id) =~= seq![id]);
        }
    }
}

/// Against an empty snapshot, every selected entity counts as changed.
proof fn lemma_changed_ids_empty_snapshot(w: World, q: &QueryBuild, snap: Seq<QueryRow>, n: nat)
    requires
        snap.len() == 0,
    ensures
        changed_ids(w, q, snap, n) == matching_ids(w.slots(), q, 0, n),
    decreases n,
{
    if n > 0 {
        lemma_changed_ids_empty_snapshot(w, q, snap, (n - 1) as nat);
    }
}

/// A query evaluated while no entity matches it reports nothing, whatever
/// its trigger: a despawn query has seen no entity yet, a change query none
/// that it selects.
pub proof fn law_query_empty_before_match(w: World, st: &QueryState)
    requires
        w.wf(),
        st.last@.len() == 0,
        forall|x: int| 0 <= x < w.slots().len() ==> !(#[trigger] w.slots()[x] is Some && row_matches(w.slots()[x]->0, &st.query)),
    ensures
        reported_ids(w, st) == Seq::<u64>::empty(),
{
    let n = w.slots().len();
    lemma_matching_ids_none(w.slots(), &st.query, 0, n);
    lemma_matching_ids_none(w.slots(), &st.query, st.seen as nat, n);
    lemma_changed_ids_none(w, &st.query, st.snapshot@, n);
    assert(st.last@ =~= Seq::<u64>::empty());
}

proof fn lemma_changed_ids_none(w: World, q: &QueryBuild, snap: Seq<QueryRow>, n: nat)
    requires
        forall|x: int| 0 <= x < n ==> !(#[trigger] w.slots()[x] is Some && row_matches(w.slots()[x]->0, q)),
    ensures
        changed_ids(w, q, snap, n) == Seq::<u64>::empty(),
    decreases n,
{
    if n > 0 {
        lemma_changed_ids_none(w, q, snap, (n - 1) as nat);
    }
}

/// After a query was evaluated while no entity matched (so it has seen no
/// id from the current ones on, and holds an empty snapshot), spawning an
/// entity that it selects makes the next evaluation report exactly that
/// entity, for every trigger but the despawn one.
pub proof fn law_query_sees_spawn(w0: World, st: &QueryState, data: Seq<(u32, ComponentValue)>, w1: World, id: u64)
    requires
        w0.wf(),
        st.event != QueryEvent::Despawn,
        st.seen <= w0.slots().len(),
        st.snapshot@.len() == 0,
        forall|x: int| 0 <= x < w0.slots().len() ==> !(#[trigger] w0.slots()[x] is Some && row_matches(w0.slots()[x]->0, &st.query)),
        spawn_post(w0, data, w1, Ok(id)),
        w1.wf(),
        row_matches(apply_data(no_components(w0.types().len()), data), &st.query),
    ensures
        reported_ids(w1, st) == seq![id],
{
    if data_error(w0.types(), data) is Some {
        assert(false);
    }
    let s1 = w1.slots();
    let n1 = s1.len();
    assert forall|x: int| 0 <= x < n1 && x != id implies !(#[trigger] s1[x] is Some && row_matches(s1[x]->0, &st.query)) by {
        if x < w0.slots().len() {
            assert(s1[x] == w0.slots()[x]);
        }
    }
    lemma_matching_ids_single(s1, &st.query, 0, n1, id);
    lemma_matching_ids_single(s1, &st.query, st.seen as nat, n1, id);
    lemma_changed_ids_empty_snapshot(w1, &st.query, st.snapshot@, n1);
}

/// After an unload despawned the entities a module spawned, none of them
/// lives and no component of theirs can be read.
pub proof fn law_unloaded_entities_gone(w0: World, spawned: Seq<u64>, w1: World)
    requires
        w1.slots() == cleared(w0.slots(), spawned),
        w1.types() == w0.types(),
    ensures
        forall|k: int, c: u32| 0 <= k < spawned.len() ==> !w1.live(#[trigger] spawned[k]) && (#[trigger] w1.value_of(spawned[k], c)) is None,
{
    assert forall|k: int, c: u32| 0 <= k < spawned.len() implies !w1.live(#[trigger] spawned[k]) && (#[trigger] w1.value_of(spawned[k], c)) is None by {
        assert(spawned.contains(spawned[k]));
    }
}

proof fn lemma_runnable_ids_contains(ms: Seq<Module>, n: nat, b: int)
    requires
        0 <= b < n <= ms.len(),
        n <= u64::MAX,
        runnable(ms[b]),
    ensures
        runnable_ids(ms, n).contains(b as u64),
    decreases n,
{
    if b < n - 1 {
        lemma_runnable_ids_contains(ms, (n - 1) as nat, b);
        let rest = runnable_ids(ms, (n - 1) as nat);
        let j = choose|j: int| 0 <= j < rest.len() && rest[j] == b as u64;
        if runnable(ms[n - 1]) {
            assert(runnable_ids(ms, n)[j] == b as u64);
        }
    } else {
        let rest = runnable_ids(ms, (n - 1) as nat);
        assert(runnable_ids(ms, n)[rest.len() as int] == b as u64);
    }
}

/// A module whose fetch failed has no continuation queued; draining the
/// queue leaves it as it was, while a sibling module whose bytes arrived
/// becomes runnable and is in the next tick order.
pub proof fn law_fetch_failure_isolated(
    before: Seq<Module>,
    cs: Seq<DeferredContinuation>,
    after: Seq<Module>,
    a: u64,
    b: u64,
)
    requires
        drained(before, cs, after),
        before.len() <= u64::MAX,
        a < before.len(),
        b < before.len(),
        last_payload(cs, a) is None,
        last_payload(cs, b) is Some,
        before[b as int].loaded,
        before[b as int].enabled,
    ensures
        after[a as int] == before[a as int],
        runnable(after[b as int]),
        runnable_ids(after, after.len()).contains(b),
{
    let _ = after[a as int];
    let _ = after[b as int];
    assert(runnable(after[b as int])) by {
        assert(crate::registry::payload(after[b as int]) is Some);
    }
    lemma_runnable_ids_contains(after, after.len(), b as int);
}

} // verus!
