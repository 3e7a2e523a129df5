//! Raw player input and server asset URLs, which only server-side modules may
//! read. Called from a client-side module they fail with
//! `BindingError::Unsupported`.
use vstd::prelude::*;
use crate::bindings::{BindingError, Bindings, Side, unsupported};
use crate::value::{ComponentValue, same_value};
use crate::world::World;

verus! {

/// A client-side module gets `Unsupported`; a server-side module gets the
/// value of component `c` on entity `player`, if there is one.
pub open spec fn read_for_server(
    bindings: &Bindings,
    world: &World,
    player: u64,
    c: u32,
    r: Result<Option<ComponentValue>, BindingError>,
) -> bool {
    match bindings.side {
        Side::Client => r == Err::<Option<ComponentValue>, BindingError>(BindingError::Unsupported),
        Side::Server => match world.value_of(player, c) {
            Some(v) => r is Ok && r->Ok_0 is Some && same_value(r->Ok_0->0, v),
            None => r == Ok::<Option<ComponentValue>, BindingError>(None),
        },
    }
}

fn read_component(bindings: &Bindings, world: &World, player: u64, c: u32) -> (r: Result<Option<ComponentValue>, BindingError>)
    requires
        world.wf(),
    ensures
        read_for_server(bindings, world, player, c, r),
{
    match bindings.side {
        Side::Client => unsupported(),
        Side::Server => match world.get(player, c) {
            Ok(v) => Ok(Some(v)),
            Err(_) => Ok(None),
        },
    }
}

/// The player's raw input of this frame, which the host keeps in component
/// `input` of the player entity.
pub fn get_raw_input(bindings: &Bindings, world: &World, player: u64, input: u32) -> (r: Result<
    Option<ComponentValue>,
    BindingError,
>)
    requires
        world.wf(),
    ensures
        read_for_server(bindings, world, player, input, r),
{
    read_component(bindings, world, player, input)
}

/// The player's raw input of the previous frame, which the host keeps in
/// component `prev_input` of the player entity.
pub fn get_prev_raw_input(bindings: &Bindings, world: &World, player: u64, prev_input: u32) -> (r: Result<
    Option<ComponentValue>,
    BindingError,
>)
    requires
        world.wf(),
    ensures
        read_for_server(bindings, world, player, prev_input, r),
{
    read_component(bindings, world, player, prev_input)
}

/// The URL of a server asset: its path appended to the server's base URL,
/// which ends with `/`.
pub fn url(bindings: &Bindings, base_url: &str, path: &str) -> (r: Result<Option<String>, BindingError>)
    ensures
        bindings.side == Side::Client ==> r == Err::<Option<String>, BindingError>(BindingError::Unsupported),
        bindings.side == Side::Server ==> r is Ok && r->Ok_0 is Some && r->Ok_0->0@ == base_url@ + path@,
{
    match bindings.side {
        Side::Client => unsupported(),
        Side::Server => {
            let mut s = String::from_str(base_url);
            s.append(path);
            Ok(Some(s))
        },
    }
}

} // verus!
