//! Physics requests, which only server-side modules may make. Called from a
//! client-side module they fail with `BindingError::Unsupported`.
use vstd::prelude::*;
use crate::bindings::{BindingError, Bindings, PhysicsCommand, Side, Vec3Bits, unsupported};

verus! {

/// A client-side module's bindings are left as they were; a server-side
/// module's request is queued.
pub open spec fn queued(old: &Bindings, new: &Bindings, r: Result<(), BindingError>, cmd: PhysicsCommand) -> bool {
    &&& new.side == old.side
    &&& new.base == old.base
    &&& match old.side {
        Side::Client => r == Err::<(), BindingError>(BindingError::Unsupported) && new.physics == old.physics,
        Side::Server => r == Ok::<(), BindingError>(()) && new.physics@ == old.physics@.push(cmd),
    }
}

fn request(bindings: &mut Bindings, cmd: PhysicsCommand) -> (r: Result<(), BindingError>)
    ensures
        queued(old(bindings), final(bindings), r, cmd),
{
    match bindings.side {
        Side::Client => unsupported(),
        Side::Server => {
            bindings.physics.push(cmd);
            Ok(())
        },
    }
}

/// Applies `force` to each of `entities`.
pub fn apply_force(bindings: &mut Bindings, entities: Vec<u64>, force: Vec3Bits) -> (r: Result<(), BindingError>)
    ensures
        queued(old(bindings), final(bindings), r, PhysicsCommand::ApplyForce { entities, force }),
{
    request(bindings, PhysicsCommand::ApplyForce { entities, force })
}

/// Sets the gravity of the whole world.
pub fn set_gravity(bindings: &mut Bindings, gravity: Vec3Bits) -> (r: Result<(), BindingError>)
    ensures
        queued(old(bindings), final(bindings), r, PhysicsCommand::SetGravity(gravity)),
{
    request(bindings, PhysicsCommand::SetGravity(gravity))
}

/// Lets a frozen entity move again.
pub fn unfreeze(bindings: &mut Bindings, entity: u64) -> (r: Result<(), BindingError>)
    ensures
        queued(old(bindings), final(bindings), r, PhysicsCommand::Unfreeze(entity)),
{
    request(bindings, PhysicsCommand::Unfreeze(entity))
}

/// Keeps an entity from moving.
pub fn freeze(bindings: &mut Bindings, entity: u64) -> (r: Result<(), BindingError>)
    ensures
        queued(old(bindings), final(bindings), r, PhysicsCommand::Freeze(entity)),
{
    request(bindings, PhysicsCommand::Freeze(entity))
}

/// Stops the motor on an entity.
pub fn stop_motor(bindings: &mut Bindings, entity: u64) -> (r: Result<(), BindingError>)
    ensures
        queued(old(bindings), final(bindings), r, PhysicsCommand::StopMotor(entity)),
{
    request(bindings, PhysicsCommand::StopMotor(entity))
}

} // verus!
