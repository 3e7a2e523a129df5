//! Host side of a sandboxed guest-module runtime: module identifiers, the
//! typed values that cross the host/guest boundary, a world store, the
//! capability-checked binding layer, the module registry and the messenger.
pub mod identifier;
pub mod value;
pub mod world;
pub mod bindings;
pub mod physics;
pub mod player;
pub mod window;
pub mod registry;
pub mod messenger;
pub mod laws;
