//! A SWIM membership and failure-detection protocol core: a state machine
//! without I/O that takes in messages and timer expiries and queues effects.

pub mod builder;
mod builtin_effect_store;
mod builtin_member_store;
pub mod dissemination;
mod effects;
mod error;
pub mod laws;
mod member;
pub mod member_store;
mod message;
pub mod realization;
pub mod model;
pub mod vigie;

pub use builder::{BuilderSettings, VigieBuilder};
pub use builtin_effect_store::BuiltinEffectStore;
pub use builtin_member_store::BuiltinMemberStore;
pub use effects::{Effect, EffectStore};
pub use error::VigieError;
pub use member::{Member, MemberStatus, MembershipEntry, MembershipEvent};
pub use member_store::MemberStore;
pub use message::Message;
pub use vigie::{Vigie, VigieState};
