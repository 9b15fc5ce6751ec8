//! Pure, verified decisions for a shared multi-agent conversation.

pub mod agents;
pub mod aside;
pub mod budget;
pub mod desk;
pub mod dispatch;
pub mod error;
pub mod exchange;
pub mod masking;
pub mod masking_laws;
pub mod mention;
pub mod responder;
pub mod roster;
pub mod text;
