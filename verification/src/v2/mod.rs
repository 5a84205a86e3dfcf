//! Version-2 typed wire contract and the state machines behind it.
//!
//! Decoding checks representation and context-free invariants. Session identity,
//! authorization, negotiated budgets and retained-state commitments still require
//! validation by the authority or the client before a message can affect durable state.

pub mod authority;
pub mod client;
pub mod commitments;
pub mod correlation;
pub mod dialogue;
pub mod error;
pub mod fixture;
pub mod labels;
pub mod locators;
pub mod messages;
pub mod negotiation;
pub mod numbers;
pub mod records;
pub mod rehearsal;
pub mod roots;
pub mod shapes;
pub mod transfer;
pub mod uri;
pub mod wire;
