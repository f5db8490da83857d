//! A bounded store of refreshable session credentials, together with the
//! decision logic of the expiry scheduler that keeps them alive.
//!
//! The store keeps three collections — users, credentials ("tokens"), and an
//! ordered expiry index — linked by an invariant: every token has exactly one
//! index entry keyed by its deadline, a user owns at most three tokens, and no
//! two of a user's tokens share a primary secret. The scheduler queries the
//! soonest deadline, asks an external collaborator to refresh the session, and
//! writes the outcome back.

pub mod db;
pub mod model;
pub mod session;
pub mod updater;



