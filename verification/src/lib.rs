//! A template-driven command router.
//!
//! Command templates such as `?config set key={} value={}` are compiled into a
//! single shared finite automaton. Each incoming message is matched against
//! that automaton in one linear scan; on acceptance the router reports the
//! handler bound to the matched template together with the named parameter
//! values captured from the input.

pub mod commands;
pub mod state_machine;
