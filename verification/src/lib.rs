//! Stop hook for message-driven agent sessions.
//!
//! An agent asks a hook, whenever it stops, whether its session goes on. [`hook`] answers with the
//! next message of an [`inbox`], keeps it recorded in flight until the agent has answered
//! ([`in_flight`]), and [`recover`] settles what a dead session left behind. All of them work on a
//! [`session_dir`]; [`session`] states what holds of them together.
//!
//! [`pty`], [`idle`], [`reader`], [`ring_log`] and [`launch`] are the decisions behind running an
//! agent in a pseudo-terminal.

pub mod calendar;
pub mod error;
pub mod hook;
pub mod idle;
pub mod in_flight;
pub mod inbox;
pub mod json;
pub mod json_grammar;
pub mod launch;
pub mod paths;
pub mod pty;
pub mod reader;
pub mod recover;
pub mod ring_log;
pub mod session;
pub mod session_dir;
pub mod text;

pub use error::HeartbeatError;
