//! A conversation with a chat-completion API, held in a plain text file.
//!
//! The user writes a prompt under a marker line, the file changes, the
//! conversation so far is sent to the API, and the reply is appended under
//! another marker. This library is the part that decides: it reads the
//! transcript, resolves the directives in the prompts, expands placeholders
//! from what it is told of the file system, and drives a turn through its
//! requests. It does no input or output of its own.
//!
//! - [`transcript`] reads the file into messages and writes the blocks that
//!   are appended to it; [`roundtrip`] shows that what was written is read
//!   back.
//! - [`directive`] takes the directives that override a parameter of the turn
//!   out of the prompts; [`pattern`] finds them.
//! - [`expand`] finds the placeholders for files and directories and puts
//!   their expansions in their place; [`listing`] writes the expansions, in
//!   the order that [`order`] gives.
//! - [`request`] recognises a reply that asks for files.
//! - [`orchestrator`] is the state machine of a turn.
//! - [`level`] knows the token-budget levels, [`watch`] when the file has
//!   changed, and [`text`] what both are made of.

pub mod directive;
pub mod expand;
pub mod level;
pub mod listing;
pub mod orchestrator;
pub mod order;
pub mod pattern;
pub mod request;
pub mod roundtrip;
pub mod text;
pub mod transcript;
pub mod watch;
