//! Run a child in a PTY and answer its permission dialogs.
//!
//! Every byte the child writes goes to the terminal untouched. In parallel the
//! wrapper scores a rolling copy of that output against the shape of a
//! permission dialog, and when the score crosses the threshold it answers,
//! after a countdown that can be cancelled, adjusted or turned off.
//!
//! Nothing here does I/O, reads a clock or starts a thread: time and bytes come
//! in as values, and what is to be written goes out as values.
//!
//! - [`detector`] scores text, by the patterns of [`pattern`].
//! - [`engine`] decides; [`model`] says what it decides.
//! - [`input`] splits the user's bytes into keys and terminal reports.
//! - [`terminal`] keeps the status row out of the child's reach.
//! - [`session`] puts the engine and the terminal together.
//! - [`debug`] words the debug log.
//! - [`verdict_laws`], [`detector_laws`], [`key_laws`], [`turn_laws`],
//!   [`screen_laws`] and [`engine_laws`] state what holds throughout.

use vstd::prelude::*;

pub mod debug;
pub mod detector;
pub mod detector_laws;
pub mod engine;
pub mod engine_laws;
pub mod events;
pub mod input;
pub mod key_laws;
pub mod model;
pub mod pattern;
pub mod screen_laws;
pub mod session;
pub mod terminal;
pub mod text;
pub mod turn_laws;
pub mod verdict_laws;

verus! {

/// Deliberately discard a result there is genuinely nothing to do with.
///
/// A dropped error is a silent failure. This says the dropping is the decision,
/// and makes every such site one `grep` away.
///
/// Only two situations qualify. Inside `Drop`, where there is no caller to tell
/// and the terminal must still be handed back. And on a best-effort write to a
/// child that is already going away, where the loop is about to see the end of
/// its output and report the real outcome anyway.
pub fn ignore<T, E>(result: Result<T, E>) {
    let _ = result;
}

}
