//! Byte-stuffing framing for a process wrapper: an encoder that turns a raw
//! chunk into one self-delimited frame, a streaming decoder, and the decisions
//! that drive the two pipe workers and the wrapper's exit status.

pub mod codec;
pub mod decoder;
pub mod laws;
pub mod session;

pub use codec::{encap, ESC, EESC, EOF, SOB, EOB, ESOB, EEOB};
pub use decoder::{State, Signal, Decapper};
pub use session::{FALLBACK_CODE, ExitOutcome, InputEvent, AbortReason, InputAction, input_action, exit_code, eof_permission};
