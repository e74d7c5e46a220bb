use vstd::prelude::*;
use crate::decoder::Signal;

verus! {

/// Exit code of the wrapper on every failure that has no code of its own.
pub const FALLBACK_CODE: i32 = 1;

/// How the child process ended, as its wait reported it.
#[derive(Clone, Copy, Debug, PartialEq, Eq, Structural)]
pub enum ExitOutcome {
    /// Normal exit with the given code.
    Exited(i32),
    /// Terminated by the given signal.
    Signaled(i32),
    /// Neither an exit code nor a signal could be told.
    Unknown,
}

/// What the input worker learnt from its last read.
#[derive(Clone, Copy, Debug, PartialEq, Eq, Structural)]
pub enum InputEvent {
    /// The wrapper's stdin gave a zero-length read.
    Closed,
    /// A chunk was decoded; `forwarded` tells whether the decoded bytes
    /// reached the child's stdin (true when there were none to write).
    Chunk { signal: Signal, forwarded: bool },
}

/// Why the input worker gave up on the session.
#[derive(Clone, Copy, Debug, PartialEq, Eq, Structural)]
pub enum AbortReason {
    /// The wrapper's stdin closed before the end-of-transmission marker.
    PrematureClose,
    /// A byte the protocol does not allow, at the given stream index.
    Malformed { index: u64, byte: u8 },
    /// Decoded bytes could not be written to the child's stdin.
    WriteFailed,
}

/// What the input worker does next.
#[derive(Clone, Copy, Debug, PartialEq, Eq, Structural)]
pub enum InputAction {
    /// Read the next chunk.
    ReadMore,
    /// Close the child's stdin, wait for the child and report the clean path.
    Finish,
    /// Kill the child, wait for it and report the failure path.
    Abort(AbortReason),
}

/// The input worker's decision for one event.
pub open spec fn input_action_spec(ev: InputEvent) -> InputAction {
    match ev {
        InputEvent::Closed => InputAction::Abort(AbortReason::PrematureClose),
        InputEvent::Chunk { signal, forwarded } => match signal {
            Signal::Malformed { index, byte } => InputAction::Abort(AbortReason::Malformed { index, byte }),
            _ => if !forwarded {
                InputAction::Abort(AbortReason::WriteFailed)
            } else if signal is EndOfTransmission {
                InputAction::Finish
            } else {
                InputAction::ReadMore
            },
        },
    }
}

/// Decides what the input worker does after a read: keep reading while
/// chunks decode cleanly, finish on the end-of-transmission marker, and
/// abort on malformed input, a failed write or a premature close.
pub fn input_action(ev: InputEvent) -> (r: InputAction)
    ensures
        r == input_action_spec(ev),
        ev is Closed ==> r == InputAction::Abort(AbortReason::PrematureClose),
        r is Finish <==> (ev == InputEvent::Chunk { signal: Signal::EndOfTransmission, forwarded: true }),
        r is ReadMore <==> (ev == InputEvent::Chunk { signal: Signal::Continue, forwarded: true }),
{
    match ev {
        InputEvent::Closed => InputAction::Abort(AbortReason::PrematureClose),
        InputEvent::Chunk { signal, forwarded } => match signal {
            Signal::Malformed { index, byte } => InputAction::Abort(AbortReason::Malformed { index, byte }),
            Signal::EndOfTransmission => if forwarded {
                InputAction::Finish
            } else {
                InputAction::Abort(AbortReason::WriteFailed)
            },
            Signal::Continue => if forwarded {
                InputAction::ReadMore
            } else {
                InputAction::Abort(AbortReason::WriteFailed)
            },
        },
    }
}

/// The wrapper's exit code: a normal exit propagates its code, a signal or
/// an unknown outcome gives the fallback code, and a session whose input
/// side took the failure path never exits with 0.
pub open spec fn exit_code_spec(outcome: ExitOutcome, clean: bool) -> i32 {
    match outcome {
        ExitOutcome::Exited(c) => if c == 0 && !clean {
            FALLBACK_CODE
        } else {
            c
        },
        _ => FALLBACK_CODE,
    }
}

/// Computes the wrapper's exit code from the child's outcome and whether
/// the input side ended on the clean path.
pub fn exit_code(outcome: ExitOutcome, clean: bool) -> (r: i32)
    ensures
        r == exit_code_spec(outcome, clean),
        clean ==> (outcome is Exited ==> r == outcome->Exited_0),
        !clean ==> r != 0,
        !(outcome is Exited) ==> r == FALLBACK_CODE,
        r == 0 <==> clean && outcome == ExitOutcome::Exited(0),
{
    match outcome {
        ExitOutcome::Exited(c) => if c == 0 && !clean {
            FALLBACK_CODE
        } else {
            c
        },
        _ => FALLBACK_CODE,
    }
}

/// Whether the output worker may append the end-of-transmission marker:
/// only when the wrapper is about to exit with 0.
pub fn eof_permission(outcome: ExitOutcome, clean: bool) -> (r: bool)
    ensures
        r == (exit_code_spec(outcome, clean) == 0),
        r == (clean && outcome == ExitOutcome::Exited(0)),
{
    let code = exit_code(outcome, clean);
    code == 0
}

} // verus!
