use vstd::prelude::*;
use crate::codec::{ESC, EESC, EOF, SOB, EOB, ESOB, EEOB, unescape};

verus! {

/// Where the decoder stands in the framed stream.
#[derive(Clone, Copy, Debug, PartialEq, Eq, Structural)]
pub enum State {
    /// Between frames.
    Idle,
    /// Inside a frame body.
    Data,
    /// Inside a frame body, right after an escape introducer.
    DataEsc,
}

/// What one chunk fed to the decoder ended with.
#[derive(Clone, Copy, Debug, PartialEq, Eq, Structural)]
pub enum Signal {
    /// The whole chunk was consumed; more input is expected.
    Continue,
    /// The end-of-transmission marker was seen between frames.
    EndOfTransmission,
    /// A byte that the protocol does not allow, at the given stream index.
    Malformed { index: u64, byte: u8 },
}

/// The effect of one byte on the automaton.
pub enum Step {
    /// Move to a state, appending the given bytes to the output.
    Go { next: State, out: Seq<u8> },
    /// End of transmission: stop scanning.
    Eot,
    /// Malformed input: stop scanning.
    Bad,
}

/// The transition table of the decoder.
pub open spec fn step(s: State, b: u8) -> Step {
    match s {
        State::Idle => if b == EOF {
            Step::Eot
        } else if b == SOB {
            Step::Go { next: State::Data, out: Seq::empty() }
        } else {
            Step::Bad
        },
        State::Data => if b == EOB {
            Step::Go { next: State::Idle, out: Seq::empty() }
        } else if b == ESC {
            Step::Go { next: State::DataEsc, out: Seq::empty() }
        } else {
            Step::Go { next: State::Data, out: seq![b] }
        },
        State::DataEsc => match unescape(b) {
            Some(l) => Step::Go { next: State::Data, out: seq![l] },
            None => Step::Bad,
        },
    }
}

/// How a run over a byte sequence stopped; positions are relative to its start.
pub enum Halt {
    Running,
    Eot { pos: nat },
    Bad { pos: nat, byte: u8 },
}

/// The result of running the automaton over a byte sequence.
pub struct Run {
    pub state: State,
    pub out: Seq<u8>,
    pub halt: Halt,
}

/// Runs the automaton from state `s` over `b`, stopping at the first
/// terminal byte; the state is left as it was before that byte.
pub open spec fn run(s: State, b: Seq<u8>) -> Run
    decreases b.len(),
{
    if b.len() == 0 {
        Run { state: s, out: Seq::empty(), halt: Halt::Running }
    } else {
        let r = run(s, b.drop_last());
        match r.halt {
            Halt::Running => match step(r.state, b.last()) {
                Step::Go { next, out } => Run { state: next, out: r.out + out, halt: Halt::Running },
                Step::Eot => Run { state: r.state, out: r.out, halt: Halt::Eot { pos: (b.len() - 1) as nat } },
                Step::Bad => Run {
                    state: r.state,
                    out: r.out,
                    halt: Halt::Bad { pos: (b.len() - 1) as nat, byte: b.last() },
                },
            },
            _ => r,
        }
    }
}

/// The number of bytes a run takes from its input: all of them, or up to
/// and including the terminal byte.
pub open spec fn consumed(r: Run, len: nat) -> nat {
    match r.halt {
        Halt::Running => len,
        Halt::Eot { pos } => pos + 1,
        Halt::Bad { pos, .. } => pos + 1,
    }
}

/// The signal a decoder reports for a run, given its byte count before the chunk.
pub open spec fn signal_of(h: Halt, base: int) -> Signal {
    match h {
        Halt::Running => Signal::Continue,
        Halt::Eot { .. } => Signal::EndOfTransmission,
        Halt::Bad { pos, byte } => Signal::Malformed { index: (base + pos) as u64, byte },
    }
}

/// Streaming decoder for the framed byte stream of one session.
#[derive(Debug)]
pub struct Decapper {
    pub state: State,
    /// Number of bytes consumed so far, for diagnostics.
    pub count: u64,
}

impl Decapper {
    /// A decoder at the start of a session: between frames, nothing consumed.
    pub fn new() -> (r: Decapper)
        ensures
            r.state == State::Idle,
            r.count == 0,
    {
        Decapper { state: State::Idle, count: 0 }
    }

    /// Feeds one chunk. Returns the payload bytes decoded from it (also those
    /// before a terminal byte) and how the chunk ended. After a `Malformed`
    /// signal the decoder must not be fed again.
    pub fn add(&mut self, x: &[u8]) -> (r: (Vec<u8>, Signal))
        requires
            old(self).count + x@.len() <= u64::MAX,
        ensures
            ({
                let run = run(old(self).state, x@);
                &&& r.0@ == run.out
                &&& r.1 == signal_of(run.halt, old(self).count as int)
                &&& final(self).state == run.state
                &&& final(self).count == old(self).count + consumed(run, x@.len())
            }),
    {
        let ghost s0 = self.state;
        let ghost c0 = self.count;
        let mut out: Vec<u8> = Vec::new();
        let mut sig = Signal::Continue;
        let mut i: usize = 0;
        while i < x.len()
            invariant_except_break
                i <= x@.len(),
                run(s0, x@.subrange(0, i as int)) == (Run { state: self.state, out: out@, halt: Halt::Running }),
                self.count == c0 + i,
                sig == Signal::Continue,
            invariant
                c0 + x@.len() <= u64::MAX,
            ensures
                ({
                    let rr = run(s0, x@.subrange(0, i as int));
                    &&& i <= x@.len()
                    &&& rr.state == self.state
                    &&& rr.out == out@
                    &&& sig == signal_of(rr.halt, c0 as int)
                    &&& self.count == c0 + consumed(rr, i as nat)
                    &&& (rr.halt is Running ==> i == x@.len())
                }),
            decreases x@.len() - i,
        {
            let ch = x[i];
            let ghost pre = x@.subrange(0, i as int);
            let ghost nxt = x@.subrange(0, i as int + 1);
            proof {
                assert(nxt.drop_last() =~= pre);
                assert(nxt.last() == ch);
            }
            self.count = self.count + 1;
            match self.state {
                State::Idle => {
                    if ch == EOF {
                        sig = Signal::EndOfTransmission;
                        i = i + 1;
                        break;
                    } else if ch == SOB {
                        self.state = State::Data;
                    } else {
                        sig = Signal::Malformed { index: self.count - 1, byte: ch };
                        i = i + 1;
                        break;
                    }
                },
                State::Data => {
                    if ch == EOB {
                        self.state = State::Idle;
                    } else if ch == ESC {
                        self.state = State::DataEsc;
                    } else {
                        out.push(ch);
                    }
                },
                State::DataEsc => {
                    if ch == EESC {
                        out.push(ESC);
                        self.state = State::Data;
                    } else if ch == ESOB {
                        out.push(SOB);
                        self.state = State::Data;
                    } else if ch == EEOB {
                        out.push(EOB);
                        self.state = State::Data;
                    } else {
                        sig = Signal::Malformed { index: self.count - 1, byte: ch };
                        i = i + 1;
                        break;
                    }
                },
            }
            proof {
                assert(run(s0, nxt).out =~= out@);
            }
            i = i + 1;
        }
        proof {
            let a = x@.subrange(0, i as int);
            let b = x@.subrange(i as int, x@.len() as int);
            assert(a + b =~= x@);
            if !(run(s0, a).halt is Running) {
                lemma_run_halted_extends(s0, a, b);
            }
        }
        (out, sig)
    }
}

/// Once a run has stopped, further input changes nothing.
pub proof fn lemma_run_halted_extends(s: State, a: Seq<u8>, b: Seq<u8>)
    requires
        !(run(s, a).halt is Running),
    ensures
        run(s, a + b) == run(s, a),
    decreases b.len(),
{
    if b.len() == 0 {
        assert(a + b =~= a);
    } else {
        lemma_run_halted_extends(s, a, b.drop_last());
        assert((a + b).drop_last() =~= a + b.drop_last());
    }
}

} // verus!
