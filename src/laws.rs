use vstd::prelude::*;
use crate::codec::{ESC, EOF, SOB, EOB, escape_seq, escape_all, encode_spec, unescape};
use crate::decoder::{State, Halt, Run, run, step, consumed, signal_of, lemma_run_halted_extends};

verus! {

/// A halt moved `k` positions further into the stream.
pub open spec fn shift(h: Halt, k: nat) -> Halt {
    match h {
        Halt::Running => Halt::Running,
        Halt::Eot { pos } => Halt::Eot { pos: pos + k },
        Halt::Bad { pos, byte } => Halt::Bad { pos: pos + k, byte },
    }
}

/// Running over `a` and then, if nothing stopped it, over `b` from where it left off.
pub open spec fn run_then(s: State, a: Seq<u8>, b: Seq<u8>) -> Run {
    let ra = run(s, a);
    if ra.halt is Running {
        let rb = run(ra.state, b);
        Run { state: rb.state, out: ra.out + rb.out, halt: shift(rb.halt, a.len()) }
    } else {
        ra
    }
}

/// The run over a single byte.
pub open spec fn run_one(s: State, x: u8) -> Run {
    match step(s, x) {
        crate::decoder::Step::Go { next, out } => Run { state: next, out, halt: Halt::Running },
        crate::decoder::Step::Eot => Run { state: s, out: Seq::empty(), halt: Halt::Eot { pos: 0 } },
        crate::decoder::Step::Bad => Run { state: s, out: Seq::empty(), halt: Halt::Bad { pos: 0, byte: x } },
    }
}

proof fn lemma_run_one(s: State, x: u8)
    ensures
        run(s, seq![x]) == run_one(s, x),
{
    let b = seq![x];
    assert(b.drop_last() =~= Seq::<u8>::empty());
    assert(b.last() == x);
    assert(run(s, b.drop_last()) == (Run { state: s, out: Seq::empty(), halt: Halt::Running }));
    match step(s, x) {
        crate::decoder::Step::Go { next, out } => {
            assert(Seq::<u8>::empty() + out =~= out);
        },
        _ => {},
    }
}

/// A run over a concatenation is the run over its first part continued over the second.
pub proof fn lemma_run_append(s: State, a: Seq<u8>, b: Seq<u8>)
    ensures
        run(s, a + b) == run_then(s, a, b),
    decreases b.len(),
{
    let ra = run(s, a);
    if b.len() == 0 {
        assert(a + b =~= a);
        assert(ra.out + Seq::<u8>::empty() =~= ra.out);
    } else if !(ra.halt is Running) {
        lemma_run_halted_extends(s, a, b);
    } else {
        let b1 = b.drop_last();
        lemma_run_append(s, a, b1);
        assert((a + b).drop_last() =~= a + b1);
        assert((a + b).last() == b.last());
        let rb1 = run(ra.state, b1);
        match rb1.halt {
            Halt::Running => match step(rb1.state, b.last()) {
                crate::decoder::Step::Go { next, out } => {
                    assert(ra.out + rb1.out + out =~= ra.out + (rb1.out + out));
                },
                _ => {},
            },
            _ => {},
        }
    }
}

/// Feeding a stream in two chunks, the second only if the first ended in
/// `Continue`, decodes the same bytes, ends in the same state, consumes as
/// many bytes and reports the same signal (with the same stream index) as
/// feeding it in one chunk; a chunk that ends in a terminal signal leaves
/// the rest of the stream unread. By induction this holds for any number of
/// chunk boundaries.
pub proof fn lemma_streaming(s: State, count: int, a: Seq<u8>, b: Seq<u8>)
    ensures
        ({
            let ra = run(s, a);
            let rab = run(s, a + b);
            if ra.halt is Running {
                let rb = run(ra.state, b);
                &&& rab.out == ra.out + rb.out
                &&& rab.state == rb.state
                &&& signal_of(rab.halt, count) == signal_of(rb.halt, count + a.len())
                &&& count + consumed(rab, (a + b).len()) == count + a.len() + consumed(rb, b.len())
            } else {
                rab == ra
            }
        }),
{
    lemma_run_append(s, a, b);
}

/// Feeding the chunks one after another, stopping after the first chunk
/// that ends in a terminal signal; halt positions count from the stream start.
pub open spec fn run_chunks(s: State, chunks: Seq<Seq<u8>>) -> Run
    decreases chunks.len(),
{
    if chunks.len() == 0 {
        Run { state: s, out: Seq::empty(), halt: Halt::Running }
    } else {
        let r = run_chunks(s, chunks.drop_last());
        if r.halt is Running {
            let rc = run(r.state, chunks.last());
            Run { state: rc.state, out: r.out + rc.out, halt: shift(rc.halt, chunks.drop_last().flatten().len()) }
        } else {
            r
        }
    }
}

/// However a stream is split into chunks, feeding them in turn decodes the
/// same bytes, ends in the same state and stops at the same byte with the
/// same outcome as feeding the whole stream at once.
pub proof fn lemma_streaming_chunks(s: State, chunks: Seq<Seq<u8>>)
    ensures
        run_chunks(s, chunks) == run(s, chunks.flatten()),
    decreases chunks.len(),
{
    if chunks.len() == 0 {
        assert(chunks.flatten() =~= Seq::<u8>::empty());
    } else {
        let c1 = chunks.drop_last();
        lemma_streaming_chunks(s, c1);
        chunks.lemma_flatten_and_flatten_alt_are_equivalent();
        c1.lemma_flatten_and_flatten_alt_are_equivalent();
        assert(chunks.flatten() == c1.flatten() + chunks.last());
        lemma_run_append(s, c1.flatten(), chunks.last());
    }
}

/// Inside a frame, a stuffed body decodes to the payload it was made from.
pub proof fn lemma_body_round_trip(p: Seq<u8>)
    ensures
        run(State::Data, escape_all(p)) == (Run { state: State::Data, out: p, halt: Halt::Running }),
    decreases p.len(),
{
    if p.len() == 0 {
        assert(p =~= Seq::<u8>::empty());
    } else {
        let p1 = p.drop_last();
        let l = p.last();
        lemma_body_round_trip(p1);
        lemma_run_append(State::Data, escape_all(p1), escape_seq(l));
        let e = escape_seq(l);
        if e.len() == 2 {
            lemma_run_one(State::Data, ESC);
            lemma_run_one(State::DataEsc, e[1]);
            lemma_run_append(State::Data, seq![ESC], seq![e[1]]);
            assert(seq![ESC] + seq![e[1]] =~= e);
            assert(Seq::<u8>::empty() + seq![l] =~= seq![l]);
        } else {
            lemma_run_one(State::Data, l);
            assert(e =~= seq![l]);
        }
        assert(p1 + seq![l] =~= p);
    }
}

/// Decoding the frame of any payload gives back exactly that payload and
/// leaves the decoder between frames; followed by the end-of-transmission
/// marker, the same payload is delivered and the transmission ends.
pub proof fn lemma_round_trip(p: Seq<u8>)
    ensures
        run(State::Idle, encode_spec(p)) == (Run { state: State::Idle, out: p, halt: Halt::Running }),
        run(State::Idle, encode_spec(p) + seq![EOF]).out == p,
        run(State::Idle, encode_spec(p) + seq![EOF]).halt is Eot,
{
    let e = escape_all(p);
    lemma_run_one(State::Idle, SOB);
    lemma_run_one(State::Data, EOB);
    lemma_run_one(State::Idle, EOF);
    lemma_body_round_trip(p);
    lemma_run_append(State::Idle, seq![SOB], e);
    lemma_run_append(State::Idle, seq![SOB] + e, seq![EOB]);
    assert(Seq::<u8>::empty() + p =~= p);
    assert(p + Seq::<u8>::empty() =~= p);
    lemma_run_append(State::Idle, encode_spec(p), seq![EOF]);
}

/// Every byte of a stuffed body is neither sentinel, and every escape
/// introducer in it is followed, within the body, by an escape completion.
pub open spec fn body_safe(e: Seq<u8>) -> bool {
    forall|i: int|
        0 <= i < e.len() ==> {
            &&& #[trigger] e[i] != SOB
            &&& e[i] != EOB
            &&& (e[i] == ESC ==> i + 1 < e.len() && unescape(e[i + 1]) is Some)
        }
}

proof fn lemma_escape_all_safe(p: Seq<u8>)
    ensures
        body_safe(escape_all(p)),
    decreases p.len(),
{
    if p.len() > 0 {
        let e1 = escape_all(p.drop_last());
        let t = escape_seq(p.last());
        lemma_escape_all_safe(p.drop_last());
        let e = e1 + t;
        assert forall|i: int| 0 <= i < e.len() implies {
            &&& #[trigger] e[i] != SOB
            &&& e[i] != EOB
            &&& (e[i] == ESC ==> i + 1 < e.len() && unescape(e[i + 1]) is Some)
        } by {
            if i < e1.len() {
                assert(e[i] == e1[i]);
                if i + 1 < e1.len() {
                    assert(e[i + 1] == e1[i + 1]);
                }
            }
        }
    }
}

/// A frame starts with the start sentinel and ends with the end sentinel,
/// and no byte between them is a sentinel or an escape introducer that is
/// not completed by an escape completion inside the frame.
pub proof fn lemma_framing_safety(p: Seq<u8>)
    ensures
        ({
            let r = encode_spec(p);
            &&& r.len() >= 2
            &&& r[0] == SOB
            &&& r[r.len() - 1] == EOB
            &&& body_safe(r.subrange(1, r.len() - 1))
        }),
{
    let r = encode_spec(p);
    lemma_escape_all_safe(p);
    assert(r.subrange(1, r.len() - 1) =~= escape_all(p));
}

/// Between frames, the end-of-transmission marker ends the run at once:
/// nothing is decoded, the one marker byte is consumed and nothing after it
/// is looked at.
pub proof fn lemma_end_of_transmission(rest: Seq<u8>)
    ensures
        run(State::Idle, seq![EOF] + rest) == (Run { state: State::Idle, out: Seq::empty(), halt: Halt::Eot { pos: 0 } }),
        consumed(run(State::Idle, seq![EOF] + rest), (1 + rest.len()) as nat) == 1,
{
    lemma_run_one(State::Idle, EOF);
    lemma_run_halted_extends(State::Idle, seq![EOF], rest);
}

/// Between frames, a byte other than the start sentinel and the
/// end-of-transmission marker is reported as malformed at its own stream
/// index; after an escape introducer, so is any byte that is not an escape
/// completion.
pub proof fn lemma_malformed(b: u8, count: u64, rest: Seq<u8>)
    ensures
        b != SOB && b != EOF ==> run(State::Idle, seq![b] + rest).halt == (Halt::Bad { pos: 0, byte: b }),
        b != SOB && b != EOF ==> signal_of(run(State::Idle, seq![b] + rest).halt, count as int)
            == (crate::decoder::Signal::Malformed { index: count, byte: b }),
        unescape(b) is None ==> run(State::DataEsc, seq![b] + rest).halt == (Halt::Bad { pos: 0, byte: b }),
        unescape(b) is None ==> signal_of(run(State::DataEsc, seq![b] + rest).halt, count as int)
            == (crate::decoder::Signal::Malformed { index: count, byte: b }),
{
    lemma_run_one(State::Idle, b);
    lemma_run_one(State::DataEsc, b);
    if b != SOB && b != EOF {
        lemma_run_halted_extends(State::Idle, seq![b], rest);
    }
    if unescape(b) is None {
        lemma_run_halted_extends(State::DataEsc, seq![b], rest);
    }
}

} // verus!
