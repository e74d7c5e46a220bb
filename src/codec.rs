use vstd::prelude::*;

verus! {

/// Escape introducer.
pub const ESC: u8 = 0x5f;
/// Completion byte standing for an escaped escape introducer.
pub const EESC: u8 = 0x2d;
/// End-of-transmission marker, meaningful only between frames.
pub const EOF: u8 = 0x5a;
/// Start of a frame.
pub const SOB: u8 = 0x3c;
/// End of a frame.
pub const EOB: u8 = 0x3e;
/// Completion byte standing for an escaped start sentinel.
pub const ESOB: u8 = 0x5b;
/// Completion byte standing for an escaped end sentinel.
pub const EEOB: u8 = 0x5d;

/// The bytes that stand for one payload byte inside a frame body.
pub open spec fn escape_seq(b: u8) -> Seq<u8> {
    if b == ESC {
        seq![ESC, EESC]
    } else if b == SOB {
        seq![ESC, ESOB]
    } else if b == EOB {
        seq![ESC, EEOB]
    } else {
        seq![b]
    }
}

/// The literal byte that an escape completion stands for, if it is one.
pub open spec fn unescape(c: u8) -> Option<u8> {
    if c == EESC {
        Some(ESC)
    } else if c == ESOB {
        Some(SOB)
    } else if c == EEOB {
        Some(EOB)
    } else {
        None
    }
}

/// The frame body for a payload: each byte replaced by its escape sequence.
pub open spec fn escape_all(p: Seq<u8>) -> Seq<u8>
    decreases p.len(),
{
    if p.len() == 0 {
        Seq::empty()
    } else {
        escape_all(p.drop_last()) + escape_seq(p.last())
    }
}

/// The frame for a payload: the body between the two sentinels.
pub open spec fn encode_spec(p: Seq<u8>) -> Seq<u8> {
    seq![SOB] + escape_all(p) + seq![EOB]
}

/// Stuffing at most doubles a payload.
pub proof fn lemma_escape_all_len(p: Seq<u8>)
    ensures
        p.len() <= escape_all(p).len() <= 2 * p.len(),
    decreases p.len(),
{
    if p.len() > 0 {
        lemma_escape_all_len(p.drop_last());
    }
}

/// Wraps a payload chunk into one frame, stuffing every escape introducer
/// and sentinel byte that it holds.
pub fn encap(inp: &[u8]) -> (r: Vec<u8>)
    requires
        2 * inp@.len() + 2 <= usize::MAX,
    ensures
        r@ == encode_spec(inp@),
        r@.len() <= 2 * inp@.len() + 2,
{
    let mut out: Vec<u8> = Vec::new();
    out.push(SOB);
    let mut i: usize = 0;
    while i < inp.len()
        invariant
            i <= inp@.len(),
            out@ == seq![SOB] + escape_all(inp@.subrange(0, i as int)),
        decreases inp@.len() - i,
    {
        let ch = inp[i];
        proof {
            let pre = inp@.subrange(0, i as int);
            let nxt = inp@.subrange(0, i as int + 1);
            assert(nxt.drop_last() =~= pre);
            assert(nxt.last() == ch);
            lemma_escape_all_len(pre);
        }
        if ch == ESC {
            out.push(ESC);
            out.push(EESC);
        } else if ch == SOB {
            out.push(ESC);
            out.push(ESOB);
        } else if ch == EOB {
            out.push(ESC);
            out.push(EEOB);
        } else {
            out.push(ch);
        }
        proof {
            let pre = inp@.subrange(0, i as int);
            let nxt = inp@.subrange(0, i as int + 1);
            assert(out@ =~= seq![SOB] + escape_all(pre) + escape_seq(ch));
            assert(escape_all(nxt) == escape_all(pre) + escape_seq(ch));
            assert(out@ =~= seq![SOB] + escape_all(nxt));
        }
        i = i + 1;
    }
    out.push(EOB);
    proof {
        assert(inp@.subrange(0, inp@.len() as int) =~= inp@);
        assert(out@ =~= encode_spec(inp@));
        lemma_escape_all_len(inp@);
    }
    out
}

} // verus!
