use wp::{encap, Decapper, Signal, State, EEOB, EESC, EOB, EOF, ESC, ESOB, SOB};

fn decode_all(stream: &[u8]) -> (Vec<u8>, Signal, Decapper) {
    let mut d = Decapper::new();
    let (out, sig) = d.add(stream);
    (out, sig, d)
}

#[test]
fn blatest() -> Result<(), String> {
    assert_eq!(12, 12);
    Ok(())
}

#[test]
fn reserved_byte_values() {
    assert_eq!(SOB, b'<');
    assert_eq!(EOB, b'>');
    assert_eq!(ESC, b'_');
    assert_eq!(EESC, b'-');
    assert_eq!(ESOB, b'[');
    assert_eq!(EEOB, b']');
    assert_eq!(EOF, b'Z');
}

#[test]
fn encode_empty_payload() {
    assert_eq!(encap(&[]), b"<>".to_vec());
}

#[test]
fn encode_plain_payload() {
    assert_eq!(encap(b"hello"), b"<hello>".to_vec());
}

#[test]
fn encode_stuffs_each_reserved_byte() {
    assert_eq!(encap(b"<"), b"<_[>".to_vec());
    assert_eq!(encap(b">"), b"<_]>".to_vec());
    assert_eq!(encap(b"_"), b"<_->".to_vec());
    assert_eq!(encap(b"a<b>c_d"), b"<a_[b_]c_-d>".to_vec());
}

#[test]
fn encode_leaves_eot_marker_literal_inside_frame() {
    assert_eq!(encap(b"Z-[]"), b"<Z-[]>".to_vec());
}

#[test]
fn encode_expansion_at_most_double() {
    let p = b"<<<>>>___".to_vec();
    let e = encap(&p);
    assert_eq!(e.len(), 2 * p.len() + 2);
}

#[test]
fn round_trip_all_byte_values() {
    let p: Vec<u8> = (0u8..=255).collect();
    let mut stream = encap(&p);
    let (out, sig, d) = decode_all(&stream);
    assert_eq!(out, p);
    assert_eq!(sig, Signal::Continue);
    assert_eq!(d.state, State::Idle);
    stream.push(EOF);
    let (out, sig, _) = decode_all(&stream);
    assert_eq!(out, p);
    assert_eq!(sig, Signal::EndOfTransmission);
}

#[test]
fn round_trip_empty_payload() {
    let (out, sig, d) = decode_all(&encap(&[]));
    assert!(out.is_empty());
    assert_eq!(sig, Signal::Continue);
    assert_eq!(d.state, State::Idle);
    assert_eq!(d.count, 2);
}

#[test]
fn framing_body_has_no_bare_sentinel() {
    let p = b"<>_Z-[]x".to_vec();
    let e = encap(&p);
    assert_eq!(e[0], SOB);
    assert_eq!(e[e.len() - 1], EOB);
    let body = &e[1..e.len() - 1];
    let mut i = 0;
    while i < body.len() {
        assert!(body[i] != SOB && body[i] != EOB);
        if body[i] == ESC {
            assert!(i + 1 < body.len());
            assert!(body[i + 1] == EESC || body[i + 1] == ESOB || body[i + 1] == EEOB);
            i += 2;
        } else {
            i += 1;
        }
    }
}

#[test]
fn streaming_split_at_every_boundary() {
    let mut stream = encap(b"a<_>b");
    stream.extend(encap(b""));
    stream.extend(encap(b"__"));
    stream.push(EOF);
    stream.extend(b"junk");
    let (whole_out, whole_sig, whole_d) = decode_all(&stream);
    assert_eq!(whole_out, b"a<_>b__".to_vec());
    assert_eq!(whole_sig, Signal::EndOfTransmission);
    for cut in 0..=stream.len() {
        let mut d = Decapper::new();
        let (mut out, mut sig) = d.add(&stream[..cut]);
        if sig == Signal::Continue {
            let (more, s2) = d.add(&stream[cut..]);
            out.extend(more);
            sig = s2;
        }
        assert_eq!(out, whole_out);
        assert_eq!(sig, whole_sig);
        assert_eq!(d.count, whole_d.count);
    }
}

#[test]
fn streaming_byte_by_byte() {
    let stream = b"<x_]y><_-><_[z>Z".to_vec();
    let mut d = Decapper::new();
    let mut out = Vec::new();
    let mut last = Signal::Continue;
    for b in &stream {
        let (o, s) = d.add(&[*b]);
        out.extend(o);
        last = s;
        if s != Signal::Continue {
            break;
        }
    }
    assert_eq!(out, b"x>y_<z".to_vec());
    assert_eq!(last, Signal::EndOfTransmission);
}

#[test]
fn end_of_transmission_when_idle() {
    let (out, sig, d) = decode_all(b"Z<abc>");
    assert!(out.is_empty());
    assert_eq!(sig, Signal::EndOfTransmission);
    assert_eq!(d.count, 1);
    assert_eq!(d.state, State::Idle);
}

#[test]
fn malformed_byte_when_idle() {
    let (out, sig, d) = decode_all(b"x<a>");
    assert!(out.is_empty());
    assert_eq!(sig, Signal::Malformed { index: 0, byte: b'x' });
    assert_eq!(d.count, 1);
}

#[test]
fn malformed_index_counts_across_chunks() {
    let mut d = Decapper::new();
    let (out, sig) = d.add(b"<ab>");
    assert_eq!(out, b"ab".to_vec());
    assert_eq!(sig, Signal::Continue);
    let (out, sig) = d.add(b"<c>>");
    assert_eq!(out, b"c".to_vec());
    assert_eq!(sig, Signal::Malformed { index: 7, byte: b'>' });
}

#[test]
fn malformed_escape_completion() {
    let (out, sig, d) = decode_all(b"<ab_q>");
    assert_eq!(out, b"ab".to_vec());
    assert_eq!(sig, Signal::Malformed { index: 4, byte: b'q' });
    assert_eq!(d.state, State::DataEsc);
}

#[test]
fn eot_marker_inside_frame_is_payload() {
    let (out, sig, d) = decode_all(b"<Z>");
    assert_eq!(out, b"Z".to_vec());
    assert_eq!(sig, Signal::Continue);
    assert_eq!(d.state, State::Idle);
}

#[test]
fn scenario_single_start_sentinel() {
    let e = encap(&[SOB]);
    assert_eq!(e, vec![b'<', b'_', b'[', b'>']);
    let (out, sig, _) = decode_all(&e);
    assert_eq!(out, vec![SOB]);
    assert_eq!(sig, Signal::Continue);
}

#[test]
fn scenario_hello_echo_stream() {
    let mut inbound = encap(b"hello");
    inbound.push(EOF);
    assert_eq!(inbound, b"<hello>Z".to_vec());
    let (out, sig, _) = decode_all(&inbound);
    assert_eq!(out, b"hello".to_vec());
    assert_eq!(sig, Signal::EndOfTransmission);
    let mut outbound = encap(&out);
    outbound.push(EOF);
    assert_eq!(outbound, b"<hello>Z".to_vec());
}
