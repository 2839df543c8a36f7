use rosc::{OscBundle, OscMessage, OscPacket, OscTime, OscType};
use trafalgar::engine::Note;
use trafalgar::gesture::NUM_TRACKS;
use trafalgar::osc::{
    apply, as_f32, encode_packet, handle_message, handle_packet, note_message, parse, Arg, Message,
    Msg, OscReceiver, OscSender,
};
use trafalgar::shared::Shared;

fn float(x: f32) -> Arg {
    Arg::Float(x.to_bits())
}

fn packet(addr: &str, args: Vec<OscType>) -> OscPacket {
    OscPacket::Message(OscMessage { addr: addr.into(), args })
}

fn bundle(content: Vec<OscPacket>) -> OscPacket {
    OscPacket::Bundle(OscBundle { timetag: OscTime { seconds: 0, fractional: 1 }, content })
}

fn outgoing(m: &Message) -> OscPacket {
    let args = m
        .args
        .iter()
        .map(|a| match a {
            Arg::Int(i) => OscType::Int(*i),
            Arg::Float(b) => OscType::Float(f32::from_bits(*b)),
            Arg::Double(b) => OscType::Double(f64::from_bits(*b)),
            Arg::Other => OscType::Nil,
        })
        .collect();
    OscPacket::Message(OscMessage { addr: m.addr.clone(), args })
}

#[test]
fn parse_rejects_junk_and_clamps() {
    // valid
    assert!(matches!(parse("/track/0/xy", &[float(0.5), float(0.2)]), Some(Msg::Xy(0, _, _))));
    assert!(matches!(parse("/track/3/gate", &[float(1.0)]), Some(Msg::Gate(3, true))));
    assert!(matches!(parse("/track/1/erase", &[float(0.0)]), Some(Msg::Erase(1, false))));
    assert!(matches!(parse("/track/2/clear", &[float(1.0)]), Some(Msg::Clear(2))));
    // junk / boundary: all rejected, none reach the shared state
    assert!(parse("/track/0/xy", &[float(0.5)]).is_none(), "wrong arity");
    assert!(parse("/track/9/xy", &[float(0.1), float(0.1)]).is_none(), "track out of range");
    assert!(parse("/track/0/xy", &[float(f32::NAN), float(0.1)]).is_none(), "NaN");
    assert!(parse("/track/0/xy", &[float(0.1), float(f32::INFINITY)]).is_none(), "inf");
    assert!(parse("/bogus", &[]).is_none(), "unknown address");
    assert!(parse("/track/0/xy/extra", &[float(0.1), float(0.1)]).is_none(), "trailing seg");
    assert!(parse("/track/0/clear", &[float(0.0)]).is_none(), "below clear threshold");
    // clamping
    match parse("/track/0/xy", &[float(2.0), float(-1.0)]) {
        Some(Msg::Xy(_, x, y)) => {
            assert_eq!(f32::from_bits(x), 1.0);
            assert_eq!(f32::from_bits(y), 0.0);
        }
        _ => panic!("expected clamped xy"),
    }
}

#[test]
fn addresses_are_taken_apart_at_their_slashes() {
    let on = [float(1.0)];
    for bad in [
        "", "/", "track/0/gate", "//track/0/gate", "/track//gate", "/track/0", "/track/0/", "/track/0/gate/",
        "/Track/0/gate", "/track/-1/gate", "/track/4/gate", "/track/0/Gate", "/track/ 0/gate", "/track/0x0/gate",
        "/track/99999999999999999999999/gate", "/track/0/gat", "/trackk/0/gate",
    ] {
        assert!(parse(bad, &on).is_none(), "{bad}");
    }
    // what a number may look like
    assert_eq!(parse("/track/+2/gate", &on), Some(Msg::Gate(2, true)));
    assert_eq!(parse("/track/003/gate", &on), Some(Msg::Gate(3, true)));
    for t in 0..NUM_TRACKS {
        assert_eq!(parse(&format!("/track/{t}/clear"), &on), Some(Msg::Clear(t)));
    }
}

#[test]
fn switches_turn_on_at_one_half() {
    assert_eq!(parse("/track/0/gate", &[float(0.5)]), Some(Msg::Gate(0, true)));
    assert_eq!(parse("/track/0/gate", &[float(0.49999997)]), Some(Msg::Gate(0, false)));
    assert_eq!(parse("/track/0/gate", &[float(-3.0)]), Some(Msg::Gate(0, false)));
    assert_eq!(parse("/track/0/gate", &[Arg::Int(1)]), Some(Msg::Gate(0, true)));
    assert_eq!(parse("/track/0/erase", &[Arg::Int(0)]), Some(Msg::Erase(0, false)));
    assert_eq!(parse("/track/0/erase", &[Arg::Double(0.75f64.to_bits())]), Some(Msg::Erase(0, true)));
    assert_eq!(parse("/track/0/gate", &[]), None);
    assert_eq!(parse("/track/0/gate", &[Arg::Other]), None);
    // only the first argument counts
    assert_eq!(parse("/track/0/gate", &[float(1.0), Arg::Other]), Some(Msg::Gate(0, true)));
}

#[test]
fn numbers_of_every_kind_become_finite_singles() {
    assert_eq!(as_f32(&float(0.3)), Some(0.3f32.to_bits()));
    assert_eq!(as_f32(&Arg::Int(-7)), Some((-7.0f32).to_bits()));
    assert_eq!(as_f32(&Arg::Int(i32::MAX)), Some((i32::MAX as f32).to_bits()));
    assert_eq!(as_f32(&Arg::Double(0.1f64.to_bits())), Some((0.1f64 as f32).to_bits()));
    assert_eq!(as_f32(&Arg::Double(1e300f64.to_bits())), None);
    assert_eq!(as_f32(&Arg::Double(f64::NAN.to_bits())), None);
    assert_eq!(as_f32(&float(f32::NEG_INFINITY)), None);
    assert_eq!(as_f32(&Arg::Other), None);
}

#[test]
fn messages_write_the_pad_state() {
    let mut s = Shared::default();
    s.gesture.store(2, 9, 60);
    s.gesture.store(3, 9, 61);
    apply(&mut s, Msg::Xy(1, 0.5f32.to_bits(), 0.25f32.to_bits()));
    apply(&mut s, Msg::Gate(0, true));
    apply(&mut s, Msg::Erase(3, true));
    apply(&mut s, Msg::Clear(2));
    assert_eq!(s.pos[1], ((0.5f32.to_bits() as u64) << 32) | 0.25f32.to_bits() as u64);
    assert_eq!(s.gate, [true, false, false, false]);
    assert_eq!(s.erase, [false, false, false, true]);
    assert_eq!((s.gesture.load(2, 9), s.gesture.load(3, 9)), (-1, 61));
    handle_message(&mut s, "/track/0/gate", &[float(0.0)]);
    assert!(!s.gate[0]);
    handle_message(&mut s, "/track/7/gate", &[float(1.0)]);
    assert_eq!(s.gate, [false; NUM_TRACKS]);
}

/// End-to-end: datagrams into the receiver land in the shared state.
#[test]
fn receiver_writes_shared() {
    let mut shared = Shared::default();
    let port = 9199;
    let rx = OscReceiver::new(false, port);
    assert_eq!((rx.host(), rx.port), ("127.0.0.1", port));
    let mut send = |addr: &str, args: Vec<OscType>| {
        let buf = rosc::encoder::encode(&packet(addr, args)).unwrap();
        rx.receive(&mut shared, &buf);
    };
    send("/track/1/xy", vec![OscType::Float(0.5), OscType::Float(0.25)]);
    send("/track/1/gate", vec![OscType::Float(1.0)]);

    assert!(shared.gate[1], "gate never opened from OSC");
    let packed = shared.pos[1];
    assert_eq!(f32::from_bits((packed >> 32) as u32), 0.5, "x");
    assert_eq!(f32::from_bits(packed as u32), 0.25, "y");
}

#[test]
fn receivers_listen_on_the_network_or_on_this_machine() {
    assert_eq!(OscReceiver::new(true, 9100).host(), "0.0.0.0");
    assert_eq!(OscReceiver::new(false, 9100).host(), "127.0.0.1");
}

#[test]
fn datagrams_that_do_not_decode_change_nothing() {
    let mut s = Shared::default();
    let rx = OscReceiver::new(true, 9100);
    for junk in [&b""[..], b"hello", b"/track/0/gate", b"/track/0/gate\0\0\0,f\0\0", &[0xff; 64]] {
        rx.receive(&mut s, junk);
    }
    assert_eq!(s.gate, [false; NUM_TRACKS]);
    // a well-formed message of a kind that controls nothing
    let other = rosc::encoder::encode(&packet("/track/0/gate", vec![OscType::String("on".into())])).unwrap();
    rx.receive(&mut s, &other);
    assert_eq!(s.gate, [false; NUM_TRACKS]);
}

#[test]
fn bundles_are_handled_in_order_however_nested() {
    let gate = |v: f32| packet("/track/0/gate", vec![OscType::Float(v)]);
    let erase = packet("/track/2/erase", vec![OscType::Int(1)]);
    let mut s = Shared::default();
    handle_packet(&mut s, &bundle(vec![gate(1.0), bundle(vec![erase.clone(), bundle(vec![])]), gate(0.0), gate(1.0)]));
    assert!(s.gate[0]);
    assert!(s.erase[2]);
    let mut s = Shared::default();
    handle_packet(&mut s, &bundle(vec![gate(1.0), bundle(vec![gate(0.0)])]));
    assert!(!s.gate[0]);
    // the same from a datagram
    let mut s = Shared::default();
    let buf = rosc::encoder::encode(&bundle(vec![bundle(vec![gate(1.0)]), erase])).unwrap();
    OscReceiver::new(true, 9100).receive(&mut s, &buf);
    assert!(s.gate[0] && s.erase[2]);
}

#[test]
fn emits_note_osc() {
    let mut sender = OscSender::new();
    sender.note(2, 60, 0.8f32.to_bits());

    let queued = sender.take();
    assert_eq!(queued, [Note { track: 2, note: 60, vel: 0.8f32.to_bits() }]);
    let buf = encode_packet(&outgoing(&note_message(&queued[0]))).expect("received an OSC packet");
    let (_, pkt) = rosc::decoder::decode_udp(&buf).unwrap();
    match pkt {
        OscPacket::Message(m) => {
            assert_eq!(m.addr, "/fig/track/2/note");
            assert_eq!(m.args, vec![OscType::Int(60), OscType::Float(0.8)]);
        }
        _ => panic!("expected an OSC message"),
    }
}

#[test]
fn datagrams_have_the_documented_bytes() {
    let m = note_message(&Note { track: 1, note: 60, vel: 0.5f32.to_bits() });
    assert_eq!(m.addr, "/fig/track/1/note");
    assert_eq!(m.args, [Arg::Int(60), Arg::Float(0x3f00_0000)]);
    let bytes = encode_packet(&outgoing(&m)).unwrap();
    let mut want = b"/fig/track/1/note\0\0\0,if\0".to_vec();
    want.extend([0, 0, 0, 60, 0x3f, 0, 0, 0]);
    assert_eq!(bytes, want);
    // negative integers, negative singles, and an address of a whole number of words
    let p = packet("/abc", vec![OscType::Float(-1.0), OscType::Int(-2), OscType::Float(f32::INFINITY)]);
    let mut want = b"/abc\0\0\0\0,fif\0\0\0\0".to_vec();
    want.extend([0xbf, 0x80, 0, 0, 0xff, 0xff, 0xff, 0xfe, 0x7f, 0x80, 0, 0]);
    assert_eq!(encode_packet(&p).unwrap(), want);
    assert_eq!(encode_packet(&packet("/x", vec![])).unwrap(), b"/x\0\0,\0\0\0");
    assert_eq!(note_message(&Note { track: 255, note: 0, vel: 0 }).addr, "/fig/track/255/note");
}

#[test]
fn only_messages_of_integers_and_singles_are_encoded() {
    assert_eq!(encode_packet(&bundle(vec![])), None);
    assert_eq!(encode_packet(&packet("/x", vec![OscType::Double(1.0)])), None);
    assert_eq!(encode_packet(&packet("/x", vec![OscType::Int(1), OscType::Nil])), None);
    // a single that is no number is sent all the same, and stays none
    let bytes = encode_packet(&packet("/x", vec![OscType::Int(9), OscType::Float(f32::NAN)])).unwrap();
    assert_eq!(bytes[..12], *b"/x\0\0,if\0\0\0\0\x09");
    assert!(f32::from_be_bytes([bytes[12], bytes[13], bytes[14], bytes[15]]).is_nan());
    assert_eq!(bytes.len(), 16);
}

#[test]
fn what_is_sent_is_received() {
    let p = packet("/track/1/xy", vec![OscType::Float(0.5), OscType::Int(1)]);
    let mut s = Shared::default();
    OscReceiver::new(false, 9100).receive(&mut s, &encode_packet(&p).unwrap());
    assert_eq!(s.pos[1], ((0.5f32.to_bits() as u64) << 32) | 1.0f32.to_bits() as u64);
}

#[test]
fn notes_are_queued_in_order() {
    let mut sender = OscSender::new();
    sender.note(0, 1, 2);
    sender.note(3, 4, 5);
    let notes: Vec<u8> = sender.take().iter().map(|n| n.note).collect();
    assert_eq!(notes, [1, 4]);
    assert!(sender.take().is_empty());
}

#[test]
fn notes_of_every_track_are_read_back() {
    for track in 0..=255u8 {
        let vel = (track as f32 / 255.0).to_bits();
        let p = outgoing(&note_message(&Note { track, note: 127 - track / 2, vel }));
        let (rest, back) = rosc::decoder::decode_udp(&encode_packet(&p).unwrap()).map(|(r, b)| (r.len(), b)).unwrap();
        assert_eq!((rest, back), (0, p));
    }
}
