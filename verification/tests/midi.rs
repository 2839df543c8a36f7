use trafalgar::engine::NoteEvent;
use trafalgar::midi::{choose_port, encode_event, output_ports, MidiSender, Port};

fn on(channel: u8, note: u8, velocity: f32) -> NoteEvent {
    NoteEvent::NoteOn { timing: 7, channel, note, velocity: velocity.to_bits() }
}

#[test]
fn events_become_three_bytes() {
    assert_eq!(encode_event(&on(0, 60, 1.0)), [0x90, 60, 127]);
    assert_eq!(encode_event(&on(15, 0, 0.7)), [0x9f, 0, 88]);
    let off = NoteEvent::NoteOff { timing: 0, channel: 3, note: 61, velocity: 1.0f32.to_bits() };
    assert_eq!(encode_event(&off), [0x83, 61, 0]);
    let cc = NoteEvent::MidiCC { timing: 0, channel: 2, cc: 65, value: 1.0f32.to_bits() };
    assert_eq!(encode_event(&cc), [0xb2, 65, 127]);
    let cc = NoteEvent::MidiCC { timing: 0, channel: 2, cc: 65, value: 0 };
    assert_eq!(encode_event(&cc), [0xb2, 65, 0]);
}

#[test]
fn levels_are_cut_to_seven_bits() {
    for v in [0.0f32, 0.1, 0.25, 0.499, 0.5, 0.7, 0.999, 1.0, 1.5, -0.2, f32::INFINITY, f32::NAN] {
        let want = (v * 127.0).clamp(0.0, 127.0) as u8;
        assert_eq!(encode_event(&on(1, 2, v))[2], want, "{v}");
    }
}

#[test]
fn messages_of_every_channel_are_well_formed() {
    for channel in 0..16u8 {
        for (ev, kind) in [
            (on(channel, 127, 0.3), 0x90),
            (NoteEvent::NoteOff { timing: 0, channel, note: 127, velocity: 0 }, 0x80),
            (NoteEvent::MidiCC { timing: 0, channel, cc: 127, value: 0x3f80_0000 }, 0xb0),
        ] {
            let m = encode_event(&ev);
            assert_eq!(m[0], kind + channel);
            assert!(m[1] < 128 && m[2] < 128);
        }
    }
}

#[test]
fn messages_are_queued_in_order() {
    let mut sender = MidiSender::new();
    sender.send_event(&on(0, 60, 1.0));
    sender.send_event(&on(1, 61, 0.0));
    assert_eq!(sender.take(), [[0x90, 60, 127], [0x91, 61, 0]]);
    assert!(sender.take().is_empty());
}

#[test]
fn the_first_port_of_the_name_is_chosen() {
    let names = vec![None, Some("Synth".to_string()), Some("Drums".to_string()), Some("Drums".to_string())];
    let port = |p: &str, v: bool| choose_port(&names, &p.to_string(), v);
    assert_eq!(port("Drums", false), Some(Port::Existing(2)));
    assert_eq!(port("Synth", false), Some(Port::Existing(1)));
    assert_eq!(port("synth", false), None);
    assert_eq!(port("", false), None);
    assert_eq!(port("Drums", true), Some(Port::Virtual));
    assert_eq!(port("nowhere", true), Some(Port::Virtual));
    assert_eq!(choose_port(&vec![], &"Synth".to_string(), false), None);
}

#[test]
fn ports_without_a_name_are_not_listed() {
    let names = vec![Some("A".to_string()), None, Some("B".to_string())];
    assert_eq!(output_ports(&names), ["A", "B"]);
    assert!(output_ports(&vec![]).is_empty());
    assert!(output_ports(&vec![None]).is_empty());
}
