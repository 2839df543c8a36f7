//! Where the sequencer's output goes: events to the host and, if there is one, to a MIDI
//! port of our own; mirrored notes to the OSC target, if there is one.

use crate::engine::{Note, NoteEvent, Output};
use crate::midi::{message_of, MidiSender};
use crate::osc::OscSender;
use vstd::prelude::*;

verus! {

/// The events of a run of outputs, in order.
pub open spec fn events_of(out: Seq<Output>) -> Seq<NoteEvent>
    decreases out.len(),
{
    if out.len() == 0 {
        Seq::empty()
    } else {
        match out.last() {
            Output::Event(ev) => events_of(out.drop_last()).push(ev),
            Output::Osc(n) => events_of(out.drop_last()),
        }
    }
}

/// The note that an output mirrors, if it does.
pub open spec fn mirrored(o: Output) -> Seq<Note> {
    match o {
        Output::Osc(n) => seq![n],
        _ => Seq::empty(),
    }
}

/// The mirrored notes of a run of outputs, in order.
pub open spec fn notes_of(out: Seq<Output>) -> Seq<Note>
    decreases out.len(),
{
    if out.len() == 0 {
        Seq::empty()
    } else {
        notes_of(out.drop_last()) + mirrored(out.last())
    }
}

/// The messages of a run of events.
pub open spec fn messages_of(events: Seq<NoteEvent>) -> Seq<Seq<u8>> {
    events.map_values(|ev: NoteEvent| message_of(ev))
}

/// Sends an event to the host and, if there is one, to our own MIDI port.
fn emit(events: &mut Vec<NoteEvent>, midi: &mut Option<MidiSender>, ev: NoteEvent)
    ensures
        final(events)@ == old(events)@.push(ev),
        match *old(midi) {
            Some(m) => *final(midi) is Some && final(midi)->0@ == m@.push(message_of(ev)),
            None => *final(midi) is None,
        },
{
    if let Some(m) = midi {
        m.send_event(&ev);
    }
    events.push(ev);
}

/// Hands the sequencer's output on and returns the events for the host.
pub fn route(
    out: &Vec<Output>,
    midi: &mut Option<MidiSender>,
    osc: &mut Option<OscSender>,
) -> (r: Vec<NoteEvent>)
    ensures
        r@ == events_of(out@),
        match *old(midi) {
            Some(m) => *final(midi) is Some && final(midi)->0@ == m@ + messages_of(events_of(out@)),
            None => *final(midi) is None,
        },
        match *old(osc) {
            Some(o) => *final(osc) is Some && final(osc)->0@ == o@ + notes_of(out@),
            None => *final(osc) is None,
        },
{
    let mut r: Vec<NoteEvent> = Vec::new();
    let mut i: usize = 0;
    assert(out@.take(0) =~= Seq::<Output>::empty());
    assert(*midi is Some ==> midi->0@ + messages_of(Seq::empty()) =~= midi->0@);
    assert(*osc is Some ==> osc->0@ + Seq::<Note>::empty() =~= osc->0@);
    while i < out.len()
        invariant
            i <= out@.len(),
            r@ == events_of(out@.take(i as int)),
            match *old(midi) {
                Some(m) => *midi is Some && midi->0@ == m@ + messages_of(
                    events_of(out@.take(i as int)),
                ),
                None => *midi is None,
            },
            match *old(osc) {
                Some(o) => *osc is Some && osc->0@ == o@ + notes_of(out@.take(i as int)),
                None => *osc is None,
            },
        decreases out@.len() - i,
    {
        let ghost was = out@.take(i as int);
        assert(out@.take(i + 1).drop_last() =~= was);
        assert(out@.take(i + 1).last() == out@[i as int]);
        match out[i] {
            Output::Event(ev) => {
                emit(&mut r, midi, ev);
                proof {
                    assert(notes_of(was) + Seq::empty() =~= notes_of(was));
                    assert(messages_of(events_of(was).push(ev)) =~= messages_of(
                        events_of(was),
                    ).push(message_of(ev)));
                    let m = old(midi)->0@;
                    assert((m + messages_of(events_of(was))).push(message_of(ev)) =~= m
                        + messages_of(events_of(was)).push(message_of(ev)));
                }
            },
            Output::Osc(n) => {
                if let Some(o) = osc {
                    o.note(n.track, n.note, n.vel);
                }
                proof {
                    let o = old(osc)->0@;
                    assert((o + notes_of(was)).push(n) =~= o + (notes_of(was) + seq![n]));
                }
            },
        }
        i += 1;
    }
    assert(out@.take(out@.len() as int) =~= out@);
    r
}

/// Nothing is lost, added or moved on the way: what a run of outputs hands on is what its
/// first part hands on, and then what its second part does.
pub proof fn law_outputs_are_handed_on_in_order(a: Seq<Output>, b: Seq<Output>)
    ensures
        events_of(a + b) == events_of(a) + events_of(b),
        notes_of(a + b) == notes_of(a) + notes_of(b),
    decreases b.len(),
{
    if b.len() == 0 {
        assert(a + b =~= a);
        assert(events_of(a) + events_of(b) =~= events_of(a));
        assert(notes_of(a) + notes_of(b) =~= notes_of(a));
    } else {
        law_outputs_are_handed_on_in_order(a, b.drop_last());
        assert((a + b).drop_last() =~= a + b.drop_last());
        assert((a + b).last() == b.last());
        assert(events_of(a + b) =~= events_of(a) + events_of(b));
        assert(notes_of(a + b) =~= notes_of(a) + notes_of(b));
    }
}

/// Every event, of whatever kind and on whatever channel, is handed on as it is and as an
/// event only; every mirrored note as it is and as a note only.
pub proof fn law_every_output_is_handed_on(ev: NoteEvent, note: Note)
    ensures
        events_of(seq![Output::Event(ev)]) == seq![ev],
        notes_of(seq![Output::Event(ev)]) == Seq::<Note>::empty(),
        events_of(seq![Output::Osc(note)]) == Seq::<NoteEvent>::empty(),
        notes_of(seq![Output::Osc(note)]) == seq![note],
        events_of(Seq::<Output>::empty()) == Seq::<NoteEvent>::empty(),
        notes_of(Seq::<Output>::empty()) == Seq::<Note>::empty(),
{
    let (e, n) = (seq![Output::Event(ev)], seq![Output::Osc(note)]);
    assert(e.drop_last() =~= Seq::<Output>::empty());
    assert(n.drop_last() =~= Seq::<Output>::empty());
    assert(events_of(e.drop_last()) =~= Seq::<NoteEvent>::empty());
    assert(notes_of(n.drop_last()) =~= Seq::<Note>::empty());
    assert(events_of(e) =~= seq![ev]);
    assert(notes_of(n) =~= seq![note]);
    assert(notes_of(e) =~= Seq::<Note>::empty());
}

/// As many events and notes are handed on as there are outputs, and every event that is put
/// out is among those handed on.
pub proof fn law_nothing_is_lost(out: Seq<Output>)
    ensures
        events_of(out).len() + notes_of(out).len() == out.len(),
        forall|i: int|
            0 <= i < out.len() ==> match #[trigger] out[i] {
                Output::Event(ev) => events_of(out).contains(ev),
                Output::Osc(n) => notes_of(out).contains(n),
            },
    decreases out.len(),
{
    if out.len() > 0 {
        let before = out.drop_last();
        law_nothing_is_lost(before);
        law_outputs_are_handed_on_in_order(before, seq![out.last()]);
        assert(before + seq![out.last()] =~= out);
        match out.last() {
            Output::Event(ev) => {
                law_every_output_is_handed_on(ev, arbitrary());
                assert(events_of(out).last() == ev);
            },
            Output::Osc(n) => {
                law_every_output_is_handed_on(arbitrary(), n);
                assert(notes_of(out).last() == n);
            },
        }
        assert forall|i: int| 0 <= i < out.len() implies match #[trigger] out[i] {
            Output::Event(ev) => events_of(out).contains(ev),
            Output::Osc(n) => notes_of(out).contains(n),
        } by {
            if i < out.len() - 1 {
                assert(out[i] == before[i]);
                match out[i] {
                    Output::Event(ev) => {
                        let k = choose|k: int|
                            0 <= k < events_of(before).len() && events_of(before)[k] == ev;
                        assert(events_of(out)[k] == ev);
                    },
                    Output::Osc(n) => {
                        let k = choose|k: int|
                            0 <= k < notes_of(before).len() && notes_of(before)[k] == n;
                        assert(notes_of(out)[k] == n);
                    },
                }
            }
        }
    }
}

/// The MIDI port gets one message for every event, in order, and each is that of its event.
pub proof fn law_every_event_has_its_message(events: Seq<NoteEvent>)
    ensures
        messages_of(events).len() == events.len(),
        forall|i: int|
            0 <= i < events.len() ==> #[trigger] messages_of(events)[i] == message_of(events[i]),
{
}

} // verus!
