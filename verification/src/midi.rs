//! MIDI output: events as three-byte messages, queued for whatever owns the port.

use crate::engine::NoteEvent;
use crate::single::{data_byte, level_to_data};
use vstd::prelude::*;

verus! {

/// The status byte of a message: its kind in the upper half, the channel in the lower.
pub open spec fn status_byte(kind: u8, channel: u8) -> u8 {
    kind | channel
}

/// The message of an event.
pub open spec fn message_of(ev: NoteEvent) -> Seq<u8> {
    match ev {
        NoteEvent::NoteOn { timing, channel, note, velocity } => seq![
            status_byte(0x90, channel),
            note,
            data_byte(velocity) as u8,
        ],
        NoteEvent::NoteOff { timing, channel, note, velocity } => seq![
            status_byte(0x80, channel),
            note,
            0u8,
        ],
        NoteEvent::MidiCC { timing, channel, cc, value } => seq![
            status_byte(0xB0, channel),
            cc,
            data_byte(value) as u8,
        ],
    }
}

/// The message of an event.
pub fn encode_event(ev: &NoteEvent) -> (r: [u8; 3])
    ensures
        r@ == message_of(*ev),
{
    let r = match *ev {
        NoteEvent::NoteOn { timing, channel, note, velocity } => [
            0x90 | channel,
            note,
            level_to_data(velocity),
        ],
        NoteEvent::NoteOff { timing, channel, note, velocity } => [0x80 | channel, note, 0],
        NoteEvent::MidiCC { timing, channel, cc, value } => [
            0xB0 | channel,
            cc,
            level_to_data(value),
        ],
    };
    assert(r@ =~= message_of(*ev));
    r
}

/// Messages on their way out. The audio side only queues them; the port is owned and
/// written elsewhere.
#[derive(Debug)]
pub struct MidiSender {
    pub outbox: Vec<[u8; 3]>,
}

impl View for MidiSender {
    type V = Seq<Seq<u8>>;

    open spec fn view(&self) -> Seq<Seq<u8>> {
        self.outbox@.map_values(|m: [u8; 3]| m@)
    }
}

impl MidiSender {
    /// A sender with nothing queued.
    pub fn new() -> (r: Self)
        ensures
            r@ == Seq::<Seq<u8>>::empty(),
    {
        let r = MidiSender { outbox: Vec::new() };
        assert(r@ =~= Seq::<Seq<u8>>::empty());
        r
    }

    /// Queues the message of an event.
    pub fn send_event(&mut self, ev: &NoteEvent)
        ensures
            final(self)@ == old(self)@.push(message_of(*ev)),
    {
        self.outbox.push(encode_event(ev));
        assert(self@ =~= old(self)@.push(message_of(*ev)));
    }

    /// Takes the queued messages, oldest first.
    pub fn take(&mut self) -> (r: Vec<[u8; 3]>)
        ensures
            r@.map_values(|m: [u8; 3]| m@) == old(self)@,
            final(self)@ == Seq::<Seq<u8>>::empty(),
    {
        let mut r: Vec<[u8; 3]> = Vec::new();
        std::mem::swap(&mut r, &mut self.outbox);
        assert(self@ =~= Seq::<Seq<u8>>::empty());
        r
    }
}

/// Where to send: a port of our own, or one of those that there are.
#[derive(PartialEq, Eq, Structural, Clone, Copy, Debug)]
pub enum Port {
    Virtual,
    Existing(usize),
}

/// Whether a port, whose name may be unknown, has a name.
pub open spec fn is_named(name: Option<String>, port: Seq<char>) -> bool {
    name matches Some(n) && n@ == port
}

/// The first of several ports that has a name.
pub open spec fn first_named(names: Seq<Option<String>>, port: Seq<char>) -> Option<int>
    decreases names.len(),
{
    if names.len() == 0 {
        None
    } else {
        match first_named(names.drop_last(), port) {
            Some(i) => Some(i),
            None => if is_named(names.last(), port) {
                Some(names.len() - 1)
            } else {
                None
            },
        }
    }
}

proof fn lemma_first_named(names: Seq<Option<String>>, port: Seq<char>)
    ensures
        match first_named(names, port) {
            Some(i) => {
                &&& 0 <= i < names.len()
                &&& is_named(names[i], port)
                &&& forall|j: int| 0 <= j < i ==> !is_named(#[trigger] names[j], port)
            },
            None => forall|j: int| 0 <= j < names.len() ==> !is_named(#[trigger] names[j], port),
        },
    decreases names.len(),
{
    if names.len() > 0 {
        lemma_first_named(names.drop_last(), port);
        assert(forall|j: int| 0 <= j < names.len() - 1 ==> names.drop_last()[j] == names[j]);
    }
}

/// The first port with the name is taken: one further on is looked at only if none before it
/// has the name, and one whose name is unknown is never taken.
pub proof fn law_the_first_port_is_taken(
    a: Seq<Option<String>>,
    b: Seq<Option<String>>,
    port: Seq<char>,
)
    ensures
        first_named(a + b, port) == match first_named(a, port) {
            Some(i) => Some(i),
            None => match first_named(b, port) {
                Some(i) => Some(a.len() + i),
                None => None,
            },
        },
        a.len() == 0 ==> first_named(a, port) is None,
        a.len() == 1 ==> first_named(a, port) == match a[0] {
            Some(n) => if n@ == port {
                Some(0int)
            } else {
                None
            },
            None => None,
        },
    decreases b.len(),
{
    if a.len() == 1 {
        assert(a.drop_last() =~= Seq::<Option<String>>::empty());
        assert(first_named(a.drop_last(), port) is None);
    }
    if b.len() == 0 {
        assert(a + b =~= a);
    } else {
        law_the_first_port_is_taken(a, b.drop_last(), port);
        assert((a + b).drop_last() =~= a + b.drop_last());
        assert((a + b).last() == b.last());
    }
}

/// Chooses the port to open: a virtual one if asked for, else the first of the existing
/// ports that has the name. `None` if there is no such port.
pub fn choose_port(names: &Vec<Option<String>>, port: &String, virtual_port: bool) -> (r: Option<
    Port,
>)
    ensures
        virtual_port <==> r == Some(Port::Virtual),
        !virtual_port ==> match r {
            Some(Port::Existing(i)) => {
                &&& i < names@.len()
                &&& is_named(names@[i as int], port@)
                &&& forall|j: int| 0 <= j < i ==> !is_named(#[trigger] names@[j], port@)
            },
            Some(Port::Virtual) => false,
            None => forall|j: int|
                0 <= j < names@.len() ==> !is_named(#[trigger] names@[j], port@),
        },
        !virtual_port ==> match first_named(names@, port@) {
            Some(i) => r == Some(Port::Existing(i as usize)),
            None => r is None,
        },
{
    if virtual_port {
        return Some(Port::Virtual);
    }
    let mut i: usize = 0;
    while i < names.len()
        invariant
            i <= names@.len(),
            !virtual_port,
            forall|j: int| 0 <= j < i ==> !is_named(#[trigger] names@[j], port@),
        decreases names@.len() - i,
    {
        if let Some(name) = &names[i] {
            if *name == *port {
                proof {
                    lemma_first_named(names@, port@);
                    assert(is_named(names@[i as int], port@));
                }
                return Some(Port::Existing(i));
            }
        }
        i += 1;
    }
    proof {
        lemma_first_named(names@, port@);
    }
    None
}

/// The names of the ports that could be read, for the picker.
pub open spec fn readable_names(names: Seq<Option<String>>) -> Seq<Seq<char>>
    decreases names.len(),
{
    if names.len() == 0 {
        Seq::empty()
    } else {
        match names.last() {
            Some(n) => readable_names(names.drop_last()).push(n@),
            None => readable_names(names.drop_last()),
        }
    }
}

/// The names of the output ports, for the settings picker; ports whose name cannot be read
/// are left out.
pub fn output_ports(names: &Vec<Option<String>>) -> (r: Vec<String>)
    ensures
        r@.map_values(|s: String| s@) == readable_names(names@),
{
    let mut r: Vec<String> = Vec::new();
    let mut i: usize = 0;
    assert(r@.map_values(|s: String| s@) =~= readable_names(names@.take(0)));
    while i < names.len()
        invariant
            i <= names@.len(),
            r@.map_values(|s: String| s@) == readable_names(names@.take(i as int)),
        decreases names@.len() - i,
    {
        assert(names@.take(i + 1).drop_last() =~= names@.take(i as int));
        if let Some(name) = &names[i] {
            let ghost was = r@;
            r.push(name.clone());
            assert(r@.map_values(|s: String| s@) =~= was.map_values(|s: String| s@).push(name@));
        }
        i += 1;
    }
    assert(names@.take(names@.len() as int) =~= names@);
    r
}

/// On any of the sixteen channels a message is well formed: a status byte of its kind and
/// channel, then two data bytes.
pub proof fn law_messages_are_well_formed(ev: NoteEvent)
    requires
        match ev {
            NoteEvent::NoteOn { timing, channel, note, velocity } => channel < 16 && note < 128,
            NoteEvent::NoteOff { timing, channel, note, velocity } => channel < 16 && note < 128,
            NoteEvent::MidiCC { timing, channel, cc, value } => channel < 16 && cc < 128,
        },
    ensures
        message_of(ev).len() == 3,
        message_of(ev)[1] < 128,
        message_of(ev)[2] < 128,
        match ev {
            NoteEvent::NoteOn { timing, channel, note, velocity } => message_of(ev)[0] == 0x90
                + channel,
            NoteEvent::NoteOff { timing, channel, note, velocity } => message_of(ev)[0] == 0x80
                + channel,
            NoteEvent::MidiCC { timing, channel, cc, value } => message_of(ev)[0] == 0xB0 + channel,
        },
{
    match ev {
        NoteEvent::NoteOn { timing, channel, note, velocity } => {
            assert(channel < 16 ==> (0x90u8 | channel) == 0x90u8 + channel) by (bit_vector);
        },
        NoteEvent::NoteOff { timing, channel, note, velocity } => {
            assert(channel < 16 ==> (0x80u8 | channel) == 0x80u8 + channel) by (bit_vector);
        },
        NoteEvent::MidiCC { timing, channel, cc, value } => {
            assert(channel < 16 ==> (0xB0u8 | channel) == 0xB0u8 + channel) by (bit_vector);
        },
    }
}

/// A note-on carries its note and 127 parts of its velocity, a note-off its note and nothing,
/// a controller its number and 127 parts of its value; which sample the event belongs to, and
/// the release velocity, make no difference.
pub proof fn law_messages_carry_their_events(ev: NoteEvent, timing: u32, level: u32)
    ensures
        match ev {
            NoteEvent::NoteOn { timing: _, channel, note, velocity } => {
                &&& message_of(ev)[1] == note
                &&& message_of(ev)[2] == data_byte(velocity)
                &&& message_of(NoteEvent::NoteOn { timing, channel, note, velocity })
                    == message_of(ev)
            },
            NoteEvent::NoteOff { timing: _, channel, note, velocity: _ } => {
                &&& message_of(ev)[1] == note
                &&& message_of(ev)[2] == 0
                &&& message_of(NoteEvent::NoteOff { timing, channel, note, velocity: level })
                    == message_of(ev)
            },
            NoteEvent::MidiCC { timing: _, channel, cc, value } => {
                &&& message_of(ev)[1] == cc
                &&& message_of(ev)[2] == data_byte(value)
                &&& message_of(NoteEvent::MidiCC { timing, channel, cc, value }) == message_of(ev)
            },
        },
{
}

/// The picker lists the ports that have a name that can be read, in order, and no others.
pub proof fn law_readable_names_are_listed(a: Seq<Option<String>>, b: Seq<Option<String>>)
    ensures
        readable_names(a + b) == readable_names(a) + readable_names(b),
        a.len() == 1 ==> readable_names(a) == match a[0] {
            Some(n) => seq![n@],
            None => Seq::<Seq<char>>::empty(),
        },
        a.len() == 0 ==> readable_names(a) == Seq::<Seq<char>>::empty(),
    decreases b.len(),
{
    if a.len() == 1 {
        assert(a.drop_last() =~= Seq::<Option<String>>::empty());
        assert(readable_names(a.drop_last()) =~= Seq::<Seq<char>>::empty());
        if let Some(n) = a[0] {
            assert(readable_names(a) =~= seq![n@]);
        }
    }
    if b.len() == 0 {
        assert(a + b =~= a);
        assert(readable_names(a) + readable_names(b) =~= readable_names(a));
    } else {
        law_readable_names_are_listed(a, b.drop_last());
        assert((a + b).drop_last() =~= a + b.drop_last());
        assert((a + b).last() == b.last());
        assert(readable_names(a + b) =~= readable_names(a) + readable_names(b));
    }
}

} // verus!
