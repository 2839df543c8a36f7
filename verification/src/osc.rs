//! OSC. Outgoing: notes mirrored as messages. Incoming: a remote control that writes the
//! same pad state as the mouse. Encoding and decoding are rosc's.

use crate::engine::Note;
use crate::gesture::{empty_loop, NUM_TRACKS};
use crate::shared::{pack, packed, Shared};
use crate::single::{
    clamp_unit, double_as_single, finite, from_double, from_int, half_or_more, int_as_single,
    is_finite, is_half_or_more, not_a_number, unit_clamped,
};
use crate::text::{
    decimal, digits, parse_unsigned, push_decimal, push_str, segments, spells, split_segments,
    to_chars, unsigned_value, views,
};
use vstd::prelude::*;
use vstd::utf8::encode_utf8;

verus! {

/// The longest datagram that the receiver takes in.
pub const DATAGRAM: usize = 1024;

/// An argument of a message, as far as control messages use them: numbers of single and
/// double precision by their patterns.
#[derive(PartialEq, Eq, Structural, Clone, Copy, Debug)]
pub enum Arg {
    Int(i32),
    Float(u32),
    Double(u64),
    Other,
}

/// A message: an address with its arguments.
#[derive(Debug)]
pub struct Message {
    pub addr: String,
    pub args: Vec<Arg>,
}

/// A decoded control message. Parsed, and checked, apart from applying it.
#[derive(PartialEq, Eq, Structural, Clone, Copy, Debug)]
pub enum Msg {
    /// Pad position: track, x (pitch), y (density), both finite and from 0 to 1.
    Xy(usize, u32, u32),
    /// Pad-touch gate: track, open?
    Gate(usize, bool),
    /// Momentary erase: track, held?
    Erase(usize, bool),
    /// One-shot wipe of the track's recorded loop.
    Clear(usize),
}

impl Msg {
    /// The track that a message is for.
    pub open spec fn track(self) -> usize {
        match self {
            Msg::Xy(n, x, y) => n,
            Msg::Gate(n, open) => n,
            Msg::Erase(n, on) => n,
            Msg::Clear(n) => n,
        }
    }
}

/// The finite single that an argument stands for: numbers of any kind are converted,
/// everything else is rejected.
pub open spec fn arg_single(a: Arg) -> Option<u32> {
    match a {
        Arg::Float(b) => if finite(b) {
            Some(b)
        } else {
            None
        },
        Arg::Int(i) => Some(int_as_single(i)),
        Arg::Double(d) => double_as_single(d),
        Arg::Other => None,
    }
}

/// Coerces an argument to a finite single (accepts int/float/double). `None` = reject.
pub fn as_f32(t: &Arg) -> (r: Option<u32>)
    ensures
        r == arg_single(*t),
        r matches Some(b) ==> finite(b),
{
    match *t {
        Arg::Float(b) => if is_finite(b) {
            Some(b)
        } else {
            None
        },
        Arg::Int(i) => Some(from_int(i)),
        Arg::Double(d) => from_double(d),
        Arg::Other => None,
    }
}

/// Whether the first argument asks for "on": at least one half. `None` = reject.
pub open spec fn switch(args: Seq<Arg>) -> Option<bool> {
    if args.len() == 0 {
        None
    } else {
        match arg_single(args[0]) {
            Some(v) => Some(half_or_more(v)),
            None => None,
        }
    }
}

/// The command that a kind of message with its arguments is.
pub open spec fn command(n: usize, kind: Seq<char>, args: Seq<Arg>) -> Option<Msg> {
    if kind == "xy"@ {
        if args.len() != 2 {
            None
        } else {
            match (arg_single(args[0]), arg_single(args[1])) {
                (Some(x), Some(y)) => Some(Msg::Xy(n, unit_clamped(x), unit_clamped(y))),
                _ => None,
            }
        }
    } else if kind == "gate"@ {
        match switch(args) {
            Some(on) => Some(Msg::Gate(n, on)),
            None => None,
        }
    } else if kind == "erase"@ {
        match switch(args) {
            Some(on) => Some(Msg::Erase(n, on)),
            None => None,
        }
    } else if kind == "clear"@ {
        match switch(args) {
            Some(true) => Some(Msg::Clear(n)),
            _ => None,
        }
    } else {
        None
    }
}

/// The control message in an address `/track/{n}/{kind}` and its arguments.
pub open spec fn parsed(addr: Seq<char>, args: Seq<Arg>) -> Option<Msg> {
    if addr.len() == 0 || addr[0] != '/' {
        None
    } else {
        let seg = segments(addr.skip(1));
        if seg.len() != 3 || seg[0] != "track"@ {
            None
        } else {
            match unsigned_value(seg[1]) {
                Some(n) => if n < NUM_TRACKS {
                    command(n as usize, seg[2], args)
                } else {
                    None
                },
                None => None,
            }
        }
    }
}

/// Whether the first argument asks for "on".
fn read_switch(args: &[Arg]) -> (r: Option<bool>)
    ensures
        r == switch(args@),
{
    if args.len() == 0 {
        return None;
    }
    match as_f32(&args[0]) {
        Some(v) => Some(is_half_or_more(v)),
        None => None,
    }
}

/// The address without its leading slash, cut at the others.
fn address_segments(addr: &str) -> (r: Option<Vec<Vec<char>>>)
    ensures
        match r {
            Some(v) => addr@.len() > 0 && addr@[0] == '/' && views(v@) == segments(addr@.skip(1)),
            None => addr@.len() == 0 || addr@[0] != '/',
        },
{
    let chars = to_chars(addr);
    if chars.len() == 0 || chars[0] != '/' {
        return None;
    }
    let mut rest: Vec<char> = Vec::new();
    let mut i: usize = 1;
    while i < chars.len()
        invariant
            1 <= i <= chars@.len(),
            rest@ == chars@.subrange(1, i as int),
        decreases chars@.len() - i,
    {
        rest.push(chars[i]);
        i += 1;
        assert(rest@ =~= chars@.subrange(1, i as int));
    }
    assert(rest@ =~= addr@.skip(1));
    Some(split_segments(&rest))
}

/// Defensive parse of one control message. This is a trust boundary: anything malformed,
/// out of range or non-finite is `None` and never reaches the shared state.
pub fn parse(addr: &str, args: &[Arg]) -> (r: Option<Msg>)
    ensures
        r == parsed(addr@, args@),
        r matches Some(m) ==> m.track() < NUM_TRACKS,
{
    let seg = match address_segments(addr) {
        Some(v) => v,
        None => {
            return None;
        },
    };
    if seg.len() != 3 {
        return None;
    }
    let ghost parts = segments(addr@.skip(1));
    assert(parts.len() == seg@.len());
    assert(parts[0] == seg@[0]@ && parts[1] == seg@[1]@ && parts[2] == seg@[2]@);
    if !spells(&seg[0], "track") {
        return None;
    }
    let n: usize = match parse_unsigned(&seg[1], NUM_TRACKS as u64 - 1) {
        Some(n) => n as usize,
        None => {
            return None;
        },
    };
    let kind = &seg[2];
    if spells(kind, "xy") {
        if args.len() != 2 {
            return None;
        }
        match (as_f32(&args[0]), as_f32(&args[1])) {
            (Some(x), Some(y)) => Some(Msg::Xy(n, clamp_unit(x), clamp_unit(y))),
            _ => None,
        }
    } else if spells(kind, "gate") {
        match read_switch(args) {
            Some(on) => Some(Msg::Gate(n, on)),
            None => None,
        }
    } else if spells(kind, "erase") {
        match read_switch(args) {
            Some(on) => Some(Msg::Erase(n, on)),
            None => None,
        }
    } else if spells(kind, "clear") {
        match read_switch(args) {
            Some(on) => if on {
                Some(Msg::Clear(n))
            } else {
                None
            },
            None => None,
        }
    } else {
        None
    }
}

/// The part of the shared state that a remote control writes.
#[verifier::ext_equal]
pub struct Controls {
    pub gate: Seq<bool>,
    pub pos: Seq<u64>,
    pub erase: Seq<bool>,
    pub loops: Seq<Seq<i32>>,
}

/// What a remote control can write of the shared state.
pub open spec fn controls(s: Shared) -> Controls {
    Controls { gate: s.gate@, pos: s.pos@, erase: s.erase@, loops: s.gesture@ }
}

/// What a remote control cannot write is the same.
pub open spec fn same_rest(a: Shared, b: Shared) -> bool {
    &&& a.step == b.step
    &&& a.osc_dirty == b.osc_dirty
    &&& a.osc_in_dirty == b.osc_in_dirty
    &&& a.osc_in_status == b.osc_in_status
    &&& a.midi_dirty == b.midi_dirty
    &&& a.midi_status == b.midi_status
    &&& a.link_dirty == b.link_dirty
    &&& a.link_peers == b.link_peers
}

/// The controls after a control message.
pub open spec fn applied(c: Controls, m: Msg) -> Controls {
    match m {
        Msg::Xy(n, x, y) => Controls { pos: c.pos.update(n as int, packed(x, y)), ..c },
        Msg::Gate(n, open) => Controls { gate: c.gate.update(n as int, open), ..c },
        Msg::Erase(n, on) => Controls { erase: c.erase.update(n as int, on), ..c },
        Msg::Clear(n) => Controls { loops: c.loops.update(n as int, empty_loop()), ..c },
    }
}

/// Writes a parsed message into the state that the mouse pad writes.
pub fn apply(shared: &mut Shared, m: Msg)
    requires
        m.track() < NUM_TRACKS,
    ensures
        controls(*final(shared)) == applied(controls(*old(shared)), m),
        same_rest(*final(shared), *old(shared)),
{
    match m {
        Msg::Xy(n, x, y) => {
            shared.pos[n] = pack(x, y);
        },
        Msg::Gate(n, open) => {
            shared.gate[n] = open;
        },
        Msg::Erase(n, on) => {
            shared.erase[n] = on;
        },
        Msg::Clear(n) => {
            shared.gesture.clear(n);
        },
    }
    assert(controls(*shared) =~= applied(controls(*old(shared)), m));
}

/// A packet: a message, or a bundle of packets.
pub enum Tree {
    Message(Seq<char>, Seq<Arg>),
    Bundle(Seq<Tree>),
}

/// The controls after a message: those that do not parse change nothing.
pub open spec fn message_handled(c: Controls, addr: Seq<char>, args: Seq<Arg>) -> Controls {
    match parsed(addr, args) {
        Some(m) => applied(c, m),
        None => c,
    }
}

/// The controls after a packet.
pub open spec fn handled(c: Controls, t: Tree) -> Controls
    decreases t,
{
    match t {
        Tree::Message(addr, args) => message_handled(c, addr, args),
        Tree::Bundle(content) => all_handled(c, content),
    }
}

/// The controls after the packets of a bundle, one after the other.
pub open spec fn all_handled(c: Controls, content: Seq<Tree>) -> Controls
    decreases content,
{
    if content.len() == 0 {
        c
    } else {
        handled(all_handled(c, content.drop_last()), content.last())
    }
}

/// Handles one message.
pub fn handle_message(shared: &mut Shared, addr: &str, args: &[Arg])
    ensures
        controls(*final(shared)) == message_handled(controls(*old(shared)), addr@, args@),
        same_rest(*final(shared), *old(shared)),
{
    if let Some(m) = parse(addr, args) {
        apply(shared, m);
    }
}

/// An error of rosc.
#[verifier::external_type_specification]
#[verifier::external_body]
pub struct ExOscError(rosc::OscError);

/// A packet of rosc.
#[verifier::external_type_specification]
#[verifier::external_body]
pub struct ExOscPacket(rosc::OscPacket);

/// What a packet of rosc holds.
pub uninterp spec fn contents(p: rosc::OscPacket) -> Tree;

/// What the bytes of a datagram decode to, if they do.
pub uninterp spec fn decoded(bytes: Seq<u8>) -> Option<Tree>;

/// A packet taken apart by one level.
pub enum Parts {
    Message(Message),
    Bundle(Vec<rosc::OscPacket>),
}

/// What a packet that was taken apart holds.
pub open spec fn parts_contents(p: Parts) -> Tree {
    match p {
        Parts::Message(m) => Tree::Message(m.addr@, m.args@),
        Parts::Bundle(v) => Tree::Bundle(v@.map_values(|q: rosc::OscPacket| contents(q))),
    }
}

/// Calls `rosc::decoder::decode_udp`. Claims that whether the bytes decode, and what to,
/// depends on the bytes alone. Bundles nest in the bytes and the decoder follows them by
/// recursion, so only what fits in a datagram is handed to it.
#[verifier::external_body]
fn decode_udp(buf: &[u8]) -> (r: Result<rosc::OscPacket, rosc::OscError>)
    requires
        buf@.len() <= DATAGRAM,
    ensures
        match r {
            Ok(p) => decoded(buf@) == Some(contents(p)),
            Err(_) => decoded(buf@) is None,
        },
{
    rosc::decoder::decode_udp(buf).map(|(_, p)| p)
}

/// Reads the public fields of a `rosc::OscPacket`. Claims that they are its contents: the
/// address and the arguments of a message in order, numbers by their patterns, or the
/// packets of a bundle in order.
#[verifier::external_body]
fn unpack(p: &rosc::OscPacket) -> (r: Parts)
    ensures
        parts_contents(r) == contents(*p),
{
    let arg = |t: &rosc::OscType| match t {
        rosc::OscType::Int(i) => Arg::Int(*i),
        rosc::OscType::Float(f) => Arg::Float(f.to_bits()),
        rosc::OscType::Double(d) => Arg::Double(d.to_bits()),
        _ => Arg::Other,
    };
    match p {
        rosc::OscPacket::Message(m) => Parts::Message(
            Message { addr: m.addr.clone(), args: m.args.iter().map(arg).collect() },
        ),
        rosc::OscPacket::Bundle(b) => Parts::Bundle(b.content.clone()),
    }
}

/// Handles a packet: its message, or every packet of its bundle in order.
pub fn handle_packet(shared: &mut Shared, packet: &rosc::OscPacket)
    ensures
        controls(*final(shared)) == handled(controls(*old(shared)), contents(*packet)),
        same_rest(*final(shared), *old(shared)),
    decreases contents(*packet),
{
    match unpack(packet) {
        Parts::Message(m) => {
            handle_message(shared, m.addr.as_str(), m.args.as_slice());
        },
        Parts::Bundle(v) => {
            let ghost content = v@.map_values(|q: rosc::OscPacket| contents(q));
            let ghost before = controls(*shared);
            let mut i: usize = 0;
            assert(content.take(0) =~= Seq::<Tree>::empty());
            while i < v.len()
                invariant
                    i <= v@.len(),
                    content == v@.map_values(|q: rosc::OscPacket| contents(q)),
                    contents(*packet) == Tree::Bundle(content),
                    before == controls(*old(shared)),
                    controls(*shared) == all_handled(before, content.take(i as int)),
                    same_rest(*shared, *old(shared)),
                decreases v@.len() - i,
            {
                proof {
                    assert(content[i as int] == contents(v@[i as int]));
                    assert(decreases_to!(contents(*packet) => contents(*packet)->Bundle_0));
                    assert(decreases_to!(content => content[i as int]));
                }
                handle_packet(shared, &v[i]);
                i += 1;
                assert(content.take(i as int).drop_last() =~= content.take(i - 1));
            }
            assert(content.take(v@.len() as int) =~= content);
        },
    }
}

/// Where the receiver listens, and what it does with what it hears.
#[derive(Clone, Copy, Debug)]
pub struct OscReceiver {
    /// Reachable from the local network, or from this machine only.
    pub lan: bool,
    pub port: u16,
}

/// The address that a receiver binds.
pub open spec fn bind_address(receiver: OscReceiver) -> Seq<char> {
    if receiver.lan {
        "0.0.0.0"@
    } else {
        "127.0.0.1"@
    }
}

impl OscReceiver {
    /// A receiver for a port.
    pub fn new(lan: bool, port: u16) -> (r: Self)
        ensures
            r.lan == lan,
            r.port == port,
    {
        OscReceiver { lan, port }
    }

    /// The address to bind: every interface on the network, loopback otherwise.
    pub fn host(&self) -> (r: &'static str)
        ensures
            r@ == bind_address(*self),
            r@ == if self.lan {
                "0.0.0.0"@
            } else {
                "127.0.0.1"@
            },
    {
        if self.lan {
            "0.0.0.0"
        } else {
            "127.0.0.1"
        }
    }

    /// Handles a datagram. One that does not decode changes nothing.
    pub fn receive(&self, shared: &mut Shared, buf: &[u8])
        requires
            buf@.len() <= DATAGRAM,
        ensures
            controls(*final(shared)) == match decoded(buf@) {
                Some(t) => handled(controls(*old(shared)), t),
                None => controls(*old(shared)),
            },
            same_rest(*final(shared), *old(shared)),
    {
        if let Ok(packet) = decode_udp(buf) {
            handle_packet(shared, &packet);
        }
    }
}

/// Notes on their way out. The audio side only queues them; encoding and sending happen
/// elsewhere.
#[derive(Debug)]
pub struct OscSender {
    pub outbox: Vec<Note>,
}

impl View for OscSender {
    type V = Seq<Note>;

    open spec fn view(&self) -> Seq<Note> {
        self.outbox@
    }
}

impl OscSender {
    /// A sender with nothing queued.
    pub fn new() -> (r: Self)
        ensures
            r@ == Seq::<Note>::empty(),
    {
        OscSender { outbox: Vec::new() }
    }

    /// Queues a note.
    pub fn note(&mut self, track: u8, note: u8, vel: u32)
        ensures
            final(self)@ == old(self)@.push(Note { track, note, vel }),
    {
        self.outbox.push(Note { track, note, vel });
    }

    /// Takes the queued notes, oldest first.
    pub fn take(&mut self) -> (r: Vec<Note>)
        ensures
            r@ == old(self)@,
            final(self)@ == Seq::<Note>::empty(),
    {
        let mut r: Vec<Note> = Vec::new();
        std::mem::swap(&mut r, &mut self.outbox);
        r
    }
}

/// The address that a track's notes are sent to.
pub open spec fn note_address(track: u8) -> Seq<char> {
    "/fig/track/"@ + decimal(track as int) + "/note"@
}

/// The message of a note, as a packet holds it.
pub open spec fn note_tree(n: Note) -> Tree {
    Tree::Message(note_address(n.track), seq![Arg::Int(n.note as i32), Arg::Float(n.vel)])
}

/// The message of a note: `/fig/track/{n}/note [note, velocity]`.
pub fn note_message(n: &Note) -> (r: Message)
    ensures
        r.addr@ == note_address(n.track),
        r.args@ == seq![Arg::Int(n.note as i32), Arg::Float(n.vel)],
        Tree::Message(r.addr@, r.args@) == note_tree(*n),
{
    let mut addr = String::new();
    push_str(&mut addr, "/fig/track/");
    push_decimal(&mut addr, n.track as i64);
    push_str(&mut addr, "/note");
    assert(addr@ =~= note_address(n.track));
    let mut args: Vec<Arg> = Vec::new();
    args.push(Arg::Int(n.note as i32));
    args.push(Arg::Float(n.vel));
    assert(args@ =~= seq![Arg::Int(n.note as i32), Arg::Float(n.vel)]);
    Message { addr, args }
}

/// An argument that outgoing messages carry: an integer or a single.
pub open spec fn sendable(a: Arg) -> bool {
    a is Int || a is Float
}

/// Whether an argument has one pattern only: it is not a single that is no number.
pub open spec fn definite(a: Arg) -> bool {
    a matches Arg::Float(b) ==> !not_a_number(b)
}

/// A word in network order.
pub open spec fn word(n: int) -> Seq<u8> {
    seq![
        (n / 0x100_0000 % 256) as u8,
        (n / 0x1_0000 % 256) as u8,
        (n / 0x100 % 256) as u8,
        (n % 256) as u8,
    ]
}

/// A string on the wire: at least one zero byte behind it, up to a whole word.
pub open spec fn padded(s: Seq<u8>) -> Seq<u8> {
    s + Seq::new((4 - s.len() % 4) as nat, |i: int| 0u8)
}

/// The type tag of an argument.
pub open spec fn type_tag(a: Arg) -> u8 {
    match a {
        Arg::Int(i) => 105,
        _ => 102,
    }
}

/// The word of an argument.
pub open spec fn arg_word(a: Arg) -> Seq<u8> {
    match a {
        Arg::Int(i) => word(i as int),
        Arg::Float(b) => word(b as int),
        _ => Seq::empty(),
    }
}

/// The words of the arguments of a message.
pub open spec fn arg_words(args: Seq<Arg>) -> Seq<u8>
    decreases args.len(),
{
    if args.len() == 0 {
        Seq::empty()
    } else {
        arg_words(args.drop_last()) + arg_word(args.last())
    }
}

/// The datagram of a message: its address, a comma with its type tags, its arguments.
pub open spec fn message_bytes(addr: Seq<char>, args: Seq<Arg>) -> Seq<u8> {
    padded(encode_utf8(addr)) + padded(seq![44u8] + args.map_values(|a: Arg| type_tag(a)))
        + arg_words(args)
}

/// Whether every argument is sendable.
pub open spec fn args_sendable(args: Seq<Arg>) -> bool {
    forall|i: int| 0 <= i < args.len() ==> #[trigger] sendable(args[i])
}

/// Whether every argument is definite.
pub open spec fn args_definite(args: Seq<Arg>) -> bool {
    forall|i: int| 0 <= i < args.len() ==> #[trigger] definite(args[i])
}

/// Whether arguments arrive as others were sent: those that are definite as they are, those
/// that are not as singles that are no numbers either.
pub open spec fn sent_as(args: Seq<Arg>, a: Seq<Arg>) -> bool {
    &&& a.len() == args.len()
    &&& forall|i: int|
        0 <= i < args.len() ==> if definite(#[trigger] args[i]) {
            a[i] == args[i]
        } else {
            a[i] matches Arg::Float(b) && not_a_number(b)
        }
}

/// Whether bytes are the datagram of a message, up to the patterns of singles that are no
/// numbers.
pub open spec fn carries(bytes: Seq<u8>, addr: Seq<char>, args: Seq<Arg>) -> bool {
    exists|a: Seq<Arg>| #[trigger] sent_as(args, a) && bytes == message_bytes(addr, a)
}

/// Arguments that are definite arrive as they are.
proof fn lemma_definite_arguments_stay(bytes: Seq<u8>, addr: Seq<char>, args: Seq<Arg>)
    requires
        carries(bytes, addr, args),
        args_definite(args),
    ensures
        bytes == message_bytes(addr, args),
{
    let a = choose|a: Seq<Arg>| #[trigger] sent_as(args, a) && bytes == message_bytes(addr, a);
    assert forall|i: int| 0 <= i < args.len() implies a[i] == args[i] by {
        assert(definite(args[i]));
    }
    assert(a =~= args);
}

/// Whether a packet is a message of sendable arguments.
pub open spec fn is_sendable(t: Tree) -> bool {
    match t {
        Tree::Message(addr, args) => args_sendable(args),
        Tree::Bundle(content) => false,
    }
}

/// Whether the decoder takes an address for that of a message and reads all of it.
pub open spec fn readable(addr: Seq<char>) -> bool {
    addr.len() > 0 && addr[0] == '/' && forall|i: int| 0 <= i < addr.len() ==> addr[i] != '\0'
}

/// Calls `rosc::encoder::encode` on a message of integers and singles. Claims that it
/// succeeds, which bytes it makes, and that `rosc::decoder::decode_udp` gives the message
/// back from them if its address starts with a slash and holds no zero character. A single
/// that is no number stays none, but its pattern may change on the way, so its four bytes
/// are open to that extent, and such a message is not claimed to come back.
#[verifier::external_body]
fn encode(packet: &rosc::OscPacket) -> (r: Result<Vec<u8>, rosc::OscError>)
    requires
        is_sendable(contents(*packet)),
    ensures
        r is Ok,
        contents(*packet) matches Tree::Message(addr, args) ==> carries(r->Ok_0@, addr, args),
        contents(*packet) matches Tree::Message(addr, args) ==> (args_definite(args) && readable(
            addr,
        ) ==> decoded(r->Ok_0@) == Some(contents(*packet))),
{
    rosc::encoder::encode(packet)
}

/// Whether every argument is sendable.
fn all_sendable(args: &Vec<Arg>) -> (r: bool)
    ensures
        r == args_sendable(args@),
{
    let mut i: usize = 0;
    while i < args.len()
        invariant
            i <= args@.len(),
            forall|j: int| 0 <= j < i ==> sendable(args@[j]),
        decreases args@.len() - i,
    {
        let fine = match args[i] {
            Arg::Int(_) => true,
            Arg::Float(_) => true,
            _ => false,
        };
        assert(fine == sendable(args@[i as int]));
        if !fine {
            return false;
        }
        i += 1;
    }
    true
}

/// A decoder takes the address of a note for that of a message and reads all of it.
pub proof fn law_note_addresses_are_readable(track: u8)
    ensures
        readable(note_address(track)),
{
    reveal_strlit("/fig/track/");
    reveal_strlit("/note");
    reveal_with_fuel(digits, 4);
}

/// The datagram of a message of integers and singles; `None` for any other packet. A
/// receiver gets the message back from it: every note that is mirrored, with a velocity that
/// is a number, arrives as it was sent. Of a single that is no number the datagram holds
/// one that is none either.
pub fn encode_packet(packet: &rosc::OscPacket) -> (r: Option<Vec<u8>>)
    ensures
        r is Some <==> is_sendable(contents(*packet)),
        r matches Some(bytes) ==> {
            &&& contents(*packet) matches Tree::Message(addr, args)
            &&& carries(bytes@, addr, args)
            &&& args_definite(args) ==> bytes@ == message_bytes(addr, args)
            &&& args_definite(args) && readable(addr) ==> decoded(bytes@) == Some(
                contents(*packet),
            )
        },
        forall|n: Note|
            contents(*packet) == #[trigger] note_tree(n) && !not_a_number(n.vel) ==> {
                &&& r is Some
                &&& decoded(r->0@) == Some(note_tree(n))
            },
{
    proof {
        assert forall|n: Note| contents(*packet) == #[trigger] note_tree(n) implies {
            &&& is_sendable(note_tree(n))
            &&& readable(note_address(n.track))
        } by {
            law_note_addresses_are_readable(n.track);
        }
    }
    match unpack(packet) {
        Parts::Message(m) => {
            if !all_sendable(&m.args) {
                return None;
            }
            match encode(packet) {
                Ok(bytes) => {
                    proof {
                        if args_definite(m.args@) {
                            lemma_definite_arguments_stay(bytes@, m.addr@, m.args@);
                        }
                    }
                    Some(bytes)
                },
                Err(_) => None,
            }
        },
        Parts::Bundle(_) => None,
    }
}

/// Whether a pattern is that of a finite number from 0 to 1; a negative zero counts.
pub open spec fn in_unit(bits: u32) -> bool {
    finite(bits) && unit_clamped(bits) == bits
}

/// Nothing malformed gets through: a message that parses is for a track that there is, and
/// a pad position that parses is finite and lies on the pad.
pub proof fn law_parsed_messages_are_safe(addr: Seq<char>, args: Seq<Arg>)
    ensures
        parsed(addr, args) matches Some(m) ==> m.track() < NUM_TRACKS,
        parsed(addr, args) matches Some(Msg::Xy(n, x, y)) ==> in_unit(x) && in_unit(y),
{
}

/// The address of a kind of message for a track.
pub open spec fn control_address(track: nat, kind: Seq<char>) -> Seq<char> {
    "/track/"@ + decimal(track as int) + "/"@ + kind
}

/// An address written as documented is read as documented.
pub proof fn law_control_addresses_are_read_back(track: nat, kind: Seq<char>, args: Seq<Arg>)
    requires
        track < NUM_TRACKS,
        !kind.contains('/'),
    ensures
        parsed(control_address(track, kind), args) == command(track as usize, kind, args),
{
    let addr = control_address(track, kind);
    reveal_strlit("/track/");
    reveal_strlit("track");
    reveal_strlit("/");
    let name = "track"@;
    let digits = decimal(track as int);
    assert(!name.contains('/'));
    assert(digits =~= seq![crate::text::digit_char(track)]);
    assert(!digits.contains('/'));
    crate::text::law_plain_text_is_one_segment(name);
    crate::text::law_plain_text_is_one_segment(digits);
    crate::text::law_plain_text_is_one_segment(kind);
    crate::text::law_slash_parts_segments(digits, kind);
    crate::text::law_slash_parts_segments(name, digits.push('/') + kind);
    assert(addr.skip(1) =~= name.push('/') + (digits.push('/') + kind));
    let seg = segments(addr.skip(1));
    assert(seg =~= seq![name, digits, kind]);
    crate::text::law_number_text_round_trip(track);
}

/// A control message touches its own track and no other.
pub proof fn law_messages_touch_one_track(c: Controls, m: Msg, other: int)
    requires
        m.track() < NUM_TRACKS,
        0 <= other < NUM_TRACKS,
        other != m.track(),
        c.gate.len() == NUM_TRACKS,
        c.pos.len() == NUM_TRACKS,
        c.erase.len() == NUM_TRACKS,
        c.loops.len() == NUM_TRACKS,
    ensures
        ({
            let d = applied(c, m);
            &&& d.gate[other] == c.gate[other]
            &&& d.pos[other] == c.pos[other]
            &&& d.erase[other] == c.erase[other]
            &&& d.loops[other] == c.loops[other]
        }),
{
}

/// A bundle does what its packets do one after the other, however they are nested.
pub proof fn law_bundles_flatten(c: Controls, first: Seq<Tree>, second: Seq<Tree>)
    ensures
        all_handled(c, first + second) == all_handled(all_handled(c, first), second),
        all_handled(c, first.push(Tree::Bundle(second))) == all_handled(c, first + second),
    decreases second.len(),
{
    let nested = first.push(Tree::Bundle(second));
    assert(nested.drop_last() =~= first);
    assert(nested.last() == Tree::Bundle(second));
    assert(all_handled(c, nested) == handled(all_handled(c, first), Tree::Bundle(second)));
    reveal_with_fuel(handled, 2);
    if second.len() == 0 {
        assert(first + second =~= first);
    } else {
        law_bundles_flatten(c, first, second.drop_last());
        assert((first + second).drop_last() =~= first + second.drop_last());
    }
}

/// A message writes what it says, whatever was there before, and nothing else: a pad message
/// the position, a gate or erase message its switch, a clear message a loop of nothing but
/// empty cells.
pub proof fn law_messages_write_what_they_say(c: Controls, m: Msg)
    requires
        m.track() < NUM_TRACKS,
        c.gate.len() == NUM_TRACKS,
        c.pos.len() == NUM_TRACKS,
        c.erase.len() == NUM_TRACKS,
        c.loops.len() == NUM_TRACKS,
    ensures
        ({
            let d = applied(c, m);
            match m {
                Msg::Xy(n, x, y) => {
                    &&& d.pos[n as int] == x * 0x1_0000_0000 + y
                    &&& d.gate == c.gate && d.erase == c.erase && d.loops == c.loops
                },
                Msg::Gate(n, open) => {
                    &&& d.gate[n as int] == open
                    &&& d.pos == c.pos && d.erase == c.erase && d.loops == c.loops
                },
                Msg::Erase(n, on) => {
                    &&& d.erase[n as int] == on
                    &&& d.gate == c.gate && d.pos == c.pos && d.loops == c.loops
                },
                Msg::Clear(n) => {
                    &&& d.loops[n as int].len() == 128
                    &&& forall|i: int| 0 <= i < 128 ==> #[trigger] d.loops[n as int][i] == -1
                    &&& d.gate == c.gate && d.pos == c.pos && d.erase == c.erase
                },
            }
        }),
        ({
            let d = applied(c, m);
            &&& d.gate.len() == NUM_TRACKS && d.pos.len() == NUM_TRACKS
            &&& d.erase.len() == NUM_TRACKS && d.loops.len() == NUM_TRACKS
        }),
{
}

/// The last message counts: what an earlier one of the same kind for the same track wrote
/// makes no difference.
pub proof fn law_the_last_message_counts(c: Controls, first: Msg, second: Msg)
    requires
        match (first, second) {
            (Msg::Xy(n, _, _), Msg::Xy(k, _, _)) => n == k && n < c.pos.len(),
            (Msg::Gate(n, _), Msg::Gate(k, _)) => n == k && n < c.gate.len(),
            (Msg::Erase(n, _), Msg::Erase(k, _)) => n == k && n < c.erase.len(),
            (Msg::Clear(n), Msg::Clear(k)) => n == k && n < c.loops.len(),
            _ => false,
        },
    ensures
        applied(applied(c, first), second) == applied(c, second),
{
    assert(applied(applied(c, first), second) =~= applied(c, second));
}

/// Whether a switch message, one of a kind that asks for "on" or "off", asks for "on": an
/// integer from 1 up does, and so does a single from one half up; others, below zero or not,
/// ask for "off". An infinity and what is no number ask for nothing.
pub open spec fn asks_for(a: Arg) -> Option<bool> {
    match a {
        Arg::Int(i) => Some(i >= 1),
        Arg::Float(b) => if b < 0x3f00_0000 {
            Some(false)
        } else if b < 0x7f80_0000 {
            Some(true)
        } else if 0x8000_0000 <= b < 0xff80_0000 {
            Some(false)
        } else {
            None
        },
        _ => None,
    }
}

proof fn lemma_asked(a: Arg, rest: Seq<Arg>)
    requires
        sendable(a),
    ensures
        switch(seq![a] + rest) == asks_for(a),
{
    assert((seq![a] + rest)[0] == a);
    if let Arg::Int(i) = a {
        let n: nat = if i < 0 {
            (-i) as nat
        } else {
            i as nat
        };
        vstd::arithmetic::power2::lemma2_to64();
        if n > 0 {
            crate::rounding::lemma_bit_length_bound(n, 32);
            crate::rounding::lemma_bit_length(n);
            crate::single::lemma_rounded_bounds(n, 0);
        }
    }
}

/// A message for a switch sets it: whatever the touch or the erase flag of the track was, it
/// is then the one asked for, so that an argument below one half leaves it off. A clear
/// message that asks for "on" empties the loop, one that asks for "off" changes nothing, and
/// neither does any that asks for nothing.
pub proof fn law_switch_messages_switch(c: Controls, track: nat, a: Arg, rest: Seq<Arg>)
    requires
        track < NUM_TRACKS,
        c.gate.len() == NUM_TRACKS,
        c.erase.len() == NUM_TRACKS,
        c.loops.len() == NUM_TRACKS,
        sendable(a),
    ensures
        ({
            let args = seq![a] + rest;
            let t = track as int;
            let gated = message_handled(c, control_address(track, "gate"@), args);
            let erased = message_handled(c, control_address(track, "erase"@), args);
            let cleared = message_handled(c, control_address(track, "clear"@), args);
            match asks_for(a) {
                Some(on) => {
                    &&& gated.gate == c.gate.update(t, on) && gated.gate[t] == on
                    &&& gated.pos == c.pos && gated.erase == c.erase && gated.loops == c.loops
                    &&& erased.erase == c.erase.update(t, on) && erased.erase[t] == on
                    &&& erased.pos == c.pos && erased.gate == c.gate && erased.loops == c.loops
                    &&& cleared.pos == c.pos && cleared.gate == c.gate && cleared.erase == c.erase
                    &&& !on ==> cleared.loops == c.loops
                    &&& on ==> cleared.loops == c.loops.update(t, Seq::new(128, |i: int| -1i32))
                },
                None => gated == c && erased == c && cleared == c,
            }
        }),
{
    reveal_strlit("xy");
    reveal_strlit("gate");
    reveal_strlit("erase");
    reveal_strlit("clear");
    assert("gate"@[0] != "xy"@[0] && "erase"@[0] != "xy"@[0] && "clear"@[0] != "xy"@[0]);
    assert("erase"@[0] != "gate"@[0] && "clear"@[0] != "gate"@[0] && "clear"@[0] != "erase"@[0]);
    assert(!"gate"@.contains('/') && !"erase"@.contains('/') && !"clear"@.contains('/'));
    let args = seq![a] + rest;
    law_control_addresses_are_read_back(track, "gate"@, args);
    law_control_addresses_are_read_back(track, "erase"@, args);
    law_control_addresses_are_read_back(track, "clear"@, args);
    lemma_asked(a, rest);
    assert(empty_loop() =~= Seq::new(128, |i: int| -1i32));
}

/// Where a coordinate lies on a pad: one below zero at its start, one above one at its end,
/// all others where they are.
pub open spec fn on_pad(b: u32) -> Option<u32> {
    if b <= 0x3f80_0000 || b == 0x8000_0000 {
        Some(b)
    } else if b < 0x7f80_0000 {
        Some(0x3f80_0000)
    } else if 0x8000_0000 < b < 0xff80_0000 {
        Some(0)
    } else {
        None
    }
}

/// A pad message takes exactly two coordinates and moves the pad of its track to where they
/// lie; one with more or fewer arguments, or with a coordinate that is no finite number,
/// changes nothing.
pub proof fn law_pad_messages_move_the_pad(c: Controls, track: nat, x: u32, y: u32, args: Seq<Arg>)
    requires
        track < NUM_TRACKS,
        c.pos.len() == NUM_TRACKS,
    ensures
        ({
            let two = seq![Arg::Float(x), Arg::Float(y)];
            let addr = control_address(track, "xy"@);
            &&& args.len() != 2 ==> message_handled(c, addr, args) == c
            &&& match (on_pad(x), on_pad(y)) {
                (Some(h), Some(v)) => {
                    let moved = message_handled(c, addr, two);
                    &&& moved.pos == c.pos.update(track as int, (h * 0x1_0000_0000 + v) as u64)
                    &&& moved.gate == c.gate && moved.erase == c.erase && moved.loops == c.loops
                },
                _ => message_handled(c, addr, two) == c,
            }
        }),
{
    reveal_strlit("xy");
    assert(!"xy"@.contains('/'));
    let two = seq![Arg::Float(x), Arg::Float(y)];
    law_control_addresses_are_read_back(track, "xy"@, args);
    law_control_addresses_are_read_back(track, "xy"@, two);
}

/// Only control addresses are read: what parses is a slash, "track", a slash, the number of a
/// track, a slash and one of the four kinds, and what comes of it is of that kind and for
/// that track. Without an argument nothing parses.
pub proof fn law_only_control_addresses_are_read(addr: Seq<char>, args: Seq<Arg>)
    ensures
        args.len() == 0 ==> parsed(addr, args) is None,
        parsed(addr, args) matches Some(m) ==> {
            let seg = segments(addr.skip(1));
            let kind = match m {
                Msg::Xy(_, _, _) => "xy"@,
                Msg::Gate(_, _) => "gate"@,
                Msg::Erase(_, _) => "erase"@,
                Msg::Clear(_) => "clear"@,
            };
            &&& unsigned_value(seg[1]) == Some(m.track() as nat)
            &&& addr == "/track/"@ + seg[1] + "/"@ + kind
        },
{
    if let Some(m) = parsed(addr, args) {
        let rest = addr.skip(1);
        let seg = segments(rest);
        crate::text::law_segments_give_the_text_back(rest);
        reveal_with_fuel(crate::text::rejoined, 3);
        assert(seg.drop_last().drop_last()[0] == seg[0]);
        assert(seg.drop_last().last() == seg[1]);
        assert(rest =~= (seg[0].push('/') + seg[1]).push('/') + seg[2]);
        reveal_strlit("/track/");
        reveal_strlit("track");
        reveal_strlit("/");
        assert(addr =~= seq!['/'] + rest);
        assert("/track/"@ =~= (seq!['/'] + "track"@).push('/'));
        assert(addr =~= "/track/"@ + seg[1] + "/"@ + seg[2]);
    }
}

/// What a remote control can write and what it cannot make up the shared state: two states
/// with the same rest are equal once the gates, positions, erase flags and loops are.
pub proof fn law_controls_and_rest_are_all(a: Shared, b: Shared, t: int)
    requires
        0 <= t < NUM_TRACKS,
    ensures
        same_rest(a, b) <==> (Shared {
            gate: b.gate,
            pos: b.pos,
            erase: b.erase,
            gesture: b.gesture,
            ..a
        }) == b,
        controls(a).gate.len() == 4 && controls(a).gate[t] == a.gate@[t],
        controls(a).pos.len() == 4 && controls(a).pos[t] == a.pos@[t],
        controls(a).erase.len() == 4 && controls(a).erase[t] == a.erase@[t],
        controls(a).loops.len() == 4 && controls(a).loops[t] == a.gesture@[t],
{
}

/// A bundle of one packet does what the packet does, and an empty one nothing; a message that
/// is not understood changes nothing.
pub proof fn law_small_bundles(c: Controls, t: Tree, addr: Seq<char>, args: Seq<Arg>)
    ensures
        all_handled(c, seq![t]) == handled(c, t),
        all_handled(c, Seq::<Tree>::empty()) == c,
        handled(c, Tree::Message(addr, args)) == match parsed(addr, args) {
            Some(m) => applied(c, m),
            None => c,
        },
{
    assert(seq![t].drop_last() =~= Seq::<Tree>::empty());
    reveal_with_fuel(all_handled, 2);
}

/// A word has the number's most significant byte first; a negative one counts down from 2^32.
pub proof fn law_words_are_big_endian(n: int)
    requires
        -0x8000_0000 <= n < 0x1_0000_0000,
    ensures
        word(n).len() == 4,
        word(n)[0] * 0x100_0000 + word(n)[1] * 0x1_0000 + word(n)[2] * 0x100 + word(n)[3] == if n
            < 0 {
            n + 0x1_0000_0000
        } else {
            n
        },
{
    let (a, b, c) = (n / 0x100, n / 0x1_0000, n / 0x100_0000);
    assert(a / 0x100 == b && b / 0x100 == c);
}

/// The datagram of a note: its address, at least one zero byte up to a whole word, a comma
/// with the tags of an integer and a single, and the note and its velocity as words.
pub proof fn law_note_datagrams(n: Note)
    ensures
        note_tree(n) == Tree::Message(
            "/fig/track/"@ + decimal(n.track as int) + "/note"@,
            seq![Arg::Int(n.note as i32), Arg::Float(n.vel)],
        ),
        ({
            let name = encode_utf8("/fig/track/"@ + decimal(n.track as int) + "/note"@);
            let bytes = message_bytes(
                note_address(n.track),
                seq![Arg::Int(n.note as i32), Arg::Float(n.vel)],
            );
            let end = bytes.len() - 12;
            &&& bytes.len() % 4 == 0
            &&& name.len() < end <= name.len() + 4
            &&& bytes.take(name.len() as int) == name
            &&& forall|i: int| name.len() <= i < end ==> #[trigger] bytes[i] == 0
            &&& bytes[end] == 44 && bytes[end + 1] == 105 && bytes[end + 2] == 102
            &&& bytes[end + 3] == 0
            &&& bytes[end + 4] == 0 && bytes[end + 5] == 0 && bytes[end + 6] == 0
            &&& bytes[end + 7] == n.note
            &&& bytes[end + 8] * 0x100_0000 + bytes[end + 9] * 0x1_0000 + bytes[end + 10] * 0x100
                + bytes[end + 11] == n.vel
        }),
{
    let args = seq![Arg::Int(n.note as i32), Arg::Float(n.vel)];
    let name = encode_utf8(note_address(n.track));
    let tags = seq![44u8] + args.map_values(|a: Arg| type_tag(a));
    assert(tags =~= seq![44u8, 105u8, 102u8]);
    assert(padded(tags) =~= seq![44u8, 105u8, 102u8, 0u8]);
    reveal_with_fuel(arg_words, 3);
    assert(args.drop_last() =~= seq![Arg::Int(n.note as i32)]);
    assert(args.drop_last().drop_last() =~= Seq::<Arg>::empty());
    assert(arg_words(args) =~= word(n.note as int) + word(n.vel as int));
    law_words_are_big_endian(n.note as int);
    law_words_are_big_endian(n.vel as int);
    let bytes = message_bytes(note_address(n.track), args);
    let end = padded(name).len() as int;
    assert(bytes =~= padded(name) + padded(tags) + (word(n.note as int) + word(n.vel as int)));
    assert(bytes.take(name.len() as int) =~= name);
    assert forall|i: int| 0 <= i < 4 implies #[trigger] word(n.note as int)[i] == bytes[end + 4 + i]
        by {}
    assert forall|i: int| 0 <= i < 4 implies #[trigger] word(n.vel as int)[i] == bytes[end + 8 + i]
        by {}
}

/// No two notes are sent alike.
pub proof fn law_notes_are_told_apart(a: Note, b: Note)
    requires
        note_tree(a) == note_tree(b),
    ensures
        a == b,
{
    let (x, y) = (note_address(a.track), note_address(b.track));
    reveal_strlit("/fig/track/");
    reveal_strlit("/note");
    let (p, q) = (decimal(a.track as int), decimal(b.track as int));
    assert(x.subrange(11, x.len() - 5) =~= p);
    assert(y.subrange(11, y.len() - 5) =~= q);
    crate::text::law_number_text_round_trip(a.track as nat);
    crate::text::law_number_text_round_trip(b.track as nat);
    let (u, v) = (
        seq![Arg::Int(a.note as i32), Arg::Float(a.vel)],
        seq![Arg::Int(b.note as i32), Arg::Float(b.vel)],
    );
    assert(u == v);
    assert(u[0] == v[0] && u[1] == v[1]);
}

/// Numbers of any kind are taken: a finite single as it is, an integer and a double as the
/// single next to them, unless a double is too large for one. A control message means the
/// same whichever kind its numbers are sent as.
pub proof fn law_numbers_of_any_kind_are_taken(i: i32, b: u32, d: u64)
    ensures
        arg_single(Arg::Int(i)) == Some(int_as_single(i)),
        b % 0x8000_0000 < 0x7f80_0000 ==> arg_single(Arg::Float(b)) == Some(b),
        b % 0x8000_0000 >= 0x7f80_0000 ==> arg_single(Arg::Float(b)) is None,
        arg_single(Arg::Double(d)) == double_as_single(d),
        d % 0x8000_0000_0000_0000 < 0x47e0_0000_0000_0000 ==> arg_single(Arg::Double(d)) is Some,
        d % 0x8000_0000_0000_0000 >= 0x7ff0_0000_0000_0000 ==> arg_single(Arg::Double(d)) is None,
        arg_single(Arg::Other) is None,
        forall|n: usize, kind: Seq<char>|
            #[trigger] command(n, kind, seq![Arg::Int(i)]) == command(
                n,
                kind,
                seq![Arg::Float(int_as_single(i))],
            ),
        forall|n: usize, kind: Seq<char>|
            double_as_single(d) is Some ==> #[trigger] command(n, kind, seq![Arg::Double(d)])
                == command(n, kind, seq![Arg::Float(double_as_single(d)->0)]),
{
    crate::pads::law_doubles_lie_next_to_their_single(d);
    crate::pads::law_integers_lie_next_to_their_single(i);
}

/// A receiver that is not for the network binds the loopback address, and one that is binds
/// every interface, whatever its port.
pub proof fn law_only_network_receivers_are_reachable(receiver: OscReceiver, port: u16)
    ensures
        bind_address(OscReceiver { lan: receiver.lan, port }) == bind_address(receiver),
        !receiver.lan <==> bind_address(receiver) == seq!['1', '2', '7', '.', '0', '.', '0', '.', '1'],
        receiver.lan <==> bind_address(receiver) == seq!['0', '.', '0', '.', '0', '.', '0'],
{
    reveal_strlit("0.0.0.0");
    reveal_strlit("127.0.0.1");
    assert("127.0.0.1"@ =~= seq!['1', '2', '7', '.', '0', '.', '0', '.', '1']);
    assert("0.0.0.0"@ =~= seq!['0', '.', '0', '.', '0', '.', '0']);
    assert("127.0.0.1"@.len() != "0.0.0.0"@.len());
}

/// A message can be sent if each of its arguments is an integer or a single, whatever its
/// address; a bundle cannot.
pub proof fn law_integers_and_singles_can_be_sent(
    addr: Seq<char>,
    args: Seq<Arg>,
    a: Arg,
    content: Seq<Tree>,
)
    ensures
        is_sendable(Tree::Message(addr, Seq::empty())),
        is_sendable(Tree::Message(addr, args.push(a))) <==> is_sendable(Tree::Message(addr, args))
            && match a {
            Arg::Int(_) => true,
            Arg::Float(_) => true,
            Arg::Double(_) => false,
            Arg::Other => false,
        },
        !is_sendable(Tree::Bundle(content)),
{
    let longer = args.push(a);
    assert(longer[args.len() as int] == a);
    assert(forall|i: int| 0 <= i < args.len() ==> longer[i] == args[i]);
    if args_sendable(longer) {
        assert forall|i: int| 0 <= i < args.len() implies #[trigger] sendable(args[i]) by {
            assert(sendable(longer[i]));
        }
        assert(sendable(longer[args.len() as int]));
    }
}

/// A single below one half switches a track's gate and its erase flag off, one from one half
/// up switches them on, whatever they were before.
pub proof fn law_one_half_is_on(c: Controls, track: nat, b: u32)
    requires
        track < NUM_TRACKS,
        c.gate.len() == NUM_TRACKS,
        c.erase.len() == NUM_TRACKS,
        c.loops.len() == NUM_TRACKS,
    ensures
        ({
            let args = seq![Arg::Float(b)];
            let t = track as int;
            let gated = message_handled(c, control_address(track, "gate"@), args);
            let erased = message_handled(c, control_address(track, "erase"@), args);
            &&& b < 0x3f00_0000 ==> !gated.gate[t] && !erased.erase[t]
            &&& 0x8000_0000 <= b < 0xff80_0000 ==> !gated.gate[t] && !erased.erase[t]
            &&& 0x3f00_0000 <= b < 0x7f80_0000 ==> gated.gate[t] && erased.erase[t]
        }),
{
    law_switch_messages_switch(c, track, Arg::Float(b), Seq::empty());
    assert(seq![Arg::Float(b)] + Seq::<Arg>::empty() =~= seq![Arg::Float(b)]);
}

} // verus!
