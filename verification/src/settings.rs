//! Where notes are sent and where control messages come from, and the panel that edits it.

use crate::shared::Shared;
use crate::text::{
    decimal, law_number_text_is_trim, law_number_text_round_trip, parse_unsigned, push_decimal,
    to_chars, trim, trimmed, unsigned_value,
};
use vstd::prelude::*;

verus! {

/// OSC output target and input port, editable from the settings popout.
#[derive(Debug)]
pub struct OscSettings {
    pub enabled: bool,
    pub host: String,
    pub port: u16,
    /// OSC input (remote pad control). Opt-in; the port is the instance's identity.
    pub in_enabled: bool,
    pub in_port: u16,
    /// On: reachable from the local network. Off: loopback only.
    pub in_lan: bool,
}

/// The settings, with the host as text.
#[verifier::ext_equal]
pub struct OscSettingsView {
    pub enabled: bool,
    pub host: Seq<char>,
    pub port: u16,
    pub in_enabled: bool,
    pub in_port: u16,
    pub in_lan: bool,
}

impl View for OscSettings {
    type V = OscSettingsView;

    open spec fn view(&self) -> OscSettingsView {
        OscSettingsView {
            enabled: self.enabled,
            host: self.host@,
            port: self.port,
            in_enabled: self.in_enabled,
            in_port: self.in_port,
            in_lan: self.in_lan,
        }
    }
}

impl Default for OscSettings {
    /// Output to this machine, no input.
    fn default() -> (r: Self)
        ensures
            r@ == (OscSettingsView {
                enabled: true,
                host: "127.0.0.1"@,
                port: 9000,
                in_enabled: false,
                in_port: 9100,
                in_lan: true,
            }),
    {
        OscSettings {
            enabled: true,
            host: "127.0.0.1".to_string(),
            port: 9000,
            in_enabled: false,
            in_port: 9100,
            in_lan: true,
        }
    }
}

impl Clone for OscSettings {
    /// The same settings.
    fn clone(&self) -> (r: Self)
        ensures
            r@ == self@,
    {
        OscSettings {
            enabled: self.enabled,
            host: self.host.clone(),
            port: self.port,
            in_enabled: self.in_enabled,
            in_port: self.in_port,
            in_lan: self.in_lan,
        }
    }
}

/// MIDI output target. Opt-in.
#[derive(Debug)]
pub struct MidiSettings {
    pub enabled: bool,
    /// Name of an existing output port to connect to (ignored when `virtual_port`).
    pub port: String,
    /// Create a virtual port instead.
    pub virtual_port: bool,
}

impl Default for MidiSettings {
    /// No MIDI output port.
    fn default() -> (r: Self)
        ensures
            !r.enabled,
            r.port@ == Seq::<char>::empty(),
            !r.virtual_port,
    {
        MidiSettings { enabled: false, port: String::new(), virtual_port: false }
    }
}

impl Clone for MidiSettings {
    /// The same settings.
    fn clone(&self) -> (r: Self)
        ensures
            r.enabled == self.enabled,
            r.port@ == self.port@,
            r.virtual_port == self.virtual_port,
    {
        MidiSettings {
            enabled: self.enabled,
            port: self.port.clone(),
            virtual_port: self.virtual_port,
        }
    }
}

/// Editable buffer for the OSC settings popout: the ports are text while they are edited.
#[derive(Debug)]
pub struct SettingsData {
    pub enabled: bool,
    pub host: String,
    pub port: String,
    pub in_enabled: bool,
    pub in_port: String,
    pub in_lan: bool,
}

/// The buffer, as text.
#[verifier::ext_equal]
pub struct SettingsDataView {
    pub enabled: bool,
    pub host: Seq<char>,
    pub port: Seq<char>,
    pub in_enabled: bool,
    pub in_port: Seq<char>,
    pub in_lan: bool,
}

impl View for SettingsData {
    type V = SettingsDataView;

    open spec fn view(&self) -> SettingsDataView {
        SettingsDataView {
            enabled: self.enabled,
            host: self.host@,
            port: self.port@,
            in_enabled: self.in_enabled,
            in_port: self.in_port@,
            in_lan: self.in_lan,
        }
    }
}

/// An edit in the popout.
#[derive(Debug)]
pub enum SettingsEvent {
    ToggleEnabled,
    SetHost(String),
    SetPort(String),
    ToggleInEnabled,
    SetInPort(String),
    ToggleInLan,
}

/// The buffer that the popout opens with.
pub open spec fn opened(s: OscSettingsView) -> SettingsDataView {
    SettingsDataView {
        enabled: s.enabled,
        host: s.host,
        port: decimal(s.port as int),
        in_enabled: s.in_enabled,
        in_port: decimal(s.in_port as int),
        in_lan: s.in_lan,
    }
}

/// The buffer after an edit.
pub open spec fn edited(d: SettingsDataView, e: SettingsEvent) -> SettingsDataView {
    match e {
        SettingsEvent::ToggleEnabled => SettingsDataView { enabled: !d.enabled, ..d },
        SettingsEvent::SetHost(h) => SettingsDataView { host: h@, ..d },
        SettingsEvent::SetPort(p) => SettingsDataView { port: p@, ..d },
        SettingsEvent::ToggleInEnabled => SettingsDataView { in_enabled: !d.in_enabled, ..d },
        SettingsEvent::SetInPort(p) => SettingsDataView { in_port: p@, ..d },
        SettingsEvent::ToggleInLan => SettingsDataView { in_lan: !d.in_lan, ..d },
    }
}

/// Whether an edit concerns the output; the others concern the input.
pub open spec fn edits_output(e: SettingsEvent) -> bool {
    e is ToggleEnabled || e is SetHost || e is SetPort
}

/// The port that a text asks for; one that is no port number leaves the port as it is.
pub open spec fn port_of(text: Seq<char>, current: u16) -> u16 {
    match unsigned_value(trimmed(text)) {
        Some(v) => if v <= 0xffff {
            v as u16
        } else {
            current
        },
        None => current,
    }
}

/// The settings after the buffer is written through.
pub open spec fn written(s: OscSettingsView, d: SettingsDataView) -> OscSettingsView {
    OscSettingsView {
        enabled: d.enabled,
        host: d.host,
        port: port_of(d.port, s.port),
        in_enabled: d.in_enabled,
        in_port: port_of(d.in_port, s.in_port),
        in_lan: d.in_lan,
    }
}

/// The port that a text asks for.
fn read_port(text: &String, current: u16) -> (r: u16)
    ensures
        r == port_of(text@, current),
{
    match parse_unsigned(&trim(&to_chars(text.as_str())), 0xffff) {
        Some(v) => v as u16,
        None => current,
    }
}

impl SettingsData {
    /// The buffer that the popout opens with.
    pub fn new(cfg: &OscSettings) -> (r: Self)
        ensures
            r@ == opened(cfg@),
    {
        let mut port = String::new();
        push_decimal(&mut port, cfg.port as i64);
        let mut in_port = String::new();
        push_decimal(&mut in_port, cfg.in_port as i64);
        assert(port@ =~= decimal(cfg.port as int));
        assert(in_port@ =~= decimal(cfg.in_port as int));
        SettingsData {
            enabled: cfg.enabled,
            host: cfg.host.clone(),
            port,
            in_enabled: cfg.in_enabled,
            in_port,
            in_lan: cfg.in_lan,
        }
    }

    /// Takes an edit over, writes the buffer through to the settings, and asks for the
    /// side that the edit concerns to be rebuilt.
    pub fn event(&mut self, e: &SettingsEvent, settings: &mut OscSettings, shared: &mut Shared)
        ensures
            final(self)@ == edited(old(self)@, *e),
            final(settings)@ == written(old(settings)@, final(self)@),
            *final(shared) == (Shared {
                osc_dirty: old(shared).osc_dirty || edits_output(*e),
                osc_in_dirty: old(shared).osc_in_dirty || !edits_output(*e),
                ..*old(shared)
            }),
    {
        let mut out_changed = false;
        let mut in_changed = false;
        match e {
            SettingsEvent::ToggleEnabled => {
                self.enabled = !self.enabled;
                out_changed = true;
            },
            SettingsEvent::SetHost(h) => {
                self.host = h.clone();
                out_changed = true;
            },
            SettingsEvent::SetPort(p) => {
                self.port = p.clone();
                out_changed = true;
            },
            SettingsEvent::ToggleInEnabled => {
                self.in_enabled = !self.in_enabled;
                in_changed = true;
            },
            SettingsEvent::SetInPort(p) => {
                self.in_port = p.clone();
                in_changed = true;
            },
            SettingsEvent::ToggleInLan => {
                self.in_lan = !self.in_lan;
                in_changed = true;
            },
        }
        settings.enabled = self.enabled;
        settings.host = self.host.clone();
        settings.port = read_port(&self.port, settings.port);
        settings.in_enabled = self.in_enabled;
        settings.in_lan = self.in_lan;
        settings.in_port = read_port(&self.in_port, settings.in_port);
        if out_changed {
            shared.osc_dirty = true;
        }
        if in_changed {
            shared.osc_in_dirty = true;
        }
    }
}

/// Opening the popout and writing it back unedited changes nothing.
pub proof fn law_unedited_settings_stay(s: OscSettingsView)
    ensures
        written(s, opened(s)) == s,
{
    law_number_text_round_trip(s.port as nat);
    law_number_text_is_trim(s.port as nat);
    law_number_text_round_trip(s.in_port as nat);
    law_number_text_is_trim(s.in_port as nat);
}

/// An edit changes its own field and no other: a toggle turns its switch over, a text field
/// takes the text.
pub proof fn law_edits_change_one_field(d: SettingsDataView, e: SettingsEvent)
    ensures
        ({
            let n = edited(d, e);
            &&& n.enabled == (d.enabled != (e is ToggleEnabled))
            &&& n.in_enabled == (d.in_enabled != (e is ToggleInEnabled))
            &&& n.in_lan == (d.in_lan != (e is ToggleInLan))
            &&& n.host == match e {
                SettingsEvent::SetHost(h) => h@,
                _ => d.host,
            }
            &&& n.port == match e {
                SettingsEvent::SetPort(p) => p@,
                _ => d.port,
            }
            &&& n.in_port == match e {
                SettingsEvent::SetInPort(p) => p@,
                _ => d.in_port,
            }
        }),
        edits_output(e) <==> !(e is ToggleInEnabled || e is SetInPort || e is ToggleInLan),
{
}

/// A toggle undoes itself.
pub proof fn law_toggles_undo_themselves(d: SettingsDataView, e: SettingsEvent)
    requires
        e is ToggleEnabled || e is ToggleInEnabled || e is ToggleInLan,
    ensures
        edited(edited(d, e), e) == d,
        edited(d, e) != d,
{
}

/// The settings take over what the buffer holds; a port is taken over if its text, white
/// space at the ends aside, is a number up to 65535, and stays what it was otherwise.
pub proof fn law_settings_take_over_the_buffer(s: OscSettingsView, d: SettingsDataView)
    ensures
        ({
            let w = written(s, d);
            let (port, in_port) = (
                unsigned_value(trimmed(d.port)),
                unsigned_value(trimmed(d.in_port)),
            );
            &&& w.enabled == d.enabled && w.host == d.host
            &&& w.in_enabled == d.in_enabled && w.in_lan == d.in_lan
            &&& port is Some && port->0 <= 65535 ==> w.port == port->0
            &&& port is None || port->0 > 65535 ==> w.port == s.port
            &&& in_port is Some && in_port->0 <= 65535 ==> w.in_port == in_port->0
            &&& in_port is None || in_port->0 > 65535 ==> w.in_port == s.in_port
        }),
{
}

/// A port number that is typed is the port that is set, whatever it was.
pub proof fn law_typed_ports_are_set(number: u16, current: u16)
    ensures
        port_of(decimal(number as int), current) == number,
{
    law_number_text_round_trip(number as nat);
    law_number_text_is_trim(number as nat);
}

/// The popout opens with the settings as they are, the ports as decimal text.
pub proof fn law_the_popout_shows_the_settings(s: OscSettingsView)
    ensures
        ({
            let d = opened(s);
            &&& d.enabled == s.enabled && d.host == s.host
            &&& d.in_enabled == s.in_enabled && d.in_lan == s.in_lan
            &&& unsigned_value(d.port) == Some(s.port as nat)
            &&& unsigned_value(d.in_port) == Some(s.in_port as nat)
        }),
{
    law_number_text_round_trip(s.port as nat);
    law_number_text_round_trip(s.in_port as nat);
}

} // verus!
