use trafalgar::settings::{MidiSettings, OscSettings, SettingsData, SettingsEvent};
use trafalgar::shared::Shared;

/// Settings with a popout open on them, and a state with nothing to rebuild.
fn opened() -> (OscSettings, SettingsData, Shared) {
    let cfg = OscSettings::default();
    let data = SettingsData::new(&cfg);
    let mut shared = Shared::default();
    shared.take_rebuilds();
    (cfg, data, shared)
}

#[test]
fn settings_start_as_documented() {
    let o = OscSettings::default();
    assert!(o.enabled && !o.in_enabled && o.in_lan);
    assert_eq!((o.host.as_str(), o.port, o.in_port), ("127.0.0.1", 9000, 9100));
    let m = MidiSettings::default();
    assert!(!m.enabled && !m.virtual_port && m.port.is_empty());
}

#[test]
fn the_popout_opens_with_the_settings() {
    let (_, data, _) = opened();
    assert!(data.enabled && !data.in_enabled && data.in_lan);
    assert_eq!((data.host.as_str(), data.port.as_str(), data.in_port.as_str()), ("127.0.0.1", "9000", "9100"));
}

#[test]
fn edits_write_through_and_ask_for_their_side() {
    let (mut cfg, mut data, mut shared) = opened();
    data.event(&SettingsEvent::SetHost("10.0.0.7".into()), &mut cfg, &mut shared);
    assert_eq!(cfg.host, "10.0.0.7");
    assert!(shared.osc_dirty && !shared.osc_in_dirty);
    shared.take_rebuilds();
    data.event(&SettingsEvent::ToggleInEnabled, &mut cfg, &mut shared);
    assert!(cfg.in_enabled && data.in_enabled);
    assert!(!shared.osc_dirty && shared.osc_in_dirty);
    shared.take_rebuilds();
    data.event(&SettingsEvent::ToggleInLan, &mut cfg, &mut shared);
    assert!(!cfg.in_lan);
    data.event(&SettingsEvent::SetInPort("1234".into()), &mut cfg, &mut shared);
    assert_eq!(cfg.in_port, 1234);
    assert!(!shared.osc_dirty && shared.osc_in_dirty);
    data.event(&SettingsEvent::ToggleEnabled, &mut cfg, &mut shared);
    assert!(!cfg.enabled && shared.osc_dirty);
}

#[test]
fn ports_that_are_none_leave_the_port_as_it_is() {
    let (mut cfg, mut data, mut shared) = opened();
    for (text, want) in [
        ("8000", 8000u16),
        ("  8001\t", 8001),
        ("+8002", 8002),
        ("0", 0),
        ("65535", 65535),
        ("65536", 65535),
        ("", 65535),
        ("-1", 65535),
        ("80 80", 65535),
        ("port", 65535),
        ("000443", 443),
        ("99999999999999999999", 443),
        ("\u{2003}77\u{a0}", 77),
    ] {
        data.event(&SettingsEvent::SetPort(text.into()), &mut cfg, &mut shared);
        assert_eq!(data.port, text);
        assert_eq!(cfg.port, want, "{text:?}");
        // the same as reading the text directly
        if let Ok(p) = text.trim().parse::<u16>() {
            assert_eq!(cfg.port, p);
        }
    }
    assert_eq!(cfg.in_port, 9100);
}

#[test]
fn an_unedited_popout_changes_nothing() {
    for port in [0u16, 7, 80, 9000, 65535] {
        let mut cfg = OscSettings { port, in_port: port, host: "studio.local".into(), ..OscSettings::default() };
        let mut data = SettingsData::new(&cfg);
        let mut shared = Shared::default();
        // there and back
        data.event(&SettingsEvent::ToggleEnabled, &mut cfg, &mut shared);
        data.event(&SettingsEvent::ToggleEnabled, &mut cfg, &mut shared);
        assert_eq!((cfg.enabled, cfg.port, cfg.in_port, cfg.host.as_str()), (true, port, port, "studio.local"));
    }
}
