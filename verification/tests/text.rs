use trafalgar::standalone::{rate_is_pinned, with_sample_rate};
use trafalgar::text::{parse_unsigned, push_decimal, split_segments, to_chars, trim};

#[test]
fn numbers_are_written_and_read() {
    for n in [0i64, 1, 9, 10, 99, 100, 4096, 65535, i64::MAX, -1, -10, i64::MIN] {
        let mut s = String::from("x");
        push_decimal(&mut s, n);
        assert_eq!(s, format!("x{n}"));
    }
    for text in ["0", "7", "007", "+5", "65535", "65536", "", "+", "-3", "1a", "٣", " 1", "++1"] {
        let want = text.parse::<u64>().ok().filter(|&v| v <= 65535);
        assert_eq!(parse_unsigned(&to_chars(text), 65535), want, "{text:?}");
    }
}

#[test]
fn white_space_is_trimmed_at_both_ends() {
    for text in ["", " ", "a", " a b ", "\t\r\n9000\u{b}\u{c}", "\u{85}x\u{1680}", "\u{2028}\u{3000}", "\u{200b}z", "é "] {
        let got: String = trim(&to_chars(text)).iter().collect();
        assert_eq!(got, text.trim(), "{text:?}");
    }
}

#[test]
fn text_is_cut_at_every_slash() {
    for text in ["", "/", "a", "a/b", "/a//b/", "track/0/xy"] {
        let got: Vec<String> = split_segments(&to_chars(text)).iter().map(|s| s.iter().collect()).collect();
        let want: Vec<&str> = text.split('/').collect();
        assert_eq!(got, want, "{text:?}");
    }
}

#[test]
fn the_device_rate_is_used_unless_one_is_pinned() {
    let args = |w: &[&str]| w.iter().map(|s| s.to_string()).collect::<Vec<String>>();
    assert_eq!(
        with_sample_rate(args(&["trafalgar"]), Some(44100)),
        ["trafalgar", "--sample-rate", "44100"]
    );
    assert_eq!(with_sample_rate(args(&["trafalgar", "-r", "96000"]), Some(44100)), ["trafalgar", "-r", "96000"]);
    assert_eq!(
        with_sample_rate(args(&["trafalgar", "--sample-rate", "96000"]), Some(44100)),
        ["trafalgar", "--sample-rate", "96000"]
    );
    assert_eq!(with_sample_rate(args(&["trafalgar", "--midi-output", "x"]), None), ["trafalgar", "--midi-output", "x"]);
    assert_eq!(
        with_sample_rate(args(&["trafalgar", "--sample-rate=1"]), Some(u32::MAX)),
        ["trafalgar", "--sample-rate=1", "--sample-rate", "4294967295"]
    );
    assert!(with_sample_rate(vec![], None).is_empty());
    assert!(rate_is_pinned(&args(&["trafalgar", "-r", "96000"])));
    assert!(rate_is_pinned(&args(&["--sample-rate"])));
    assert!(!rate_is_pinned(&args(&["trafalgar", "--sample-rate=1"])));
}
