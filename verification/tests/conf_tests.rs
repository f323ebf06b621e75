use gpiosentry::conf::{
    apply_setting, build_pin_settings, check_setting, read_conf, section_to_config, set_data,
    set_delay, set_location, set_method, set_pin_label, set_pin_number, set_state, set_trigger,
    try_read_conf, ConfError, PinConfig,
};
use gpiosentry::document::{find_surrogate_escape, IniEntry, IniSection};

fn section(name: &str, entries: &[(&str, &str)]) -> IniSection {
    IniSection {
        name: Some(name.to_string()),
        entries: entries
            .iter()
            .map(|(k, v)| IniEntry { key: k.to_string(), value: v.to_string() })
            .collect(),
    }
}

#[test]
fn default_config_has_no_pin_and_auto_state() {
    let c = PinConfig::default();
    assert_eq!(c.pin, 255);
    assert_eq!(c.state, 254);
    assert_eq!(c.trigger, 0);
    assert_eq!(c.method, 0);
    assert_eq!(c.delay, 0);
    assert_eq!(c.timeout, 0);
    assert_eq!(c.data, "");
    assert_eq!(c.label, "");
    assert_eq!(c.location, "");
}

#[test]
fn setters_store_values_and_ignore_empty_ones() {
    let mut c = PinConfig::default();
    set_data(&mut c, "ON".to_string());
    assert_eq!(c.data, "ON");
    set_data(&mut c, "".to_string());
    assert_eq!(c.data, "ON");
    set_delay(&mut c, "-250".to_string());
    assert_eq!(c.delay, -250);
    set_pin_number(&mut c, "18".to_string());
    assert_eq!(c.pin, 18);
    set_pin_label(&mut c, "door".to_string());
    assert_eq!(c.label, "door");
    set_pin_label(&mut c, "".to_string());
    assert_eq!(c.label, "door");
    set_method(&mut c, "none".to_string());
    assert_eq!(c.method, 0);
    set_method(&mut c, "get".to_string());
    assert_eq!(c.method, 1);
    set_method(&mut c, "post".to_string());
    assert_eq!(c.method, 2);
    set_method(&mut c, "exec".to_string());
    assert_eq!(c.method, 3);
    set_method(&mut c, "".to_string());
    assert_eq!(c.method, 3);
    set_state(&mut c, "high".to_string());
    assert_eq!(c.state, 1);
    set_state(&mut c, "low".to_string());
    assert_eq!(c.state, 0);
    set_state(&mut c, "auto".to_string());
    assert_eq!(c.state, 254);
    set_trigger(&mut c, "high".to_string());
    assert_eq!(c.trigger, 1);
    set_trigger(&mut c, "low".to_string());
    assert_eq!(c.trigger, 0);
}

#[test]
fn set_location_normalises_urls_and_keeps_paths() {
    let mut c = PinConfig::default();
    set_location(&mut c, "https://example.com".to_string());
    assert_eq!(c.location, "https://example.com/");
    set_location(&mut c, "/usr/local/bin/bell.sh".to_string());
    assert_eq!(c.location, "/usr/local/bin/bell.sh");
    set_location(&mut c, "".to_string());
    assert_eq!(c.location, "/usr/local/bin/bell.sh");
}

#[test]
fn check_setting_names_each_error() {
    let v = |s: &str| s.to_string();
    assert_eq!(check_setting("pin", &v("18")), None);
    assert_eq!(check_setting("pin", &v("300")), Some(ConfError::InvalidPin));
    assert_eq!(check_setting("pin", &v("")), Some(ConfError::InvalidPin));
    assert_eq!(check_setting("data", &v("anything")), None);
    assert_eq!(check_setting("delay", &v("10")), None);
    assert_eq!(check_setting("delay", &v("soon")), Some(ConfError::InvalidDelay));
    assert_eq!(check_setting("location", &v("http://[::1")), Some(ConfError::InvalidUrl));
    assert_eq!(check_setting("location", &v("/no/such/file")), None);
    assert_eq!(check_setting("location", &v("")), None);
    assert_eq!(check_setting("method", &v("put")), Some(ConfError::InvalidMethod));
    assert_eq!(check_setting("method", &v("")), None);
    assert_eq!(check_setting("state", &v("on")), Some(ConfError::InvalidState));
    assert_eq!(check_setting("state", &v("auto")), None);
    assert_eq!(check_setting("trigger", &v("auto")), Some(ConfError::InvalidTrigger));
    assert_eq!(check_setting("trigger", &v("low")), None);
    assert_eq!(check_setting("colour", &v("red")), Some(ConfError::UnknownKey));
}

#[test]
fn apply_setting_dispatches_on_the_key() {
    let mut c = PinConfig::default();
    apply_setting(&mut c, "pin", "4".to_string());
    apply_setting(&mut c, "trigger", "high".to_string());
    apply_setting(&mut c, "delay", "25".to_string());
    apply_setting(&mut c, "method", "get".to_string());
    assert_eq!((c.pin, c.trigger, c.delay, c.method), (4, 1, 25, 1));
}

#[test]
fn section_to_config_labels_with_the_section_name() {
    let s = section("bell", &[("pin", "23"), ("trigger", "low"), ("data", "ding")]);
    let c = section_to_config(&s);
    assert_eq!(c.label, "bell");
    assert_eq!(c.pin, 23);
    assert_eq!(c.trigger, 0);
    assert_eq!(c.data, "ding");
    assert_eq!(c.state, 254);
}

#[test]
fn lone_high_trigger_gets_a_low_counterpart() {
    let s = vec![section("light", &[("pin", "18"), ("trigger", "high"), ("delay", "5")])];
    let r = build_pin_settings(&s);
    assert_eq!(r.len(), 2);
    assert_eq!((r[0].pin, r[0].trigger, r[0].delay), (18, 1, 5));
    assert_eq!(r[0].label, "light");
    assert_eq!((r[1].pin, r[1].trigger, r[1].delay), (18, 0, 5));
    assert_eq!(r[1].label, "");
    assert_eq!(r[1].method, 0);
    assert_eq!(r[1].state, 254);
}

#[test]
fn lone_low_trigger_gets_a_high_counterpart() {
    let s = vec![section("door", &[("pin", "7"), ("trigger", "low"), ("delay", "100")])];
    let r = build_pin_settings(&s);
    assert_eq!(r.len(), 2);
    assert_eq!((r[1].pin, r[1].trigger, r[1].delay), (7, 1, 100));
}

#[test]
fn a_lone_trigger_gets_a_counterpart_whatever_its_delay() {
    let s = vec![section("door", &[("pin", "7"), ("trigger", "low"), ("delay", "0")])];
    let r = build_pin_settings(&s);
    assert_eq!(r.len(), 2);
    assert_eq!((r[1].pin, r[1].trigger, r[1].delay), (7, 1, 0));
    let s = vec![section("a", &[("pin", "3"), ("trigger", "high")])];
    let r = build_pin_settings(&s);
    assert_eq!(r.len(), 2);
    assert_eq!((r[1].pin, r[1].trigger, r[1].delay), (3, 0, 0));
    let s = vec![section("b", &[("pin", "4"), ("trigger", "high"), ("delay", "-5")])];
    let r = build_pin_settings(&s);
    assert_eq!((r[1].pin, r[1].trigger, r[1].delay), (4, 0, -5));
}

#[test]
fn every_pin_ends_up_with_both_levels() {
    let text = "[a]\npin=1\ntrigger=high\n[b]\npin=2\ntrigger=low\ndelay=4\n[c]\npin=3\n[d]\npin=5\ntrigger=high\n[e]\npin=5\ntrigger=low\n";
    let r = read_conf(text);
    for c in r.iter() {
        assert!(r.iter().any(|o| o.pin == c.pin && o.trigger + c.trigger == 1), "pin {}", c.pin);
    }
    assert_eq!(r.len(), 8);
}

#[test]
fn paired_triggers_get_no_counterpart() {
    let s = vec![
        section("on", &[("pin", "5"), ("trigger", "high"), ("delay", "3")]),
        section("off", &[("pin", "5"), ("trigger", "low"), ("delay", "3")]),
    ];
    let r = build_pin_settings(&s);
    assert_eq!(r.len(), 2);
}

#[test]
fn counterparts_come_high_first_then_low_in_pin_order() {
    let s = vec![
        section("a", &[("pin", "9"), ("trigger", "low"), ("delay", "2")]),
        section("b", &[("pin", "4"), ("trigger", "high"), ("delay", "3")]),
        section("c", &[("pin", "2"), ("trigger", "high"), ("delay", "1")]),
    ];
    let r = build_pin_settings(&s);
    let tail: Vec<(u8, u8, i32)> = r[3..].iter().map(|c| (c.pin, c.trigger, c.delay)).collect();
    assert_eq!(tail, vec![(2, 0, 1), (4, 0, 3), (9, 1, 2)]);
}

#[test]
fn the_last_section_of_a_pin_and_level_sets_the_counterpart_delay() {
    let s = vec![
        section("a", &[("pin", "6"), ("trigger", "high"), ("delay", "4")]),
        section("b", &[("pin", "6"), ("trigger", "high"), ("delay", "9")]),
    ];
    let r = build_pin_settings(&s);
    assert_eq!(r.len(), 3);
    assert_eq!((r[2].pin, r[2].trigger, r[2].delay), (6, 0, 9));
}

const README_CONF: &str = "[main-light]
pin = 18
state = auto
trigger = high
method = post
location = \"https://example.com/api/lightswitch\"
data = ON
delay = 1
";

#[test]
fn readme_example_reads_as_documented() {
    let r = read_conf(README_CONF);
    assert_eq!(r.len(), 2);
    let c = &r[0];
    assert_eq!(c.label, "main-light");
    assert_eq!(c.pin, 18);
    assert_eq!(c.state, 254);
    assert_eq!(c.trigger, 1);
    assert_eq!(c.method, 2);
    assert_eq!(c.location, "https://example.com/api/lightswitch");
    assert_eq!(c.data, "ON");
    assert_eq!(c.delay, 1);
    let d = &r[1];
    assert_eq!((d.pin, d.trigger, d.delay, d.method), (18, 0, 1, 0));
}

#[test]
fn try_read_conf_accepts_the_readme_example() {
    let r = try_read_conf(README_CONF).unwrap();
    assert_eq!(r.len(), 2);
}

#[test]
fn try_read_conf_reports_each_kind_of_defect() {
    assert_eq!(try_read_conf("[sec\npin=1").err(), Some(ConfError::Parse));
    assert_eq!(try_read_conf("[a]\ndata = \\xd800\n").err(), Some(ConfError::InvalidEscape));
    assert_eq!(try_read_conf("[a]\ndata = \\xDFFF\n").err(), Some(ConfError::InvalidEscape));
    assert_eq!(try_read_conf("").err(), Some(ConfError::NoSections));
    assert_eq!(try_read_conf("; only a comment\n").err(), Some(ConfError::NoSections));
    assert_eq!(try_read_conf("pin = 3\n[a]\npin = 4\n").err(), Some(ConfError::UnnamedSection));
    assert_eq!(try_read_conf("[a]\ncolour = red\n").err(), Some(ConfError::UnknownKey));
    assert_eq!(try_read_conf("[a]\npin = 300\n").err(), Some(ConfError::InvalidPin));
    assert_eq!(try_read_conf("[a]\ndelay = soon\n").err(), Some(ConfError::InvalidDelay));
    assert_eq!(try_read_conf("[a]\nlocation = http://[::1\n").err(), Some(ConfError::InvalidUrl));
    assert_eq!(try_read_conf("[a]\nmethod = put\n").err(), Some(ConfError::InvalidMethod));
    assert_eq!(try_read_conf("[a]\nstate = on\n").err(), Some(ConfError::InvalidState));
    assert_eq!(try_read_conf("[a]\ntrigger = auto\n").err(), Some(ConfError::InvalidTrigger));
}

#[test]
fn read_conf_pairs_two_sections_in_any_order() {
    let text = "[bell-on]\npin = 23\ntrigger = low\ndelay = 50\nmethod = get\nlocation = http://bell.local/ring\n\n[bell-off]\npin = 23\ntrigger = high\n";
    let r = read_conf(text);
    assert_eq!(r.len(), 2);
    let mut labels: Vec<String> = r.iter().map(|c| c.label.clone()).collect();
    labels.sort();
    assert_eq!(labels, vec!["bell-off".to_string(), "bell-on".to_string()]);
    let on = r.iter().find(|c| c.label == "bell-on").unwrap();
    assert_eq!(on.location, "http://bell.local/ring");
    assert_eq!((on.pin, on.trigger, on.delay, on.method), (23, 0, 50, 1));
}

#[test]
fn every_read_configuration_is_well_formed() {
    let text = "[a]\npin=1\ntrigger=high\ndelay=2\nmethod=exec\nlocation=/bin/true\n[b]\npin=2\nstate=low\n[c]\npin=3\ntrigger=low\ndelay=7\n";
    let r = read_conf(text);
    assert_eq!(r.len(), 6);
    for c in r.iter() {
        assert!(c.trigger <= 1);
        assert!(c.method <= 3);
        assert!(c.state == 0 || c.state == 1 || c.state == 254);
    }
}

#[test]
fn key_order_within_a_section_does_not_matter() {
    let a = section("x", &[("pin", "3"), ("trigger", "high"), ("delay", "9"), ("method", "get")]);
    let b = section("x", &[("method", "get"), ("delay", "9"), ("trigger", "high"), ("pin", "3")]);
    let ca = section_to_config(&a);
    let cb = section_to_config(&b);
    assert_eq!(
        (ca.pin, ca.trigger, ca.delay, ca.method, ca.label.clone()),
        (cb.pin, cb.trigger, cb.delay, cb.method, cb.label.clone())
    );
}

#[test]
fn every_section_of_the_file_gets_its_configuration() {
    let text = "[a]\npin = 1\ntrigger = high\n[b]\npin = 2\ntrigger = low\n[c]\npin = 3\n";
    for _ in 0..5 {
        let r = read_conf(text);
        for (label, pin) in [("a", 1u8), ("b", 2u8), ("c", 3u8)].iter() {
            assert!(r.iter().any(|c| c.label == *label && c.pin == *pin));
        }
    }
}

#[test]
fn hex_escapes_that_name_characters_are_read() {
    let r = read_conf("[a]\npin = 2\ndata = \\x0041\\x00e9\n");
    let c = r.iter().find(|c| c.label == "a").unwrap();
    assert_eq!(c.data, "A\u{e9}");
}

#[test]
fn find_surrogate_escape_spots_only_surrogates_the_parser_decodes() {
    assert!(find_surrogate_escape("k=\\xd800"));
    assert!(find_surrogate_escape("[a]\nk = x \\xDbFf y"));
    assert!(find_surrogate_escape("[s\\xd800]\nk=1"));
    assert!(find_surrogate_escape("[a]\nk\\xdc00=1"));
    assert!(find_surrogate_escape("[a]\nk = \"q \\xd800\""));
    assert!(!find_surrogate_escape("k=\\xd7ff"));
    assert!(!find_surrogate_escape("k=\\xe000"));
    assert!(!find_surrogate_escape("k=\\xd80"));
    assert!(!find_surrogate_escape("k=xd800"));
    assert!(!find_surrogate_escape(""));
    // in a comment, or after an escaped backslash
    assert!(!find_surrogate_escape("[a]\npin = 1\n; \\xD800\n"));
    assert!(!find_surrogate_escape("[a]\npin = 1 # \\xD800\n"));
    assert!(!find_surrogate_escape("[a]\ndata = C:\\\\xdead\n"));
    assert!(find_surrogate_escape("[a]\ndata = \\x0041\\xd800\n"));
}

#[test]
fn texts_with_surrogate_like_text_the_parser_skips_are_read() {
    let r = try_read_conf("[a]\npin = 1\n; \\xD800\n").unwrap();
    assert_eq!(r[0].pin, 1);
    let r = read_conf("[a]\npin = 1\ndata = C:\\\\xdead\n");
    let c = r.iter().find(|c| c.label == "a").unwrap();
    assert_eq!(c.data, "C:\\xdead");
    assert_eq!(try_read_conf("[a]\npin = 1\ndata = \\xd800\n").err(), Some(ConfError::InvalidEscape));
}
