use swhkd::config::{ChordKind, Error, Mode};
use swhkd::keys::{Keycode, Modifier};
use swhkd::parser::{extract_imports, load, parse_contents, parse_keybind};

fn chars(s: &str) -> Vec<char> {
    s.chars().collect()
}

fn parse_one(text: &str) -> Vec<Mode> {
    parse_contents("test.conf", text).expect("config should parse")
}

fn load_one(text: &str) -> Vec<Mode> {
    load(&vec![("test.conf".to_string(), text.to_string())]).expect("config should load")
}

#[test]
fn modifier_order_is_irrelevant() {
    let a = parse_one("super + shift + a\n\tfirst\n");
    let b = parse_one("shift + super + a\n\tfirst\n");
    assert_eq!(a[0].hotkeys.len(), 1);
    assert_eq!(b[0].hotkeys.len(), 1);
    assert!(a[0].hotkeys[0].keybind.same_binding(&b[0].hotkeys[0].keybind));
}

#[test]
fn last_write_wins_in_one_mode() {
    let modes = parse_one("super + a\n\tfirst\nsuper + a\n\tsecond\n");
    assert_eq!(modes[0].hotkeys.len(), 1);
    assert_eq!(modes[0].hotkeys[0].command, "second".to_string());
}

#[test]
fn brace_expansion_zips_keys_and_commands() {
    let modes = parse_one("super + {1,2}\n\tworkspace {1,2}\n");
    assert_eq!(modes[0].hotkeys.len(), 2);
    assert_eq!(modes[0].hotkeys[0].keybind.keysym.code, 2);
    assert_eq!(modes[0].hotkeys[0].command, "workspace 1".to_string());
    assert_eq!(modes[0].hotkeys[1].keybind.keysym.code, 3);
    assert_eq!(modes[0].hotkeys[1].command, "workspace 2".to_string());
}

#[test]
fn range_expansion_covers_the_inclusive_range() {
    let modes = parse_one("super + {a-c}\n\trun {1-3}\n");
    assert_eq!(modes[0].hotkeys.len(), 3);
    assert_eq!(modes[0].hotkeys[0].keybind.keysym.code, 30);
    assert_eq!(modes[0].hotkeys[1].keybind.keysym.code, 48);
    assert_eq!(modes[0].hotkeys[2].keybind.keysym.code, 46);
    assert_eq!(modes[0].hotkeys[0].command, "run 1".to_string());
    assert_eq!(modes[0].hotkeys[2].command, "run 3".to_string());
}

#[test]
fn escaped_comma_stays_in_one_command() {
    let modes = parse_one("super + {1,2}\n\tshow {one\\,two,three}\n");
    assert_eq!(modes[0].hotkeys.len(), 2);
    assert_eq!(modes[0].hotkeys[0].command, "show one,two".to_string());
    assert_eq!(modes[0].hotkeys[1].command, "show three".to_string());
}

#[test]
fn longer_expansion_side_is_truncated() {
    let modes = parse_one("super + {1,2,3}\n\tgo {x,y}\n");
    assert_eq!(modes[0].hotkeys.len(), 2);
    assert_eq!(modes[0].hotkeys[0].command, "go x".to_string());
    assert_eq!(modes[0].hotkeys[1].command, "go y".to_string());
}

#[test]
fn unbind_removes_the_chord() {
    let modes = load_one("super + a\n\tfirst\nignore super + a\n");
    assert_eq!(modes[0].hotkeys.len(), 0);
}

#[test]
fn unbind_keeps_other_chords() {
    let modes = load_one("super + a\n\tfirst\nsuper + b\n\tsecond\nignore super + a\n");
    assert_eq!(modes[0].hotkeys.len(), 1);
    assert_eq!(modes[0].hotkeys[0].command, "second".to_string());
}

#[test]
fn unknown_keysym_fails_the_whole_file() {
    let r = load(&vec![(
        "bad.conf".to_string(),
        "super + a\n\tok\nsuper + nosuchkey\n\talso\n".to_string(),
    )]);
    match r {
        Err(Error::InvalidConfig(pe)) => {
            assert_eq!(pe.path, "bad.conf".to_string());
            assert_eq!(pe.line, 3);
            assert!(matches!(pe.kind, ChordKind::UnknownSymbol));
        }
        _ => panic!("expected a structured chord error"),
    }
}

#[test]
fn keysym_in_modifier_position_is_invalid_modifier() {
    let r = parse_contents("m.conf", "a + b\n\tcmd\n");
    match r {
        Err(Error::InvalidConfig(pe)) => {
            assert_eq!(pe.line, 1);
            assert!(matches!(pe.kind, ChordKind::InvalidModifier));
        }
        _ => panic!("expected an invalid modifier error"),
    }
}

#[test]
fn modifier_in_keysym_position_is_invalid_keysym() {
    let r = parse_contents("m.conf", "super + shift\n\tcmd\n");
    match r {
        Err(Error::InvalidConfig(pe)) => {
            assert_eq!(pe.line, 1);
            assert!(matches!(pe.kind, ChordKind::InvalidKeysym));
        }
        _ => panic!("expected an invalid keysym error"),
    }
}

#[test]
fn orphan_keysym_line_is_dropped() {
    let modes = parse_one("super + a\nsuper + b\n\tcmd\n");
    assert_eq!(modes[0].hotkeys.len(), 1);
    assert_eq!(modes[0].hotkeys[0].keybind.keysym.code, 48);
}

#[test]
fn comments_and_blanks_are_skipped() {
    let modes = parse_one("# a comment\n\nsuper + a\n\tcmd\n\n# tail\n");
    assert_eq!(modes[0].hotkeys.len(), 1);
}

#[test]
fn continuation_joins_keysym_lines() {
    let modes = parse_one("super +\\\nb\n\tcmd\n");
    assert_eq!(modes[0].hotkeys.len(), 1);
    assert_eq!(modes[0].hotkeys[0].keybind.keysym.code, 48);
}

#[test]
fn release_and_send_flags_parse_in_either_order() {
    let m1 = parse_one("super + @~a\n\tcmd\n");
    let m2 = parse_one("super + ~@a\n\tcmd\n");
    assert!(m1[0].hotkeys[0].keybind.on_release);
    assert!(m1[0].hotkeys[0].keybind.send);
    assert!(m1[0].hotkeys[0].keybind.same_binding(&m2[0].hotkeys[0].keybind));
    let m3 = parse_one("super + @a\n\tcmd\n");
    assert!(m3[0].hotkeys[0].keybind.on_release);
    assert!(!m3[0].hotkeys[0].keybind.send);
    let m4 = parse_one("super + ~a\n\tcmd\n");
    assert!(!m4[0].hotkeys[0].keybind.on_release);
    assert!(m4[0].hotkeys[0].keybind.send);
}

#[test]
fn underscore_escapes_a_literal_plus() {
    let modes = parse_one("super + _ + a\n\tcmd\n");
    assert_eq!(modes[0].hotkeys.len(), 1);
    assert_eq!(modes[0].hotkeys[0].keybind.keysym.code, 30);
    assert_eq!(modes[0].hotkeys[0].keybind.modifiers, vec![Modifier::Super]);
}

#[test]
fn mode_blocks_collect_their_own_hotkeys() {
    let modes = parse_one(
        "super + o\n\t@enter grab\nmode grab swallow oneoff\nh\n\techo h\nendmode\nsuper + q\n\tquit\n",
    );
    assert_eq!(modes.len(), 2);
    assert_eq!(modes[0].name, "normal".to_string());
    assert_eq!(modes[1].name, "grab".to_string());
    assert!(modes[1].options.swallow);
    assert!(modes[1].options.oneoff);
    assert_eq!(modes[1].hotkeys.len(), 1);
    assert_eq!(modes[0].hotkeys.len(), 2);
}

#[test]
fn imports_are_collected_in_order() {
    let imports = extract_imports("include a.conf\nsuper + a\n\tcmd\ninclude b.conf\n");
    assert_eq!(imports, vec!["a.conf".to_string(), "b.conf".to_string()]);
}

#[test]
fn root_file_overrides_imports() {
    let files = vec![
        ("root.conf".to_string(), "super + a\n\troot wins\n".to_string()),
        (
            "import.conf".to_string(),
            "super + a\n\timport loses\nsuper + b\n\tfrom import\n".to_string(),
        ),
    ];
    let modes = load(&files).expect("both files parse");
    assert_eq!(modes[0].hotkeys.len(), 2);
    let mut commands: Vec<String> =
        modes[0].hotkeys.iter().map(|h| h.command.clone()).collect();
    commands.sort();
    assert_eq!(commands, vec!["from import".to_string(), "root wins".to_string()]);
}

#[test]
fn import_error_names_the_import_file() {
    let files = vec![
        ("root.conf".to_string(), "super + a\n\tok\n".to_string()),
        ("import.conf".to_string(), "bogus + a\n\tbad\n".to_string()),
    ];
    match load(&files) {
        Err(Error::InvalidConfig(pe)) => {
            assert_eq!(pe.path, "import.conf".to_string());
            assert_eq!(pe.line, 1);
        }
        _ => panic!("expected the import's error"),
    }
}

#[test]
fn parse_keybind_reads_a_plain_chord() {
    let kb = parse_keybind(&chars("ctrl + alt + delete"), "k.conf", 7).expect("chord parses");
    assert_eq!(kb.keysym.code, 111);
    assert_eq!(kb.modifiers.len(), 2);
    assert!(kb.modifiers.contains(&Modifier::Control));
    assert!(kb.modifiers.contains(&Modifier::Alt));
}

#[test]
fn parse_keybind_is_case_and_space_insensitive() {
    let a = parse_keybind(&chars("Super+A"), "k.conf", 1).expect("parses");
    let b = parse_keybind(&chars("  super  +  a "), "k.conf", 1).expect("parses");
    assert!(a.same_binding(&b));
    assert_eq!(a.keysym, Keycode::new(30));
}

#[test]
fn unbalanced_brace_line_stays_literal_and_fails_lookup() {
    let r = parse_contents("b.conf", "super + {a\n\tcmd\n");
    match r {
        Err(Error::InvalidConfig(pe)) => {
            assert!(matches!(pe.kind, ChordKind::UnknownSymbol));
        }
        _ => panic!("expected an unknown symbol error"),
    }
}

#[test]
fn empty_config_keeps_only_the_root_mode() {
    let modes = load_one("");
    assert_eq!(modes.len(), 1);
    assert_eq!(modes[0].name, "normal".to_string());
    assert_eq!(modes[0].hotkeys.len(), 0);
}
