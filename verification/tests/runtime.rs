use swhkd::config::Error;
use swhkd::engine::{resolve_core, Engine};
use swhkd::environ::{Env, EnvError};
use swhkd::front::ActionType;
use swhkd::keys::{keysym_name, modifier_name, Keycode, Modifier};
use swhkd::parser::load;

const KEY_A: u16 = 30;
const KEY_B: u16 = 48;
const KEY_H: u16 = 35;
const KEY_O: u16 = 24;
const KEY_LEFTSHIFT: u16 = 42;
const KEY_LEFTMETA: u16 = 125;

fn chars(s: &str) -> Vec<char> {
    s.chars().collect()
}

fn engine_from(text: &str) -> Engine {
    let modes = load(&vec![("rt.conf".to_string(), text.to_string())]).expect("config loads");
    Engine::new(modes, Vec::new())
}

#[test]
fn chord_fires_and_repeats_until_release() {
    let mut eng = engine_from("super + a\n\tfoo\n");
    let id = eng.attach_device();
    let r1 = eng.handle_key(id, Keycode::new(KEY_LEFTMETA), 1);
    assert_eq!(r1.fired.len(), 0);
    let r2 = eng.handle_key(id, Keycode::new(KEY_A), 1);
    assert_eq!(r2.fired, vec!["foo".to_string()]);
    assert!(r2.rearm);
    let (t1, rearm1) = eng.handle_timer();
    assert_eq!(t1, Some("foo".to_string()));
    assert!(rearm1);
    let r3 = eng.handle_key(id, Keycode::new(KEY_A), 0);
    assert_eq!(r3.fired.len(), 0);
    let (t2, rearm2) = eng.handle_timer();
    assert!(t2.is_none());
    assert!(!rearm2);
}

#[test]
fn exact_set_matching_rejects_extra_modifiers() {
    let mut eng = engine_from("super + a\n\tfoo\n");
    let id = eng.attach_device();
    let _ = eng.handle_key(id, Keycode::new(KEY_LEFTMETA), 1);
    let _ = eng.handle_key(id, Keycode::new(KEY_LEFTSHIFT), 1);
    let r = eng.handle_key(id, Keycode::new(KEY_A), 1);
    assert_eq!(r.fired.len(), 0);
}

#[test]
fn exact_set_matching_rejects_missing_modifiers() {
    let mut eng = engine_from("super + shift + a\n\tfoo\n");
    let id = eng.attach_device();
    let _ = eng.handle_key(id, Keycode::new(KEY_LEFTMETA), 1);
    let r = eng.handle_key(id, Keycode::new(KEY_A), 1);
    assert_eq!(r.fired.len(), 0);
}

#[test]
fn matched_silent_hotkey_is_swallowed() {
    let mut eng = engine_from("super + a\n\tfoo\n");
    let id = eng.attach_device();
    let r1 = eng.handle_key(id, Keycode::new(KEY_LEFTMETA), 1);
    assert!(r1.forward);
    let r2 = eng.handle_key(id, Keycode::new(KEY_A), 1);
    assert!(!r2.forward);
}

#[test]
fn send_hotkey_both_forwards_and_fires() {
    let mut eng = engine_from("super + ~a\n\tfoo\n");
    let id = eng.attach_device();
    let _ = eng.handle_key(id, Keycode::new(KEY_LEFTMETA), 1);
    let r = eng.handle_key(id, Keycode::new(KEY_A), 1);
    assert!(r.forward);
    assert_eq!(r.fired, vec!["foo".to_string()]);
}

#[test]
fn swallow_mode_suppresses_everything() {
    let mut eng = engine_from(
        "super + o\n\t@enter grab\nmode grab swallow\nh\n\techo h\nendmode\n",
    );
    let id = eng.attach_device();
    let _ = eng.handle_key(id, Keycode::new(KEY_LEFTMETA), 1);
    let _ = eng.handle_key(id, Keycode::new(KEY_O), 1);
    assert_eq!(eng.mode_stack, vec![0, 1]);
    let r = eng.handle_key(id, Keycode::new(KEY_B), 1);
    assert!(!r.forward);
}

#[test]
fn oneoff_mode_pops_after_one_trigger() {
    let mut eng = engine_from(
        "super + o\n\t@enter grab\nmode grab oneoff\nh\n\techo h\nendmode\n",
    );
    let id = eng.attach_device();
    let _ = eng.handle_key(id, Keycode::new(KEY_LEFTMETA), 1);
    let _ = eng.handle_key(id, Keycode::new(KEY_O), 1);
    assert_eq!(eng.mode_stack, vec![0, 1]);
    let _ = eng.handle_key(id, Keycode::new(KEY_LEFTMETA), 0);
    let _ = eng.handle_key(id, Keycode::new(KEY_O), 0);
    let r = eng.handle_key(id, Keycode::new(KEY_H), 1);
    assert_eq!(r.fired, vec!["echo h".to_string()]);
    assert_eq!(eng.mode_stack, vec![0]);
}

#[test]
fn escape_never_pops_the_root() {
    let modes = load(&vec![("rt.conf".to_string(), "super + a\n\tfoo\n".to_string())])
        .expect("config loads");
    let mut stack: Vec<usize> = vec![0];
    let out = resolve_core(&modes, &mut stack, &chars("@escape && @escape && @escape"));
    assert_eq!(stack, vec![0]);
    assert_eq!(out, "".to_string());
}

#[test]
fn enter_unknown_mode_is_a_no_op() {
    let modes = load(&vec![("rt.conf".to_string(), "super + a\n\tfoo\n".to_string())])
        .expect("config loads");
    let mut stack: Vec<usize> = vec![0];
    let out = resolve_core(&modes, &mut stack, &chars("@enter nowhere && echo x"));
    assert_eq!(stack, vec![0]);
    assert_eq!(out, "echo x".to_string());
}

#[test]
fn control_tokens_are_cut_out_of_the_dispatch() {
    let modes = load(&vec![(
        "rt.conf".to_string(),
        "super + o\n\tx\nmode grab\nh\n\ty\nendmode\n".to_string(),
    )])
    .expect("config loads");
    let mut stack: Vec<usize> = vec![0];
    let out = resolve_core(&modes, &mut stack, &chars("echo a && @enter grab && echo b"));
    assert_eq!(stack, vec![0, 1]);
    assert_eq!(out, "echo a &&echo b".to_string());
}

#[test]
fn on_release_fires_on_keyup_only() {
    let mut eng = engine_from("super + @a\n\tfoo\n");
    let id = eng.attach_device();
    let _ = eng.handle_key(id, Keycode::new(KEY_LEFTMETA), 1);
    let r1 = eng.handle_key(id, Keycode::new(KEY_A), 1);
    assert_eq!(r1.fired.len(), 0);
    assert!(!r1.rearm);
    let (t, _) = eng.handle_timer();
    assert!(t.is_none());
    let r2 = eng.handle_key(id, Keycode::new(KEY_A), 0);
    assert_eq!(r2.fired, vec!["foo".to_string()]);
}

#[test]
fn remap_rewrites_before_matching() {
    let modes = load(&vec![("rt.conf".to_string(), "super + b\n\tfoo\n".to_string())])
        .expect("config loads");
    let remaps = vec![(Keycode::new(KEY_A), Keycode::new(KEY_B))];
    let mut eng = Engine::new(modes, remaps);
    let id = eng.attach_device();
    let _ = eng.handle_key(id, Keycode::new(KEY_LEFTMETA), 1);
    let r = eng.handle_key(id, Keycode::new(KEY_A), 1);
    assert_eq!(r.remapped, Keycode::new(KEY_B));
    assert_eq!(r.fired, vec!["foo".to_string()]);
}

#[test]
fn paused_engine_matches_nothing() {
    let mut eng = engine_from("super + a\n\tfoo\n");
    let id = eng.attach_device();
    eng.pause();
    let _ = eng.handle_key(id, Keycode::new(KEY_LEFTMETA), 1);
    let r = eng.handle_key(id, Keycode::new(KEY_A), 1);
    assert_eq!(r.fired.len(), 0);
    eng.resume();
    let r2 = eng.handle_key(id, Keycode::new(KEY_A), 1);
    assert_eq!(r2.fired, vec!["foo".to_string()]);
}

#[test]
fn reload_resets_the_stack_and_armed_state() {
    let mut eng = engine_from(
        "super + o\n\t@enter grab\nmode grab\nh\n\techo h\nendmode\n",
    );
    let id = eng.attach_device();
    let _ = eng.handle_key(id, Keycode::new(KEY_LEFTMETA), 1);
    let _ = eng.handle_key(id, Keycode::new(KEY_O), 1);
    assert_eq!(eng.mode_stack, vec![0, 1]);
    let modes = load(&vec![("rt.conf".to_string(), "super + b\n\tbar\n".to_string())])
        .expect("config loads");
    eng.reload(modes, Vec::new());
    assert_eq!(eng.mode_stack, vec![0]);
    assert!(eng.armed.is_none());
}

#[test]
fn detached_device_slot_is_reused() {
    let mut eng = engine_from("super + a\n\tfoo\n");
    let a = eng.attach_device();
    let b = eng.attach_device();
    assert_ne!(a, b);
    eng.detach_device(a);
    let c = eng.attach_device();
    assert_eq!(c, a);
}

#[test]
fn name_tables_know_the_vocabulary() {
    assert_eq!(keysym_name(&chars("f13")), Some(Keycode::new(183)));
    assert_eq!(keysym_name(&chars("volumeup")), Some(Keycode::new(115)));
    assert_eq!(keysym_name(&chars("xf86audioraisevolume")), Some(Keycode::new(115)));
    assert_eq!(keysym_name(&chars("-")), Some(Keycode::new(12)));
    assert_eq!(keysym_name(&chars("super")), None);
    assert_eq!(modifier_name(&chars("mod4")), Some(Modifier::Super));
    assert_eq!(modifier_name(&chars("altgr")), Some(Modifier::AltGr));
    assert_eq!(modifier_name(&chars("a")), None);
}

#[test]
fn action_type_spellings() {
    assert_eq!(ActionType::from_str("command"), Ok(ActionType::Command));
    assert_eq!(ActionType::from_str("Command"), Ok(ActionType::Command));
    assert_eq!(ActionType::from_str("SingleCommand"), Ok(ActionType::SingleCommand));
    assert_eq!(ActionType::from_str("singlecommand"), Ok(ActionType::SingleCommand));
    assert_eq!(ActionType::from_str("other"), Err(()));
}

#[test]
fn environment_is_built_from_the_invoking_uid() {
    let env = Env::construct(Some("1000".to_string())).expect("valid uid");
    assert_eq!(env.pkexec_id, 1000);
    assert_eq!(env.fetch_config_path(), "/etc/swhkd/swhkdrc".to_string());
    assert_eq!(env.fetch_runtime_socket_path(), "/run/user/1000/swhkd.sock".to_string());
    assert!(matches!(Env::construct(None), Err(EnvError::PkexecNotFound)));
    assert!(matches!(
        Env::construct(Some("not a uid".to_string())),
        Err(EnvError::GenericError(_))
    ));
    assert!(matches!(
        Env::construct(Some("99999999999".to_string())),
        Err(EnvError::GenericError(_))
    ));
}

#[test]
fn io_errors_are_classified() {
    assert!(matches!(Error::from_io(true, "gone".to_string()), Error::ConfigNotFound));
    assert!(matches!(Error::from_io(false, "denied".to_string()), Error::Io(_)));
}

#[test]
fn releasing_a_modifier_clears_pending_without_firing() {
    let mut eng = engine_from("super + @a\n\tfoo\n");
    let id = eng.attach_device();
    let _ = eng.handle_key(id, Keycode::new(KEY_LEFTMETA), 1);
    let r1 = eng.handle_key(id, Keycode::new(KEY_A), 1);
    assert_eq!(r1.fired.len(), 0);
    let r2 = eng.handle_key(id, Keycode::new(KEY_LEFTMETA), 0);
    assert_eq!(r2.fired.len(), 0);
    assert!(eng.armed.is_none());
    let r3 = eng.handle_key(id, Keycode::new(KEY_A), 0);
    assert_eq!(r3.fired.len(), 0);
}

#[test]
fn unrelated_release_leaves_a_pending_chord_armed() {
    let mut eng = engine_from("super + @a\n\tfoo\n");
    let id = eng.attach_device();
    let _ = eng.handle_key(id, Keycode::new(KEY_LEFTMETA), 1);
    let _ = eng.handle_key(id, Keycode::new(KEY_A), 1);
    let r1 = eng.handle_key(id, Keycode::new(KEY_B), 0);
    assert_eq!(r1.fired.len(), 0);
    assert!(eng.armed.is_some());
    let r2 = eng.handle_key(id, Keycode::new(KEY_A), 0);
    assert_eq!(r2.fired, vec!["foo".to_string()]);
}

#[test]
fn an_at_sign_inside_a_word_is_not_a_control_token() {
    let modes = load(&vec![("rt.conf".to_string(), "super + a\n\tfoo\n".to_string())])
        .expect("config loads");
    let mut stack: Vec<usize> = vec![0];
    let out = resolve_core(&modes, &mut stack, &chars("mail user@host && echo done"));
    assert_eq!(stack, vec![0]);
    assert_eq!(out, "mail user@host &&echo done".to_string());
}
