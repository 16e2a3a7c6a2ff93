//! The closed key enumeration and the modifier roles.
//!
//! A `Keycode` holds the numeric identifier of one physical key, using the
//! conventional Linux input event codes, so that a runtime front end can
//! hand device events straight to the engine.  A `Modifier` is the semantic
//! role a modifier-producing key plays in a chord.  The keysym and modifier
//! name tables are the grammar's fixed vocabulary: chord tokens are looked
//! up here after trimming and lowercasing.

use vstd::prelude::*;
use crate::text::eq_lit;

verus! {

/// One physical key, identified by its Linux input event code.
#[derive(Clone, Copy, PartialEq, Eq, Structural, Debug, Hash)]
pub struct Keycode {
    pub code: u16,
}

impl Keycode {
    pub fn new(code: u16) -> (r: Keycode)
        ensures
            r.code == code,
    {
        Keycode { code }
    }
}

/// The semantic role of a modifier key in a chord.
#[derive(Clone, Copy, PartialEq, Eq, Structural, Debug, Hash)]
pub enum Modifier {
    Super,
    Alt,
    AltGr,
    Control,
    Shift,
    Any,
}

/// The modifier role of a modifier-producing key, if it has one.  Only the
/// eight keys listed here ever count as modifiers at runtime; every other
/// key is a plain keysym.
pub open spec fn spec_modifier_of(k: Keycode) -> Option<Modifier> {
    if k.code == 125 || k.code == 126 {
        Some(Modifier::Super)
    } else if k.code == 56 {
        Some(Modifier::Alt)
    } else if k.code == 100 {
        Some(Modifier::AltGr)
    } else if k.code == 29 || k.code == 97 {
        Some(Modifier::Control)
    } else if k.code == 42 || k.code == 54 {
        Some(Modifier::Shift)
    } else {
        None
    }
}

/// Maps a modifier-producing key to its role: left/right meta to `Super`,
/// left alt to `Alt`, right alt to `AltGr`, left/right control to
/// `Control`, left/right shift to `Shift`.
pub fn modifier_of(k: Keycode) -> (r: Option<Modifier>)
    ensures
        r == spec_modifier_of(k),
{
    if k.code == 125 || k.code == 126 {
        Some(Modifier::Super)
    } else if k.code == 56 {
        Some(Modifier::Alt)
    } else if k.code == 100 {
        Some(Modifier::AltGr)
    } else if k.code == 29 || k.code == 97 {
        Some(Modifier::Control)
    } else if k.code == 42 || k.code == 54 {
        Some(Modifier::Shift)
    } else {
        None
    }
}

/// The modifier vocabulary of the grammar.
pub open spec fn spec_modifier_name(s: Seq<char>) -> Option<Modifier> {
    if s == "ctrl"@ || s == "control"@ {
        Some(Modifier::Control)
    } else if s == "super"@ || s == "mod4"@ {
        Some(Modifier::Super)
    } else if s == "alt"@ || s == "mod1"@ {
        Some(Modifier::Alt)
    } else if s == "altgr"@ || s == "mod5"@ {
        Some(Modifier::AltGr)
    } else if s == "shift"@ {
        Some(Modifier::Shift)
    } else if s == "any"@ {
        Some(Modifier::Any)
    } else {
        None
    }
}

/// Looks a lowercased token up in the modifier name table:
/// `ctrl`/`control`, `super`/`mod4`, `alt`/`mod1`, `altgr`/`mod5`,
/// `shift`, `any`.
pub fn modifier_name(s: &Vec<char>) -> (r: Option<Modifier>)
    ensures
        r == spec_modifier_name(s@),
{
    if eq_lit(s, "ctrl") || eq_lit(s, "control") {
        Some(Modifier::Control)
    } else if eq_lit(s, "super") || eq_lit(s, "mod4") {
        Some(Modifier::Super)
    } else if eq_lit(s, "alt") || eq_lit(s, "mod1") {
        Some(Modifier::Alt)
    } else if eq_lit(s, "altgr") || eq_lit(s, "mod5") {
        Some(Modifier::AltGr)
    } else if eq_lit(s, "shift") {
        Some(Modifier::Shift)
    } else if eq_lit(s, "any") {
        Some(Modifier::Any)
    } else {
        None
    }
}

/// Letter and digit keysyms.
pub open spec fn spec_key_letter_digit(s: Seq<char>) -> Option<u16> {
    if s == "a"@ { Some(30u16) }
    else if s == "b"@ { Some(48u16) }
    else if s == "c"@ { Some(46u16) }
    else if s == "d"@ { Some(32u16) }
    else if s == "e"@ { Some(18u16) }
    else if s == "f"@ { Some(33u16) }
    else if s == "g"@ { Some(34u16) }
    else if s == "h"@ { Some(35u16) }
    else if s == "i"@ { Some(23u16) }
    else if s == "j"@ { Some(36u16) }
    else if s == "k"@ { Some(37u16) }
    else if s == "l"@ { Some(38u16) }
    else if s == "m"@ { Some(50u16) }
    else if s == "n"@ { Some(49u16) }
    else if s == "o"@ { Some(24u16) }
    else if s == "p"@ { Some(25u16) }
    else if s == "q"@ { Some(16u16) }
    else if s == "r"@ { Some(19u16) }
    else if s == "s"@ { Some(31u16) }
    else if s == "t"@ { Some(20u16) }
    else if s == "u"@ { Some(22u16) }
    else if s == "v"@ { Some(47u16) }
    else if s == "w"@ { Some(17u16) }
    else if s == "x"@ { Some(45u16) }
    else if s == "y"@ { Some(21u16) }
    else if s == "z"@ { Some(44u16) }
    else if s == "0"@ { Some(11u16) }
    else if s == "1"@ { Some(2u16) }
    else if s == "2"@ { Some(3u16) }
    else if s == "3"@ { Some(4u16) }
    else if s == "4"@ { Some(5u16) }
    else if s == "5"@ { Some(6u16) }
    else if s == "6"@ { Some(7u16) }
    else if s == "7"@ { Some(8u16) }
    else if s == "8"@ { Some(9u16) }
    else if s == "9"@ { Some(10u16) }
    else { None }
}

fn key_letter_digit(s: &Vec<char>) -> (r: Option<u16>)
    ensures
        r == spec_key_letter_digit(s@),
{
    if eq_lit(s, "a") { Some(30) }
    else if eq_lit(s, "b") { Some(48) }
    else if eq_lit(s, "c") { Some(46) }
    else if eq_lit(s, "d") { Some(32) }
    else if eq_lit(s, "e") { Some(18) }
    else if eq_lit(s, "f") { Some(33) }
    else if eq_lit(s, "g") { Some(34) }
    else if eq_lit(s, "h") { Some(35) }
    else if eq_lit(s, "i") { Some(23) }
    else if eq_lit(s, "j") { Some(36) }
    else if eq_lit(s, "k") { Some(37) }
    else if eq_lit(s, "l") { Some(38) }
    else if eq_lit(s, "m") { Some(50) }
    else if eq_lit(s, "n") { Some(49) }
    else if eq_lit(s, "o") { Some(24) }
    else if eq_lit(s, "p") { Some(25) }
    else if eq_lit(s, "q") { Some(16) }
    else if eq_lit(s, "r") { Some(19) }
    else if eq_lit(s, "s") { Some(31) }
    else if eq_lit(s, "t") { Some(20) }
    else if eq_lit(s, "u") { Some(22) }
    else if eq_lit(s, "v") { Some(47) }
    else if eq_lit(s, "w") { Some(17) }
    else if eq_lit(s, "x") { Some(45) }
    else if eq_lit(s, "y") { Some(21) }
    else if eq_lit(s, "z") { Some(44) }
    else if eq_lit(s, "0") { Some(11) }
    else if eq_lit(s, "1") { Some(2) }
    else if eq_lit(s, "2") { Some(3) }
    else if eq_lit(s, "3") { Some(4) }
    else if eq_lit(s, "4") { Some(5) }
    else if eq_lit(s, "5") { Some(6) }
    else if eq_lit(s, "6") { Some(7) }
    else if eq_lit(s, "7") { Some(8) }
    else if eq_lit(s, "8") { Some(9) }
    else if eq_lit(s, "9") { Some(10) }
    else { None }
}

/// Function key keysyms, `f1` through `f24`.
pub open spec fn spec_key_function(s: Seq<char>) -> Option<u16> {
    if s == "f1"@ { Some(59u16) }
    else if s == "f2"@ { Some(60u16) }
    else if s == "f3"@ { Some(61u16) }
    else if s == "f4"@ { Some(62u16) }
    else if s == "f5"@ { Some(63u16) }
    else if s == "f6"@ { Some(64u16) }
    else if s == "f7"@ { Some(65u16) }
    else if s == "f8"@ { Some(66u16) }
    else if s == "f9"@ { Some(67u16) }
    else if s == "f10"@ { Some(68u16) }
    else if s == "f11"@ { Some(87u16) }
    else if s == "f12"@ { Some(88u16) }
    else if s == "f13"@ { Some(183u16) }
    else if s == "f14"@ { Some(184u16) }
    else if s == "f15"@ { Some(185u16) }
    else if s == "f16"@ { Some(186u16) }
    else if s == "f17"@ { Some(187u16) }
    else if s == "f18"@ { Some(188u16) }
    else if s == "f19"@ { Some(189u16) }
    else if s == "f20"@ { Some(190u16) }
    else if s == "f21"@ { Some(191u16) }
    else if s == "f22"@ { Some(192u16) }
    else if s == "f23"@ { Some(193u16) }
    else if s == "f24"@ { Some(194u16) }
    else { None }
}

fn key_function(s: &Vec<char>) -> (r: Option<u16>)
    ensures
        r == spec_key_function(s@),
{
    if eq_lit(s, "f1") { Some(59) }
    else if eq_lit(s, "f2") { Some(60) }
    else if eq_lit(s, "f3") { Some(61) }
    else if eq_lit(s, "f4") { Some(62) }
    else if eq_lit(s, "f5") { Some(63) }
    else if eq_lit(s, "f6") { Some(64) }
    else if eq_lit(s, "f7") { Some(65) }
    else if eq_lit(s, "f8") { Some(66) }
    else if eq_lit(s, "f9") { Some(67) }
    else if eq_lit(s, "f10") { Some(68) }
    else if eq_lit(s, "f11") { Some(87) }
    else if eq_lit(s, "f12") { Some(88) }
    else if eq_lit(s, "f13") { Some(183) }
    else if eq_lit(s, "f14") { Some(184) }
    else if eq_lit(s, "f15") { Some(185) }
    else if eq_lit(s, "f16") { Some(186) }
    else if eq_lit(s, "f17") { Some(187) }
    else if eq_lit(s, "f18") { Some(188) }
    else if eq_lit(s, "f19") { Some(189) }
    else if eq_lit(s, "f20") { Some(190) }
    else if eq_lit(s, "f21") { Some(191) }
    else if eq_lit(s, "f22") { Some(192) }
    else if eq_lit(s, "f23") { Some(193) }
    else if eq_lit(s, "f24") { Some(194) }
    else { None }
}

/// Navigation and editing keysyms.
pub open spec fn spec_key_nav(s: Seq<char>) -> Option<u16> {
    if s == "escape"@ { Some(1u16) }
    else if s == "backspace"@ { Some(14u16) }
    else if s == "tab"@ { Some(15u16) }
    else if s == "return"@ || s == "enter"@ { Some(28u16) }
    else if s == "space"@ { Some(57u16) }
    else if s == "capslock"@ { Some(58u16) }
    else if s == "numlock"@ { Some(69u16) }
    else if s == "scrolllock"@ { Some(70u16) }
    else if s == "home"@ { Some(102u16) }
    else if s == "up"@ { Some(103u16) }
    else if s == "pageup"@ { Some(104u16) }
    else if s == "left"@ { Some(105u16) }
    else if s == "right"@ { Some(106u16) }
    else if s == "end"@ { Some(107u16) }
    else if s == "down"@ { Some(108u16) }
    else if s == "pagedown"@ { Some(109u16) }
    else if s == "insert"@ { Some(110u16) }
    else if s == "delete"@ { Some(111u16) }
    else if s == "print"@ { Some(99u16) }
    else if s == "pause"@ { Some(119u16) }
    else if s == "menu"@ { Some(139u16) }
    else if s == "compose"@ { Some(127u16) }
    else if s == "kp0"@ { Some(82u16) }
    else if s == "kp1"@ { Some(79u16) }
    else if s == "kp2"@ { Some(80u16) }
    else if s == "kp3"@ { Some(81u16) }
    else if s == "kp4"@ { Some(75u16) }
    else if s == "kp5"@ { Some(76u16) }
    else if s == "kp6"@ { Some(77u16) }
    else if s == "kp7"@ { Some(71u16) }
    else if s == "kp8"@ { Some(72u16) }
    else if s == "kp9"@ { Some(73u16) }
    else if s == "kpenter"@ { Some(96u16) }
    else if s == "kpplus"@ { Some(78u16) }
    else if s == "kpminus"@ { Some(74u16) }
    else if s == "kpasterisk"@ { Some(55u16) }
    else if s == "kpslash"@ { Some(98u16) }
    else if s == "kpdot"@ { Some(83u16) }
    else { None }
}

fn key_nav(s: &Vec<char>) -> (r: Option<u16>)
    ensures
        r == spec_key_nav(s@),
{
    if eq_lit(s, "escape") { Some(1) }
    else if eq_lit(s, "backspace") { Some(14) }
    else if eq_lit(s, "tab") { Some(15) }
    else if eq_lit(s, "return") || eq_lit(s, "enter") { Some(28) }
    else if eq_lit(s, "space") { Some(57) }
    else if eq_lit(s, "capslock") { Some(58) }
    else if eq_lit(s, "numlock") { Some(69) }
    else if eq_lit(s, "scrolllock") { Some(70) }
    else if eq_lit(s, "home") { Some(102) }
    else if eq_lit(s, "up") { Some(103) }
    else if eq_lit(s, "pageup") { Some(104) }
    else if eq_lit(s, "left") { Some(105) }
    else if eq_lit(s, "right") { Some(106) }
    else if eq_lit(s, "end") { Some(107) }
    else if eq_lit(s, "down") { Some(108) }
    else if eq_lit(s, "pagedown") { Some(109) }
    else if eq_lit(s, "insert") { Some(110) }
    else if eq_lit(s, "delete") { Some(111) }
    else if eq_lit(s, "print") { Some(99) }
    else if eq_lit(s, "pause") { Some(119) }
    else if eq_lit(s, "menu") { Some(139) }
    else if eq_lit(s, "compose") { Some(127) }
    else if eq_lit(s, "kp0") { Some(82) }
    else if eq_lit(s, "kp1") { Some(79) }
    else if eq_lit(s, "kp2") { Some(80) }
    else if eq_lit(s, "kp3") { Some(81) }
    else if eq_lit(s, "kp4") { Some(75) }
    else if eq_lit(s, "kp5") { Some(76) }
    else if eq_lit(s, "kp6") { Some(77) }
    else if eq_lit(s, "kp7") { Some(71) }
    else if eq_lit(s, "kp8") { Some(72) }
    else if eq_lit(s, "kp9") { Some(73) }
    else if eq_lit(s, "kpenter") { Some(96) }
    else if eq_lit(s, "kpplus") { Some(78) }
    else if eq_lit(s, "kpminus") { Some(74) }
    else if eq_lit(s, "kpasterisk") { Some(55) }
    else if eq_lit(s, "kpslash") { Some(98) }
    else if eq_lit(s, "kpdot") { Some(83) }
    else { None }
}

/// Multimedia, power and brightness keysyms, with their conventional X
/// aliases.
pub open spec fn spec_key_media(s: Seq<char>) -> Option<u16> {
    if s == "mute"@ || s == "xf86audiomute"@ { Some(113u16) }
    else if s == "volumedown"@ || s == "xf86audiolowervolume"@ { Some(114u16) }
    else if s == "volumeup"@ || s == "xf86audioraisevolume"@ { Some(115u16) }
    else if s == "brightnessdown"@ || s == "xf86monbrightnessdown"@ { Some(224u16) }
    else if s == "brightnessup"@ || s == "xf86monbrightnessup"@ { Some(225u16) }
    else if s == "playpause"@ || s == "xf86audioplay"@ { Some(164u16) }
    else if s == "nextsong"@ || s == "xf86audionext"@ { Some(163u16) }
    else if s == "previoussong"@ || s == "xf86audioprev"@ { Some(165u16) }
    else if s == "stopcd"@ || s == "xf86audiostop"@ { Some(166u16) }
    else if s == "micmute"@ || s == "xf86audiomicmute"@ { Some(248u16) }
    else if s == "rewind"@ { Some(168u16) }
    else if s == "fastforward"@ { Some(208u16) }
    else if s == "record"@ { Some(167u16) }
    else if s == "eject"@ { Some(161u16) }
    else if s == "power"@ { Some(116u16) }
    else if s == "sleep"@ { Some(142u16) }
    else if s == "wakeup"@ { Some(143u16) }
    else if s == "calculator"@ || s == "xf86calculator"@ { Some(140u16) }
    else if s == "mail"@ || s == "xf86mail"@ { Some(155u16) }
    else if s == "www"@ || s == "xf86explorer"@ { Some(150u16) }
    else if s == "homepage"@ || s == "xf86homepage"@ { Some(172u16) }
    else if s == "search"@ || s == "xf86search"@ { Some(217u16) }
    else { None }
}

fn key_media(s: &Vec<char>) -> (r: Option<u16>)
    ensures
        r == spec_key_media(s@),
{
    if eq_lit(s, "mute") || eq_lit(s, "xf86audiomute") { Some(113) }
    else if eq_lit(s, "volumedown") || eq_lit(s, "xf86audiolowervolume") { Some(114) }
    else if eq_lit(s, "volumeup") || eq_lit(s, "xf86audioraisevolume") { Some(115) }
    else if eq_lit(s, "brightnessdown") || eq_lit(s, "xf86monbrightnessdown") { Some(224) }
    else if eq_lit(s, "brightnessup") || eq_lit(s, "xf86monbrightnessup") { Some(225) }
    else if eq_lit(s, "playpause") || eq_lit(s, "xf86audioplay") { Some(164) }
    else if eq_lit(s, "nextsong") || eq_lit(s, "xf86audionext") { Some(163) }
    else if eq_lit(s, "previoussong") || eq_lit(s, "xf86audioprev") { Some(165) }
    else if eq_lit(s, "stopcd") || eq_lit(s, "xf86audiostop") { Some(166) }
    else if eq_lit(s, "micmute") || eq_lit(s, "xf86audiomicmute") { Some(248) }
    else if eq_lit(s, "rewind") { Some(168) }
    else if eq_lit(s, "fastforward") { Some(208) }
    else if eq_lit(s, "record") { Some(167) }
    else if eq_lit(s, "eject") { Some(161) }
    else if eq_lit(s, "power") { Some(116) }
    else if eq_lit(s, "sleep") { Some(142) }
    else if eq_lit(s, "wakeup") { Some(143) }
    else if eq_lit(s, "calculator") || eq_lit(s, "xf86calculator") { Some(140) }
    else if eq_lit(s, "mail") || eq_lit(s, "xf86mail") { Some(155) }
    else if eq_lit(s, "www") || eq_lit(s, "xf86explorer") { Some(150) }
    else if eq_lit(s, "homepage") || eq_lit(s, "xf86homepage") { Some(172) }
    else if eq_lit(s, "search") || eq_lit(s, "xf86search") { Some(217) }
    else { None }
}

/// Punctuation keysyms, each under its word name and its literal alias.
pub open spec fn spec_key_punct(s: Seq<char>) -> Option<u16> {
    if s == "minus"@ || s == "-"@ { Some(12u16) }
    else if s == "equal"@ || s == "="@ { Some(13u16) }
    else if s == "bracketleft"@ || s == "["@ { Some(26u16) }
    else if s == "bracketright"@ || s == "]"@ { Some(27u16) }
    else if s == "semicolon"@ || s == ";"@ { Some(39u16) }
    else if s == "apostrophe"@ || s == "'"@ { Some(40u16) }
    else if s == "comma"@ || s == ","@ { Some(51u16) }
    else if s == "period"@ || s == "."@ { Some(52u16) }
    else if s == "slash"@ || s == "/"@ { Some(53u16) }
    else if s == "backslash"@ || s == "\\"@ { Some(43u16) }
    else if s == "grave"@ || s == "`"@ { Some(41u16) }
    else { None }
}

fn key_punct(s: &Vec<char>) -> (r: Option<u16>)
    ensures
        r == spec_key_punct(s@),
{
    if eq_lit(s, "minus") || eq_lit(s, "-") { Some(12) }
    else if eq_lit(s, "equal") || eq_lit(s, "=") { Some(13) }
    else if eq_lit(s, "bracketleft") || eq_lit(s, "[") { Some(26) }
    else if eq_lit(s, "bracketright") || eq_lit(s, "]") { Some(27) }
    else if eq_lit(s, "semicolon") || eq_lit(s, ";") { Some(39) }
    else if eq_lit(s, "apostrophe") || eq_lit(s, "'") { Some(40) }
    else if eq_lit(s, "comma") || eq_lit(s, ",") { Some(51) }
    else if eq_lit(s, "period") || eq_lit(s, ".") { Some(52) }
    else if eq_lit(s, "slash") || eq_lit(s, "/") { Some(53) }
    else if eq_lit(s, "backslash") || eq_lit(s, "\\") { Some(43) }
    else if eq_lit(s, "grave") || eq_lit(s, "`") { Some(41) }
    else { None }
}

/// The whole keysym vocabulary: letters, digits, function keys, navigation
/// and editing keys, multimedia keys, punctuation aliases.
pub open spec fn spec_keysym_name(s: Seq<char>) -> Option<Keycode> {
    let c = if spec_key_letter_digit(s) is Some {
        spec_key_letter_digit(s)
    } else if spec_key_function(s) is Some {
        spec_key_function(s)
    } else if spec_key_nav(s) is Some {
        spec_key_nav(s)
    } else if spec_key_media(s) is Some {
        spec_key_media(s)
    } else {
        spec_key_punct(s)
    };
    match c {
        Some(code) => Some(Keycode { code }),
        None => None,
    }
}

/// Looks a lowercased token up in the keysym name table.
pub fn keysym_name(s: &Vec<char>) -> (r: Option<Keycode>)
    ensures
        r == spec_keysym_name(s@),
{
    let c = if let Some(c) = key_letter_digit(s) {
        Some(c)
    } else if let Some(c) = key_function(s) {
        Some(c)
    } else if let Some(c) = key_nav(s) {
        Some(c)
    } else if let Some(c) = key_media(s) {
        Some(c)
    } else {
        key_punct(s)
    };
    match c {
        Some(code) => Some(Keycode { code }),
        None => None,
    }
}

} // verus!
