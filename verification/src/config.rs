//! The in-memory binding model: key bindings, hotkeys, modes, and the
//! operations the grammar needs on them (last-write-wins insertion and
//! unbind filtering), together with the configuration error type.

use vstd::prelude::*;
use crate::keys::{Keycode, Modifier};

verus! {

/// A chord: one keysym plus a set of required modifiers, with the
/// send / on-release flags that the chord text carried.
#[derive(Debug)]
pub struct KeyBinding {
    pub keysym: Keycode,
    pub modifiers: Vec<Modifier>,
    pub send: bool,
    pub on_release: bool,
}

/// The modifier set of a binding; the vector's order never matters.
pub open spec fn mods_of(a: KeyBinding) -> Set<Modifier> {
    Set::new(|m: Modifier| a.modifiers@.contains(m))
}

/// Binding equality: identical keysym, identical modifier set (order
/// independent), identical send and on-release flags.
pub open spec fn binding_eq(a: KeyBinding, b: KeyBinding) -> bool {
    a.keysym == b.keysym && mods_of(a) == mods_of(b) && a.send == b.send && a.on_release
        == b.on_release
}

/// True when every element of `a` occurs in `b`.
fn mods_subset(a: &Vec<Modifier>, b: &Vec<Modifier>) -> (r: bool)
    ensures
        r == (forall|m: Modifier| a@.contains(m) ==> b@.contains(m)),
{
    let mut i: usize = 0;
    while i < a.len()
        invariant
            i <= a@.len(),
            forall|j: int| 0 <= j < i ==> b@.contains(a@[j]),
        decreases a@.len() - i,
    {
        if !contains_modifier(b, a[i]) {
            return false;
        }
        i += 1;
    }
    true
}

/// True when `v` holds `m`.
pub fn contains_modifier(v: &Vec<Modifier>, m: Modifier) -> (r: bool)
    ensures
        r == v@.contains(m),
{
    let mut i: usize = 0;
    while i < v.len()
        invariant
            i <= v@.len(),
            forall|j: int| 0 <= j < i ==> v@[j] != m,
        decreases v@.len() - i,
    {
        if v[i] == m {
            return true;
        }
        i += 1;
    }
    false
}

impl KeyBinding {
    pub fn new(keysym: Keycode, modifiers: Vec<Modifier>, send: bool, on_release: bool) -> (r:
        KeyBinding)
        ensures
            r == (KeyBinding { keysym, modifiers, send, on_release }),
    {
        KeyBinding { keysym, modifiers, send, on_release }
    }

    pub fn keysym(&self) -> (r: Keycode)
        ensures
            r == self.keysym,
    {
        self.keysym
    }

    pub fn is_send(&self) -> (r: bool)
        ensures
            r == self.send,
    {
        self.send
    }

    pub fn is_on_release(&self) -> (r: bool)
        ensures
            r == self.on_release,
    {
        self.on_release
    }

    /// Decides binding equality; the modifier lists may list their
    /// elements in any order.
    pub fn same_binding(&self, other: &KeyBinding) -> (r: bool)
        ensures
            r == binding_eq(*self, *other),
    {
        let sub1 = mods_subset(&self.modifiers, &other.modifiers);
        let sub2 = mods_subset(&other.modifiers, &self.modifiers);
        proof {
            if sub1 && sub2 {
                assert(mods_of(*self) =~= mods_of(*other));
            }
            if mods_of(*self) == mods_of(*other) {
                assert forall|m: Modifier| self.modifiers@.contains(m) implies
                    other.modifiers@.contains(m) by {
                    assert(mods_of(*self).contains(m));
                    assert(mods_of(*other).contains(m));
                }
                assert forall|m: Modifier| other.modifiers@.contains(m) implies
                    self.modifiers@.contains(m) by {
                    assert(mods_of(*other).contains(m));
                    assert(mods_of(*self).contains(m));
                }
            }
        }
        self.keysym.code == other.keysym.code && self.send == other.send && self.on_release
            == other.on_release && sub1 && sub2
    }
}

/// A hotkey: a binding together with the command it fires.
#[derive(Debug)]
pub struct Hotkey {
    pub keybind: KeyBinding,
    pub command: String,
}

impl Hotkey {
    pub fn new(keybind: KeyBinding, command: String) -> (r: Hotkey)
        ensures
            r == (Hotkey { keybind, command }),
    {
        Hotkey { keybind, command }
    }

    pub fn keysym(&self) -> (r: Keycode)
        ensures
            r == self.keybind.keysym,
    {
        self.keybind.keysym
    }

    pub fn is_send(&self) -> (r: bool)
        ensures
            r == self.keybind.send,
    {
        self.keybind.send
    }

    pub fn is_on_release(&self) -> (r: bool)
        ensures
            r == self.keybind.on_release,
    {
        self.keybind.on_release
    }
}

/// Per-mode behaviour switches.
#[derive(Clone, Copy, PartialEq, Eq, Structural, Debug)]
pub struct ModeOptions {
    pub swallow: bool,
    pub oneoff: bool,
}

impl Default for ModeOptions {
    /// Both switches are off unless the mode declaration names them.
    fn default() -> (r: Self)
        ensures
            !r.swallow && !r.oneoff,
    {
        ModeOptions { swallow: false, oneoff: false }
    }
}

/// A named set of hotkeys with its unbind directives and options.
#[derive(Debug)]
pub struct Mode {
    pub name: String,
    pub hotkeys: Vec<Hotkey>,
    pub unbinds: Vec<KeyBinding>,
    pub options: ModeOptions,
}

/// `s` with every hotkey whose binding equals `kb` removed.
pub open spec fn spec_strip(s: Seq<Hotkey>, kb: KeyBinding) -> Seq<Hotkey>
    decreases s.len(),
{
    if s.len() == 0 {
        s
    } else {
        let rest = spec_strip(s.drop_first(), kb);
        if binding_eq(s[0].keybind, kb) {
            rest
        } else {
            seq![s[0]] + rest
        }
    }
}

/// After stripping, no hotkey with the stripped binding remains, and
/// hotkeys with other bindings survive in order.
pub proof fn lemma_strip(s: Seq<Hotkey>, kb: KeyBinding)
    ensures
        forall|i: int|
            0 <= i < spec_strip(s, kb).len() ==> !binding_eq(
                #[trigger] spec_strip(s, kb)[i].keybind,
                kb,
            ),
        forall|i: int|
            0 <= i < s.len() && !binding_eq(s[i].keybind, kb) ==> spec_strip(s, kb).contains(
                #[trigger] s[i],
            ),
    decreases s.len(),
{
    if s.len() > 0 {
        lemma_strip(s.drop_first(), kb);
        let rest = spec_strip(s.drop_first(), kb);
        assert forall|i: int|
            0 <= i < s.len() && !binding_eq(s[i].keybind, kb) implies spec_strip(s, kb).contains(
            s[i],
        ) by {
            if i == 0 {
                assert(spec_strip(s, kb)[0] == s[0]);
            } else {
                assert(s.drop_first()[i - 1] == s[i]);
                assert(rest.contains(s[i]));
                let j = choose|j: int| 0 <= j < rest.len() && rest[j] == s[i];
                if binding_eq(s[0].keybind, kb) {
                    assert(spec_strip(s, kb)[j] == s[i]);
                } else {
                    assert(spec_strip(s, kb)[j + 1] == s[i]);
                }
            }
        }
    }
}

/// Removes every hotkey bound to `kb`, keeping the others in order.
pub fn strip_binding(hs: Vec<Hotkey>, kb: &KeyBinding) -> (r: Vec<Hotkey>)
    ensures
        r@ == spec_strip(hs@, *kb),
{
    let ghost orig: Seq<Hotkey> = hs@;
    let mut rest = hs;
    let mut out: Vec<Hotkey> = Vec::new();
    while rest.len() > 0
        invariant
            spec_strip(orig, *kb) == out@ + spec_strip(rest@, *kb),
        decreases rest@.len(),
    {
        let ghost pre: Seq<Hotkey> = rest@;
        let h = rest.remove(0);
        assert(rest@ == pre.drop_first());
        if !h.keybind.same_binding(kb) {
            out.push(h);
        }
        proof {
            assert(spec_strip(orig, *kb) == out@ + spec_strip(rest@, *kb));
        }
    }
    assert(out@ =~= out@ + spec_strip(rest@, *kb));
    out
}

impl Mode {
    /// A fresh mode with the given name and options and no bindings.
    pub fn empty(name: String, options: ModeOptions) -> (r: Mode)
        ensures
            r.name == name,
            r.options == options,
            r.hotkeys@.len() == 0,
            r.unbinds@.len() == 0,
    {
        Mode { name, hotkeys: Vec::new(), unbinds: Vec::new(), options }
    }

    /// Adds `h`, discarding any earlier hotkey with the same binding, so
    /// that within a mode the later of two definitions of one chord wins.
    pub fn insert_hotkey(&mut self, h: Hotkey)
        ensures
            final(self).hotkeys@ == spec_strip(old(self).hotkeys@, h.keybind) + seq![h],
            final(self).name == old(self).name,
            final(self).unbinds == old(self).unbinds,
            final(self).options == old(self).options,
    {
        let mut hs: Vec<Hotkey> = Vec::new();
        core::mem::swap(&mut self.hotkeys, &mut hs);
        let mut out = strip_binding(hs, &h.keybind);
        out.push(h);
        core::mem::swap(&mut self.hotkeys, &mut out);
    }

    /// Records an unbind directive.
    pub fn push_unbind(&mut self, kb: KeyBinding)
        ensures
            final(self).unbinds@ == old(self).unbinds@.push(kb),
            final(self).name == old(self).name,
            final(self).hotkeys == old(self).hotkeys,
            final(self).options == old(self).options,
    {
        self.unbinds.push(kb);
    }
}

/// `s` with every hotkey matching one of `us` removed.
pub open spec fn spec_unbind(s: Seq<Hotkey>, us: Seq<KeyBinding>) -> Seq<Hotkey>
    decreases us.len(),
{
    if us.len() == 0 {
        s
    } else {
        spec_unbind(spec_strip(s, us[0]), us.drop_first())
    }
}

/// Applies every recorded unbind directive of `m` to its own hotkey
/// list; afterwards no hotkey matching an unbound chord remains.
pub fn apply_unbinds(m: &mut Mode)
    ensures
        final(m).hotkeys@ == spec_unbind(old(m).hotkeys@, old(m).unbinds@),
        final(m).name == old(m).name,
        final(m).unbinds == old(m).unbinds,
        final(m).options == old(m).options,
{
    let mut hs: Vec<Hotkey> = Vec::new();
    core::mem::swap(&mut m.hotkeys, &mut hs);
    proof {
        assert(old(m).unbinds@.skip(0) =~= old(m).unbinds@);
    }
    let mut i: usize = 0;
    while i < m.unbinds.len()
        invariant
            i <= m.unbinds@.len(),
            spec_unbind(old(m).hotkeys@, old(m).unbinds@) == spec_unbind(
                hs@,
                old(m).unbinds@.skip(i as int),
            ),
            m.unbinds == old(m).unbinds,
            m.name == old(m).name,
            m.options == old(m).options,
        decreases m.unbinds@.len() - i,
    {
        let ghost pre: Seq<KeyBinding> = m.unbinds@.skip(i as int);
        hs = strip_binding(hs, &m.unbinds[i]);
        proof {
            assert(pre.drop_first() =~= m.unbinds@.skip(i + 1));
        }
        i += 1;
    }
    proof {
        assert(m.unbinds@.skip(i as int) =~= Seq::<KeyBinding>::empty());
    }
    core::mem::swap(&mut m.hotkeys, &mut hs);
}

/// What is wrong with a chord token.
#[derive(Clone, Copy, PartialEq, Eq, Structural, Debug)]
pub enum ChordKind {
    /// A token is neither a known modifier nor a known keysym name.
    UnknownSymbol,
    /// A keysym name stands where a modifier is required.
    InvalidModifier,
    /// A modifier name stands where the keysym is required.
    InvalidKeysym,
}

/// A chord error, tagged with the file path and the 1-based number of
/// the offending line.
#[derive(Debug)]
pub struct ParseError {
    pub path: String,
    pub line: u32,
    pub kind: ChordKind,
}

/// Everything that can go wrong while loading a configuration.
#[derive(Debug)]
pub enum Error {
    ConfigNotFound,
    Io(String),
    InvalidConfig(ParseError),
}

impl Error {
    /// Classifies an I/O failure the way the loader reports it: a
    /// missing file is `ConfigNotFound`, anything else keeps its text.
    pub fn from_io(not_found: bool, text: String) -> (r: Error)
        ensures
            not_found ==> r is ConfigNotFound,
            !not_found ==> (r matches Error::Io(t) && t == text),
    {
        if not_found {
            Error::ConfigNotFound
        } else {
            Error::Io(text)
        }
    }
}

/// The mathematical value of a binding: the modifier list keeps the
/// order in which the chord text listed the modifiers, but two bindings
/// count as the same chord whenever the modifier sets agree.
#[verifier::ext_equal]
pub struct BindingView {
    pub keysym: Keycode,
    pub mods: Seq<Modifier>,
    pub send: bool,
    pub on_release: bool,
}

impl View for KeyBinding {
    type V = BindingView;

    open spec fn view(&self) -> BindingView {
        BindingView {
            keysym: self.keysym,
            mods: self.modifiers@,
            send: self.send,
            on_release: self.on_release,
        }
    }
}

/// Chord equality on binding values.
pub open spec fn bview_eq(a: BindingView, b: BindingView) -> bool {
    a.keysym == b.keysym && a.mods.to_set() == b.mods.to_set() && a.send == b.send && a.on_release
        == b.on_release
}

/// `binding_eq` on two bindings is chord equality of their values.
pub proof fn lemma_binding_eq_view(a: KeyBinding, b: KeyBinding)
    ensures
        binding_eq(a, b) == bview_eq(a@, b@),
{
    assert(mods_of(a) =~= a@.mods.to_set());
    assert(mods_of(b) =~= b@.mods.to_set());
}

/// The mathematical value of a hotkey.
#[verifier::ext_equal]
pub struct HotkeyView {
    pub keybind: BindingView,
    pub command: Seq<char>,
}

impl View for Hotkey {
    type V = HotkeyView;

    open spec fn view(&self) -> HotkeyView {
        HotkeyView { keybind: self.keybind@, command: self.command@ }
    }
}

/// The mathematical value of a mode.
#[verifier::ext_equal]
pub struct ModeView {
    pub name: Seq<char>,
    pub hotkeys: Seq<HotkeyView>,
    pub unbinds: Seq<BindingView>,
    pub options: ModeOptions,
}

impl View for Mode {
    type V = ModeView;

    open spec fn view(&self) -> ModeView {
        ModeView {
            name: self.name@,
            hotkeys: hotkey_views(self.hotkeys@),
            unbinds: binding_views(self.unbinds@),
            options: self.options,
        }
    }
}

/// The values of a sequence of hotkeys.
pub open spec fn hotkey_views(s: Seq<Hotkey>) -> Seq<HotkeyView> {
    s.map_values(|h: Hotkey| h@)
}

/// The values of a sequence of bindings.
pub open spec fn binding_views(s: Seq<KeyBinding>) -> Seq<BindingView> {
    s.map_values(|b: KeyBinding| b@)
}

/// The values of a sequence of modes.
pub open spec fn mode_views(s: Seq<Mode>) -> Seq<ModeView> {
    s.map_values(|m: Mode| m@)
}

/// Value-level counterpart of `spec_strip`.
pub open spec fn gstrip(s: Seq<HotkeyView>, kb: BindingView) -> Seq<HotkeyView>
    decreases s.len(),
{
    if s.len() == 0 {
        s
    } else {
        let rest = gstrip(s.drop_first(), kb);
        if bview_eq(s[0].keybind, kb) {
            rest
        } else {
            seq![s[0]] + rest
        }
    }
}

/// Stripping commutes with taking values.
pub proof fn lemma_strip_view(s: Seq<Hotkey>, kb: KeyBinding)
    ensures
        hotkey_views(spec_strip(s, kb)) == gstrip(hotkey_views(s), kb@),
    decreases s.len(),
{
    if s.len() == 0 {
        assert(hotkey_views(spec_strip(s, kb)) =~= gstrip(hotkey_views(s), kb@));
    } else {
        lemma_strip_view(s.drop_first(), kb);
        lemma_binding_eq_view(s[0].keybind, kb);
        assert(hotkey_views(s).drop_first() =~= hotkey_views(s.drop_first()));
        assert(hotkey_views(s)[0] == s[0]@);
        if binding_eq(s[0].keybind, kb) {
            assert(hotkey_views(spec_strip(s, kb)) == gstrip(hotkey_views(s), kb@));
        } else {
            assert(hotkey_views(spec_strip(s, kb)) =~= seq![s[0]@] + hotkey_views(
                spec_strip(s.drop_first(), kb),
            ));
            assert(gstrip(hotkey_views(s), kb@) == seq![s[0]@] + gstrip(
                hotkey_views(s.drop_first()),
                kb@,
            ));
        }
    }
}

/// Value-level counterpart of `spec_unbind`.
pub open spec fn gunbind(s: Seq<HotkeyView>, us: Seq<BindingView>) -> Seq<HotkeyView>
    decreases us.len(),
{
    if us.len() == 0 {
        s
    } else {
        gunbind(gstrip(s, us[0]), us.drop_first())
    }
}

/// Unbinding commutes with taking values.
pub proof fn lemma_unbind_view(s: Seq<Hotkey>, us: Seq<KeyBinding>)
    ensures
        hotkey_views(spec_unbind(s, us)) == gunbind(hotkey_views(s), binding_views(us)),
    decreases us.len(),
{
    let gus = binding_views(us);
    if us.len() == 0 {
    } else {
        lemma_strip_view(s, us[0]);
        lemma_unbind_view(spec_strip(s, us[0]), us.drop_first());
        assert(binding_views(us.drop_first()) =~= gus.drop_first());
        assert(gus[0] == us[0]@);
    }
}

} // verus!
