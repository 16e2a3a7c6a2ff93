//! The library's stated laws: what the parser and the engine guarantee
//! across calls, proved from the public specifications alone.

use vstd::prelude::*;
use crate::config::{BindingView, HotkeyView, ModeView, bview_eq, gstrip, gunbind};
use crate::engine::{
    seq_set, spec_resolve, spec_resolve_seed, spec_clause_fold, spec_hotkey_match,
    spec_suppressed, spec_release_armed, DeviceView, trimmed_all, split_amp,
};
use crate::keys::{Keycode, Modifier, spec_modifier_name};
use crate::parser::{spec_chord_tokens, spec_mods_acc, spec_parse_keybind};

verus! {

/// Every token is a known modifier name.
pub open spec fn all_modifier_tokens(ts: Seq<Seq<char>>) -> bool {
    forall|i: int| 0 <= i < ts.len() ==> spec_modifier_name(#[trigger] ts[i]) is Some
}

/// The set of modifiers the tokens name.
pub open spec fn token_mod_set(ts: Seq<Seq<char>>) -> Set<Modifier> {
    Set::new(
        |m: Modifier|
            exists|i: int|
                0 <= i < ts.len() && spec_modifier_name(#[trigger] ts[i]) == Some(m),
    )
}

proof fn lemma_mods_acc(ts: Seq<Seq<char>>, acc: Seq<Modifier>)
    ensures
        (spec_mods_acc(ts, acc) is Ok) <==> all_modifier_tokens(ts),
        spec_mods_acc(ts, acc) is Ok ==> seq_set(spec_mods_acc(ts, acc)->Ok_0) == seq_set(
            acc,
        ).union(token_mod_set(ts)),
    decreases ts.len(),
{
    if ts.len() == 0 {
        assert(token_mod_set(ts) =~= Set::<Modifier>::empty());
        assert(seq_set(acc).union(token_mod_set(ts)) =~= seq_set(acc));
    } else {
        match spec_modifier_name(ts[0]) {
            None => {
                assert(!all_modifier_tokens(ts));
            },
            Some(m) => {
                let acc2 = if acc.contains(m) {
                    acc
                } else {
                    acc.push(m)
                };
                lemma_mods_acc(ts.drop_first(), acc2);
                assert forall|i: int|
                    0 <= i < ts.drop_first().len() implies ts.drop_first()[i] == ts[i + 1] by {}
                if all_modifier_tokens(ts.drop_first()) {
                    assert forall|i: int|
                        0 <= i < ts.len() implies spec_modifier_name(#[trigger] ts[i]) is Some by {
                        if i > 0 {
                            assert(ts.drop_first()[i - 1] == ts[i]);
                        }
                    }
                }
                if spec_mods_acc(ts, acc) is Ok {
                    assert(seq_set(acc2) =~= seq_set(acc).insert(m)) by {
                        if acc.contains(m) {
                        } else {
                            assert forall|x: Modifier| seq_set(acc2).contains(x) implies seq_set(
                                acc,
                            ).insert(m).contains(x) by {
                                let i = choose|i: int| 0 <= i < acc2.len() && acc2[i] == x;
                                if i < acc.len() {
                                    assert(acc.contains(x));
                                }
                            }
                            assert forall|x: Modifier|
                                seq_set(acc).insert(m).contains(x) implies seq_set(acc2).contains(
                                x,
                            ) by {
                                if x == m {
                                    assert(acc2[acc.len() as int] == m);
                                } else {
                                    let i = choose|i: int| 0 <= i < acc.len() && acc[i] == x;
                                    assert(acc2[i] == x);
                                }
                            }
                        }
                    }
                    assert(token_mod_set(ts) =~= token_mod_set(ts.drop_first()).insert(m)) by {
                        assert forall|x: Modifier|
                            token_mod_set(ts).contains(x) implies token_mod_set(
                            ts.drop_first(),
                        ).insert(m).contains(x) by {
                            let i = choose|i: int|
                                0 <= i < ts.len() && spec_modifier_name(#[trigger] ts[i]) == Some(
                                    x,
                                );
                            if i > 0 {
                                assert(ts.drop_first()[i - 1] == ts[i]);
                            }
                        }
                        assert forall|x: Modifier|
                            token_mod_set(ts.drop_first()).insert(m).contains(x) implies
                            token_mod_set(ts).contains(x) by {
                            if x == m {
                                assert(spec_modifier_name(ts[0]) == Some(x));
                            } else {
                                let i = choose|i: int|
                                    0 <= i < ts.drop_first().len() && spec_modifier_name(
                                        #[trigger] ts.drop_first()[i],
                                    ) == Some(x);
                                assert(ts.drop_first()[i] == ts[i + 1]);
                            }
                        }
                    }
                    assert(seq_set(acc).insert(m).union(token_mod_set(ts.drop_first())) =~= seq_set(
                        acc,
                    ).union(token_mod_set(ts.drop_first()).insert(m)));
                }
            },
        }
    }
}

/// Modifier-set equality is order-independent: two chord texts whose
/// canonical token lists end in the same keysym token and name the same
/// set of modifier tokens parse to the same chord, whatever the order
/// the modifiers were listed in.
pub proof fn lemma_modifier_order_irrelevant(c1: Seq<char>, c2: Seq<char>)
    requires
        spec_chord_tokens(c1).len() > 0,
        spec_chord_tokens(c2).len() > 0,
        spec_chord_tokens(c2).last() == spec_chord_tokens(c1).last(),
        seq_set(spec_chord_tokens(c2).drop_last()) == seq_set(spec_chord_tokens(c1).drop_last()),
        spec_parse_keybind(c1) is Ok,
    ensures
        spec_parse_keybind(c2) is Ok,
        bview_eq(spec_parse_keybind(c1)->Ok_0, spec_parse_keybind(c2)->Ok_0),
{
    let t1 = spec_chord_tokens(c1).drop_last();
    let t2 = spec_chord_tokens(c2).drop_last();
    lemma_mods_acc(t1, Seq::empty());
    lemma_mods_acc(t2, Seq::empty());
    assert(all_modifier_tokens(t1));
    assert forall|i: int|
        0 <= i < t2.len() implies spec_modifier_name(#[trigger] t2[i]) is Some by {
        assert(seq_set(t2).contains(t2[i]));
        assert(seq_set(t1).contains(t2[i]));
        let j = choose|j: int| 0 <= j < t1.len() && t1[j] == t2[i];
    }
    assert(token_mod_set(t1) =~= token_mod_set(t2)) by {
        assert forall|x: Modifier| token_mod_set(t1).contains(x) implies token_mod_set(
            t2,
        ).contains(x) by {
            let i = choose|i: int|
                0 <= i < t1.len() && spec_modifier_name(#[trigger] t1[i]) == Some(x);
            assert(seq_set(t2).contains(t1[i]));
            let j = choose|j: int| 0 <= j < t2.len() && t2[j] == t1[i];
        }
        assert forall|x: Modifier| token_mod_set(t2).contains(x) implies token_mod_set(
            t1,
        ).contains(x) by {
            let i = choose|i: int|
                0 <= i < t2.len() && spec_modifier_name(#[trigger] t2[i]) == Some(x);
            assert(seq_set(t1).contains(t2[i]));
            let j = choose|j: int| 0 <= j < t1.len() && t1[j] == t2[i];
        }
    }
    let ms1 = spec_mods_acc(t1, Seq::empty())->Ok_0;
    let ms2 = spec_mods_acc(t2, Seq::empty())->Ok_0;
    assert(seq_set(Seq::<Modifier>::empty()) =~= Set::<Modifier>::empty());
    assert(seq_set(ms1) =~= seq_set(ms2));
    let b1 = spec_parse_keybind(c1)->Ok_0;
    let b2 = spec_parse_keybind(c2)->Ok_0;
    assert(b1.mods.to_set() =~= seq_set(b1.mods));
    assert(b2.mods.to_set() =~= seq_set(b2.mods));
}

/// The canonical content of a binding: chord equality is equality of
/// these tuples.
pub open spec fn chord_of(b: BindingView) -> (Keycode, Set<Modifier>, bool, bool) {
    (b.keysym, b.mods.to_set(), b.send, b.on_release)
}

proof fn lemma_gstrip_same(s: Seq<HotkeyView>, kb1: BindingView, kb2: BindingView)
    requires
        bview_eq(kb1, kb2),
    ensures
        gstrip(s, kb1) == gstrip(s, kb2),
    decreases s.len(),
{
    if s.len() > 0 {
        lemma_gstrip_same(s.drop_first(), kb1, kb2);
    }
}

proof fn lemma_gstrip_clean(s: Seq<HotkeyView>, kb: BindingView)
    ensures
        forall|i: int|
            0 <= i < gstrip(s, kb).len() ==> !bview_eq(
                (#[trigger] gstrip(s, kb)[i]).keybind,
                kb,
            ),
    decreases s.len(),
{
    if s.len() > 0 {
        lemma_gstrip_clean(s.drop_first(), kb);
        let rest = gstrip(s.drop_first(), kb);
        assert forall|i: int|
            0 <= i < gstrip(s, kb).len() implies !bview_eq(
            (#[trigger] gstrip(s, kb)[i]).keybind,
            kb,
        ) by {
            if bview_eq(s[0].keybind, kb) {
                assert(gstrip(s, kb)[i] == rest[i]);
            } else {
                if i > 0 {
                    assert(gstrip(s, kb)[i] == rest[i - 1]);
                }
            }
        }
    }
}

proof fn lemma_gstrip_noop(s: Seq<HotkeyView>, kb: BindingView)
    requires
        forall|i: int| 0 <= i < s.len() ==> !bview_eq((#[trigger] s[i]).keybind, kb),
    ensures
        gstrip(s, kb) == s,
    decreases s.len(),
{
    if s.len() > 0 {
        assert forall|i: int|
            0 <= i < s.drop_first().len() implies !bview_eq(
            (#[trigger] s.drop_first()[i]).keybind,
            kb,
        ) by {
            assert(s.drop_first()[i] == s[i + 1]);
        }
        lemma_gstrip_noop(s.drop_first(), kb);
        assert(gstrip(s, kb) =~= s);
    }
}

proof fn lemma_gstrip_concat(a: Seq<HotkeyView>, b: Seq<HotkeyView>, kb: BindingView)
    ensures
        gstrip(a + b, kb) == gstrip(a, kb) + gstrip(b, kb),
    decreases a.len(),
{
    if a.len() == 0 {
        assert(a + b =~= b);
        assert(gstrip(a, kb) + gstrip(b, kb) =~= gstrip(b, kb));
    } else {
        assert((a + b).drop_first() =~= a.drop_first() + b);
        assert((a + b)[0] == a[0]);
        lemma_gstrip_concat(a.drop_first(), b, kb);
        if bview_eq(a[0].keybind, kb) {
        } else {
            assert(seq![a[0]] + (gstrip(a.drop_first(), kb) + gstrip(b, kb)) =~= (seq![a[0]]
                + gstrip(a.drop_first(), kb)) + gstrip(b, kb));
        }
    }
}

/// Last-write-wins: inserting a hotkey and then another hotkey of the
/// same chord leaves exactly what inserting the later one alone leaves;
/// only the later command survives.
pub proof fn lemma_last_write_wins(hs: Seq<HotkeyView>, h1: HotkeyView, h2: HotkeyView)
    requires
        bview_eq(h1.keybind, h2.keybind),
    ensures
        gstrip(gstrip(hs, h1.keybind) + seq![h1], h2.keybind) + seq![h2] == gstrip(
            hs,
            h2.keybind,
        ) + seq![h2],
{
    let a = gstrip(hs, h1.keybind);
    lemma_gstrip_concat(a, seq![h1], h2.keybind);
    assert(gstrip(seq![h1], h2.keybind) =~= Seq::<HotkeyView>::empty()) by {
        assert(seq![h1].len() == 1);
        assert(seq![h1][0] == h1);
        assert(bview_eq(h1.keybind, h2.keybind));
        assert(seq![h1].drop_first() =~= Seq::<HotkeyView>::empty());
        assert(gstrip(seq![h1].drop_first(), h2.keybind) =~= Seq::<HotkeyView>::empty());
    }
    lemma_gstrip_same(a, h2.keybind, h1.keybind);
    lemma_gstrip_clean(hs, h1.keybind);
    lemma_gstrip_noop(a, h1.keybind);
    lemma_gstrip_same(hs, h1.keybind, h2.keybind);
    assert(gstrip(a + seq![h1], h2.keybind) =~= gstrip(hs, h2.keybind));
}

proof fn lemma_gstrip_elements(s: Seq<HotkeyView>, kb: BindingView)
    ensures
        forall|x: HotkeyView| gstrip(s, kb).contains(x) ==> s.contains(x),
    decreases s.len(),
{
    if s.len() > 0 {
        lemma_gstrip_elements(s.drop_first(), kb);
        assert forall|x: HotkeyView| gstrip(s, kb).contains(x) implies s.contains(x) by {
            let rest = gstrip(s.drop_first(), kb);
            if bview_eq(s[0].keybind, kb) {
                assert(rest.contains(x));
            } else {
                let i = choose|i: int|
                    0 <= i < gstrip(s, kb).len() && gstrip(s, kb)[i] == x;
                if i == 0 {
                    assert(s[0] == x);
                } else {
                    assert(rest[i - 1] == x);
                    assert(rest.contains(x));
                }
            }
            if s.drop_first().contains(x) {
                let j = choose|j: int|
                    0 <= j < s.drop_first().len() && s.drop_first()[j] == x;
                assert(s[j + 1] == x);
            }
        }
    }
}

proof fn lemma_gunbind_keeps_absence(s: Seq<HotkeyView>, us: Seq<BindingView>, u: BindingView)
    requires
        forall|i: int| 0 <= i < s.len() ==> !bview_eq((#[trigger] s[i]).keybind, u),
    ensures
        forall|i: int|
            0 <= i < gunbind(s, us).len() ==> !bview_eq(
                (#[trigger] gunbind(s, us)[i]).keybind,
                u,
            ),
    decreases us.len(),
{
    if us.len() == 0 {
        assert(gunbind(s, us) == s);
    } else {
        let s2 = gstrip(s, us[0]);
        lemma_gstrip_elements(s, us[0]);
        assert forall|i: int|
            0 <= i < s2.len() implies !bview_eq((#[trigger] s2[i]).keybind, u) by {
            assert(s2.contains(s2[i]));
            assert(s.contains(s2[i]));
            let j = choose|j: int| 0 <= j < s.len() && s[j] == s2[i];
        }
        lemma_gunbind_keeps_absence(s2, us.drop_first(), u);
        assert(gunbind(s, us) == gunbind(s2, us.drop_first()));
    }
}

/// Unbind precision: after a mode's unbind directives are applied, no
/// hotkey bound to an unbound chord remains.
pub proof fn lemma_unbind_precision(hs: Seq<HotkeyView>, us: Seq<BindingView>, u: BindingView)
    requires
        us.contains(u),
    ensures
        forall|i: int|
            0 <= i < gunbind(hs, us).len() ==> !bview_eq(
                (#[trigger] gunbind(hs, us)[i]).keybind,
                u,
            ),
    decreases us.len(),
{
    let k = choose|k: int| 0 <= k < us.len() && us[k] == u;
    if k == 0 {
        lemma_gstrip_same(hs, us[0], u);
        lemma_gstrip_clean(hs, u);
        lemma_gunbind_keeps_absence(gstrip(hs, u), us.drop_first(), u);
        assert(gunbind(hs, us) == gunbind(gstrip(hs, u), us.drop_first()));
    } else {
        assert(us.drop_first()[k - 1] == us[k]);
        assert(us.drop_first().contains(u));
        lemma_unbind_precision(gstrip(hs, us[0]), us.drop_first(), u);
        assert(gunbind(hs, us) == gunbind(gstrip(hs, us[0]), us.drop_first()));
    }
}

proof fn lemma_fold_stack(
    modes: Seq<ModeView>,
    cls: Seq<Seq<char>>,
    stack: Seq<usize>,
    out: Seq<char>,
)
    requires
        stack.len() >= 1,
    ensures
        spec_clause_fold(modes, cls, stack, out).stack.len() >= 1,
        spec_clause_fold(modes, cls, stack, out).stack[0] == stack[0],
    decreases cls.len(),
{
    if cls.len() > 0 {
        let ws = crate::parser::spec_words(cls[0]);
        if ws.len() > 0 && ws[0] == "@enter"@ {
            if ws.len() >= 2 && 0 <= crate::parser::g_find_mode(modes, ws[1]) < modes.len() {
                lemma_fold_stack(
                    modes,
                    cls.drop_first(),
                    stack.push(crate::parser::g_find_mode(modes, ws[1]) as usize),
                    out,
                );
            } else {
                lemma_fold_stack(modes, cls.drop_first(), stack, out);
            }
        } else if ws.len() > 0 && ws[0] == "@escape"@ {
            if stack.len() > 1 {
                lemma_fold_stack(modes, cls.drop_first(), stack.drop_last(), out);
            } else {
                lemma_fold_stack(modes, cls.drop_first(), stack, out);
            }
        } else {
            lemma_fold_stack(modes, cls.drop_first(), stack, out + cls[0] + " &&"@);
        }
    }
}

/// Stack underflow safety: however many `@escape` tokens a fired
/// command carries, the resolved stack still holds the root, unmoved.
pub proof fn lemma_stack_underflow_safe(modes: Seq<ModeView>, stack: Seq<usize>, cmd: Seq<char>)
    requires
        stack.len() >= 1,
    ensures
        spec_resolve(modes, stack, cmd).stack.len() >= 1,
        spec_resolve(modes, stack, cmd).stack[0] == stack[0],
{
    let seed = spec_resolve_seed(modes, stack);
    assert(seed.len() >= 1);
    assert(seed[0] == stack[0]);
    if cmd.contains('@') {
        lemma_fold_stack(modes, trimmed_all(split_amp(cmd)), seed, Seq::empty());
    }
}

/// Oneoff auto-pop: a oneoff mode is consumed by any single trigger;
/// with no control tokens in the command, the stack after the trigger
/// is exactly the pre-entry stack.
pub proof fn lemma_oneoff_auto_pop(modes: Seq<ModeView>, stack: Seq<usize>, cmd: Seq<char>)
    requires
        stack.len() > 1,
        stack.last() < modes.len(),
        modes[stack.last() as int].options.oneoff,
        !cmd.contains('@'),
    ensures
        spec_resolve(modes, stack, cmd).stack == stack.drop_last(),
{
}

/// Exact-set matching: a hotkey matches only a device whose modifier
/// set equals the hotkey's own, member for member; a proper subset or
/// superset never matches.
pub proof fn lemma_exact_set_matching(h: HotkeyView, dv: DeviceView)
    ensures
        spec_hotkey_match(h, dv) ==> seq_set(h.keybind.mods) == dv.mods,
        seq_set(h.keybind.mods) != dv.mods ==> !spec_hotkey_match(h, dv),
{
}

/// Send pass-through: when the active mode does not swallow and every
/// hotkey matching the event has send on, the event is forwarded; a
/// matching hotkey with send off always suppresses it.
pub proof fn lemma_send_pass_through(m: ModeView, dv: DeviceView, key: Keycode)
    ensures
        (!m.options.swallow && (forall|i: int|
            0 <= i < m.hotkeys.len() && (#[trigger] m.hotkeys[i]).keybind.keysym == key && seq_set(
                m.hotkeys[i].keybind.mods,
            ) == dv.mods ==> m.hotkeys[i].keybind.send)) ==> !spec_suppressed(m, dv, key),
        (exists|i: int|
            0 <= i < m.hotkeys.len() && (#[trigger] m.hotkeys[i]).keybind.keysym == key && seq_set(
                m.hotkeys[i].keybind.mods,
            ) == dv.mods && !m.hotkeys[i].keybind.send) ==> spec_suppressed(m, dv, key),
{
}

/// Held-key auto-repeat stops on release: releasing the armed hotkey's
/// own keysym, while it is down, always disarms it, so the repeat timer
/// finds nothing to refire.
pub proof fn lemma_release_stops_repeat(
    modes: Seq<ModeView>,
    stack: Seq<usize>,
    a: (usize, usize),
    pending: bool,
    k: Keycode,
    dv: DeviceView,
)
    requires
        a.0 < modes.len(),
        a.1 < modes[a.0 as int].hotkeys.len(),
        k == modes[a.0 as int].hotkeys[a.1 as int].keybind.keysym,
        dv.keys.contains(k),
    ensures
        spec_release_armed(modes, stack, Some(a), pending, k, dv).armed is None,
{
}

} // verus!
