//! The runtime matching engine.
//!
//! The engine consumes per-device key transitions (already decoded to a
//! key code and a press/release value), tracks each device's modifier
//! and keysym sets, matches the active mode's hotkeys by exact modifier
//! set equality, arms the matched hotkey for repeat or deferred firing,
//! decides whether the physical event is forwarded, and interprets the
//! `@enter` / `@escape` control tokens of fired commands against the
//! mode stack, whose root entry is permanent.

use vstd::prelude::*;
use crate::config::{HotkeyView, Mode, ModeView, mode_views};
use crate::keys::{Keycode, Modifier, spec_modifier_of, modifier_of};
use crate::parser::{spec_words, words, g_find_mode, find_mode};
use crate::text::{
    spec_trim, trim, chars_string, str_chars, seq_views, eq_lit, subvec,
};

verus! {

/// Index of the first `&&` joiner in `s`, or -1.
pub open spec fn find_amp(s: Seq<char>) -> int
    decreases s.len(),
{
    if s.len() < 2 {
        -1
    } else if s[0] == '&' && s[1] == '&' {
        0
    } else {
        let r = find_amp(s.drop_first());
        if r < 0 {
            -1
        } else {
            r + 1
        }
    }
}

/// `s` split at every `&&` joiner.
pub open spec fn split_amp(s: Seq<char>) -> Seq<Seq<char>>
    decreases s.len(),
{
    let i = find_amp(s);
    if 0 <= i && i + 2 <= s.len() {
        seq![s.take(i)] + split_amp(s.skip(i + 2))
    } else {
        seq![s]
    }
}

proof fn lemma_find_amp_at(s: Seq<char>, i: int)
    requires
        0 <= i,
        i + 2 <= s.len(),
        s[i] == '&' && s[i + 1] == '&',
        forall|j: int| 0 <= j < i ==> !(#[trigger] s[j] == '&' && s[j + 1] == '&'),
    ensures
        find_amp(s) == i,
    decreases i,
{
    if i > 0 {
        assert forall|j: int|
            0 <= j < i - 1 implies !(#[trigger] s.drop_first()[j] == '&' && s.drop_first()[j + 1]
            == '&') by {
            assert(s.drop_first()[j] == s[j + 1]);
            assert(s.drop_first()[j + 1] == s[j + 2]);
        }
        assert(s.drop_first()[i - 1] == s[i]);
        assert(s.drop_first()[i] == s[i + 1]);
        lemma_find_amp_at(s.drop_first(), i - 1);
    }
}

proof fn lemma_find_amp_none(s: Seq<char>)
    requires
        forall|j: int| 0 <= j && j + 2 <= s.len() ==> !(#[trigger] s[j] == '&' && s[j + 1] == '&'),
    ensures
        find_amp(s) < 0,
    decreases s.len(),
{
    if s.len() >= 2 {
        assert forall|j: int|
            0 <= j && j + 2 <= s.drop_first().len() implies !(#[trigger] s.drop_first()[j] == '&'
            && s.drop_first()[j + 1] == '&') by {
            assert(s.drop_first()[j] == s[j + 1]);
            assert(s.drop_first()[j + 1] == s[j + 2]);
        }
        lemma_find_amp_none(s.drop_first());
    }
}

/// Finds the first `&&` joiner.
fn find_amp_in(s: &Vec<char>) -> (r: Option<usize>)
    ensures
        match r {
            Some(i) => find_amp(s@) == i && i + 2 <= s@.len(),
            None => find_amp(s@) < 0,
        },
{
    if s.len() < 2 {
        proof {
            lemma_find_amp_none(s@);
        }
        return None;
    }
    let mut i: usize = 0;
    let n = s.len();
    while i <= n - 2
        invariant
            n == s@.len(),
            n >= 2,
            i + 2 <= s@.len() + 1,
            forall|j: int| 0 <= j < i ==> !(#[trigger] s@[j] == '&' && s@[j + 1] == '&'),
        decreases s@.len() - i,
    {
        if s[i] == '&' && s[i + 1] == '&' {
            proof {
                lemma_find_amp_at(s@, i as int);
            }
            return Some(i);
        }
        i += 1;
    }
    proof {
        lemma_find_amp_none(s@);
    }
    None
}

/// Splits a command on its `&&` joiners.
pub fn split_amp_in(s: &Vec<char>) -> (r: Vec<Vec<char>>)
    ensures
        seq_views(r@) == split_amp(s@),
        r@.len() >= 1,
    decreases s@.len(),
{
    match find_amp_in(s) {
        None => {
            let whole = subvec(s, 0, s.len());
            assert(whole@ =~= s@);
            let mut r: Vec<Vec<char>> = Vec::new();
            r.push(whole);
            assert(seq_views(r@) =~= seq![s@]);
            r
        },
        Some(i) => {
            let n = s.len();
            let piece = subvec(s, 0, i);
            let rest = subvec(s, i + 2, n);
            assert(rest@ == s@.skip(i + 2));
            let mut r = split_amp_in(&rest);
            r.insert(0, piece);
            assert(seq_views(r@) =~= seq![s@.take(i as int)] + split_amp(s@.skip(i + 2)));
            r
        },
    }
}

/// Every clause trimmed.
pub open spec fn trimmed_all(cs: Seq<Seq<char>>) -> Seq<Seq<char>> {
    cs.map_values(|c: Seq<char>| spec_trim(c))
}

/// The result of interpreting a fired command: the mode stack after its
/// control tokens, and the text handed to the dispatcher.
pub struct ResolveView {
    pub stack: Seq<usize>,
    pub out: Seq<char>,
}

/// Interprets the clauses of a fired command in order: a clause whose
/// first word is `@enter` pushes the index of the named mode (an
/// unknown or missing name is a no-op); `@escape` pops the stack but
/// never removes the root; any other clause is appended to the
/// dispatched text followed by the joiner.
pub open spec fn spec_clause_fold(
    modes: Seq<ModeView>,
    cls: Seq<Seq<char>>,
    stack: Seq<usize>,
    out: Seq<char>,
) -> ResolveView
    decreases cls.len(),
{
    if cls.len() == 0 {
        ResolveView { stack, out }
    } else {
        let ws = spec_words(cls[0]);
        if ws.len() > 0 && ws[0] == "@enter"@ {
            if ws.len() >= 2 && 0 <= g_find_mode(modes, ws[1]) < modes.len() {
                spec_clause_fold(
                    modes,
                    cls.drop_first(),
                    stack.push(g_find_mode(modes, ws[1]) as usize),
                    out,
                )
            } else {
                spec_clause_fold(modes, cls.drop_first(), stack, out)
            }
        } else if ws.len() > 0 && ws[0] == "@escape"@ {
            spec_clause_fold(
                modes,
                cls.drop_first(),
                if stack.len() > 1 {
                    stack.drop_last()
                } else {
                    stack
                },
                out,
            )
        } else {
            spec_clause_fold(modes, cls.drop_first(), stack, out + cls[0] + " &&"@)
        }
    }
}

/// Removes one trailing ` &&` joiner, if present.
pub open spec fn strip_amp_suffix(s: Seq<char>) -> Seq<char> {
    if s.len() >= 3 && s.skip(s.len() - 3) == " &&"@ {
        s.take(s.len() - 3)
    } else {
        s
    }
}

/// The stack a fired command starts from: if the active mode (the
/// stack top) is a oneoff, it is popped exactly once, unconditionally —
/// though never below the root.
pub open spec fn spec_resolve_seed(modes: Seq<ModeView>, stack: Seq<usize>) -> Seq<usize> {
    if stack.len() > 1 && stack.last() < modes.len() && modes[stack.last() as int].options.oneoff {
        stack.drop_last()
    } else {
        stack
    }
}

/// The whole interpretation of one fired command: the oneoff pop
/// first, then — only when the command text holds an `@` — its control
/// tokens; the remaining clauses are rejoined for the dispatcher.
pub open spec fn spec_resolve(modes: Seq<ModeView>, stack: Seq<usize>, cmd: Seq<char>) -> ResolveView {
    let stack1 = spec_resolve_seed(modes, stack);
    if cmd.contains('@') {
        let f = spec_clause_fold(modes, trimmed_all(split_amp(cmd)), stack1, Seq::empty());
        ResolveView { stack: f.stack, out: strip_amp_suffix(f.out) }
    } else {
        ResolveView { stack: stack1, out: strip_amp_suffix(cmd) }
    }
}

/// Interprets one fired command against the mode stack; the mode list
/// itself never changes.  Returns the text to dispatch.
pub fn resolve_core(modes: &Vec<Mode>, mode_stack: &mut Vec<usize>, cmd: &Vec<char>) -> (r: String)
    requires
        old(mode_stack)@.len() >= 1,
        forall|i: int| 0 <= i < old(mode_stack)@.len() ==> old(mode_stack)@[i] < modes@.len(),
    ensures
        final(mode_stack)@ == spec_resolve(mode_views(modes@), old(mode_stack)@, cmd@).stack,
        r@ == spec_resolve(mode_views(modes@), old(mode_stack)@, cmd@).out,
        final(mode_stack)@.len() >= 1,
        final(mode_stack)@[0] == old(mode_stack)@[0],
        forall|i: int| 0 <= i < final(mode_stack)@.len() ==> final(mode_stack)@[i] < modes@.len(),
{
    let ghost mv: Seq<ModeView> = mode_views(modes@);
    let ghost st0: Seq<usize> = mode_stack@;
    let ghost stack1: Seq<usize> = spec_resolve_seed(mv, st0);
    let top = mode_stack[mode_stack.len() - 1];
    proof {
        assert(mv[st0.last() as int].options == modes@[st0.last() as int].options);
    }
    if mode_stack.len() > 1 && modes[top].options.oneoff {
        let _ = mode_stack.pop();
    }
    proof {
        assert(mode_stack@ == stack1);
    }
    let has_at = contains_at(cmd);
    if !has_at {
        let out = trim_amp(cmd);
        return out;
    }
    let clauses = split_amp_in(cmd);
    let mut cls: Vec<Vec<char>> = Vec::new();
    let mut rest = clauses;
    while rest.len() > 0
        invariant
            trimmed_all(split_amp(cmd@)) == seq_views(cls@) + trimmed_all(seq_views(rest@)),
        decreases rest@.len(),
    {
        let ghost pre: Seq<Seq<char>> = seq_views(rest@);
        let c = rest.remove(0);
        let t = trim(&c);
        cls.push(t);
        proof {
            assert(seq_views(rest@) =~= pre.drop_first());
            assert(trimmed_all(pre)[0] == spec_trim(pre[0]));
            assert(trimmed_all(pre.drop_first()) =~= trimmed_all(pre).drop_first());
            assert(seq_views(cls@) =~= seq_views(cls@.drop_last()) + seq![spec_trim(pre[0])]);
        }
    }
    proof {
        assert(trimmed_all(seq_views(rest@)) =~= Seq::<Seq<char>>::empty());
        assert(seq_views(cls@) =~= seq_views(cls@) + trimmed_all(seq_views(rest@)));
    }
    let ghost cls0: Seq<Seq<char>> = seq_views(cls@);
    let mut out: Vec<char> = Vec::new();
    let mut rest = cls;
    while rest.len() > 0
        invariant
            mode_stack@.len() >= 1,
            mode_stack@[0] == st0[0],
            forall|i: int| 0 <= i < mode_stack@.len() ==> mode_stack@[i] < modes@.len(),
            mv == mode_views(modes@),
            spec_clause_fold(mv, cls0, stack1, Seq::empty()) == spec_clause_fold(
                mv,
                seq_views(rest@),
                mode_stack@,
                out@,
            ),
        decreases rest@.len(),
    {
        let ghost pre: Seq<Seq<char>> = seq_views(rest@);
        let cl = rest.remove(0);
        proof {
            assert(seq_views(rest@) =~= pre.drop_first());
            assert(pre[0] == cl@);
        }
        let ws = words(&cl);
        if ws.len() > 0 && eq_lit(&ws[0], "@enter") {
            proof {
                assert(seq_views(ws@)[0] == ws@[0]@);
            }
            if ws.len() >= 2 {
                match find_mode(modes, &ws[1]) {
                    Some(idx) => {
                        mode_stack.push(idx);
                    },
                    None => {},
                }
                proof {
                    assert(seq_views(ws@)[1] == ws@[1]@);
                }
            }
        } else if ws.len() > 0 && eq_lit(&ws[0], "@escape") {
            proof {
                assert(seq_views(ws@)[0] == ws@[0]@);
            }
            if mode_stack.len() > 1 {
                let _ = mode_stack.pop();
            }
        } else {
            let ghost outpre: Seq<char> = out@;
            let mut k: usize = 0;
            while k < cl.len()
                invariant
                    k <= cl@.len(),
                    out@ == outpre + cl@.take(k as int),
                decreases cl@.len() - k,
            {
                out.push(cl[k]);
                proof {
                    assert(outpre + cl@.take((k + 1) as int) =~= (outpre + cl@.take(
                        k as int,
                    )).push(cl@[k as int]));
                }
                k += 1;
            }
            proof {
                assert(cl@.take(cl@.len() as int) =~= cl@);
            }
            out.push(' ');
            out.push('&');
            out.push('&');
            proof {
                assert(out@ =~= outpre + cl@ + " &&"@) by {
                    reveal_strlit(" &&");
                }
            }
        }
    }
    proof {
        assert(seq_views(rest@) =~= Seq::<Seq<char>>::empty());
    }
    trim_amp(&out)
}

/// True when the command text holds an `@`.
fn contains_at(s: &Vec<char>) -> (r: bool)
    ensures
        r == s@.contains('@'),
{
    crate::text::contains_char(s, '@')
}

/// Builds the dispatched string, with one trailing joiner removed.
fn trim_amp(s: &Vec<char>) -> (r: String)
    ensures
        r@ == strip_amp_suffix(s@),
{
    let n = s.len();
    if n >= 3 && s[n - 3] == ' ' && s[n - 2] == '&' && s[n - 1] == '&' {
        proof {
            reveal_strlit(" &&");
            assert(s@.skip(n - 3) =~= " &&"@);
        }
        let t = subvec(s, 0, n - 3);
        chars_string(&t)
    } else {
        proof {
            reveal_strlit(" &&");
            if s@.len() >= 3 && s@.skip(s@.len() - 3) == " &&"@ {
                assert(s@[s@.len() - 3] == s@.skip(s@.len() - 3)[0]);
                assert(s@[s@.len() - 2] == s@.skip(s@.len() - 3)[1]);
                assert(s@[s@.len() - 1] == s@.skip(s@.len() - 3)[2]);
            }
        }
        chars_string(s)
    }
}


/// The set of elements of a sequence.
pub open spec fn seq_set<T>(s: Seq<T>) -> Set<T> {
    Set::new(|x: T| s.contains(x))
}

/// The values of a list of dispatched strings.
pub open spec fn string_views(s: Seq<String>) -> Seq<Seq<char>> {
    s.map_values(|x: String| x@)
}

/// The keys a device currently holds down, split into the modifier
/// roles of its held modifier keys and the plain keysyms.
pub struct DeviceState {
    pub modifiers: Vec<Modifier>,
    pub keysyms: Vec<Keycode>,
}

/// The mathematical value of a device's state: two sets.
#[verifier::ext_equal]
pub struct DeviceView {
    pub mods: Set<Modifier>,
    pub keys: Set<Keycode>,
}

impl View for DeviceState {
    type V = DeviceView;

    open spec fn view(&self) -> DeviceView {
        DeviceView { mods: seq_set(self.modifiers@), keys: seq_set(self.keysyms@) }
    }
}

impl DeviceState {
    /// The vectors act as sets: no element occurs twice.
    pub open spec fn wf(&self) -> bool {
        self.modifiers@.no_duplicates() && self.keysyms@.no_duplicates()
    }

    /// A fresh device with nothing held down.
    pub fn new() -> (r: DeviceState)
        ensures
            r.wf(),
            r@.mods == Set::<Modifier>::empty(),
            r@.keys == Set::<Keycode>::empty(),
    {
        let r = DeviceState { modifiers: Vec::new(), keysyms: Vec::new() };
        proof {
            assert(r@.mods =~= Set::<Modifier>::empty());
            assert(r@.keys =~= Set::<Keycode>::empty());
        }
        r
    }
}

/// Adds `m` to the modifier set.
fn insert_mod(v: &mut Vec<Modifier>, m: Modifier)
    requires
        old(v)@.no_duplicates(),
    ensures
        final(v)@.no_duplicates(),
        seq_set(final(v)@) == seq_set(old(v)@).insert(m),
{
    let ghost v0: Seq<Modifier> = v@;
    if !crate::config::contains_modifier(v, m) {
        v.push(m);
        proof {
            assert forall|i: int, j: int|
                0 <= i < v@.len() && 0 <= j < v@.len() && i != j implies v@[i] != v@[j] by {
                if i < v0.len() && j < v0.len() {
                } else if i == v0.len() {
                    assert(v0.contains(v@[j]) || true);
                    if v@[i] == v@[j] {
                        assert(v0[j] == m);
                        assert(v0.contains(m));
                    }
                } else {
                    if v@[i] == v@[j] {
                        assert(v0[i] == m);
                        assert(v0.contains(m));
                    }
                }
            }
            assert forall|x: Modifier| seq_set(v@).contains(x) implies seq_set(v0).insert(
                m,
            ).contains(x) by {
                let i = choose|i: int| 0 <= i < v@.len() && v@[i] == x;
                if i < v0.len() {
                    assert(v0.contains(x));
                }
            }
            assert forall|x: Modifier| seq_set(v0).insert(m).contains(x) implies seq_set(
                v@,
            ).contains(x) by {
                if x == m {
                    assert(v@[v0.len() as int] == m);
                } else {
                    let i = choose|i: int| 0 <= i < v0.len() && v0[i] == x;
                    assert(v@[i] == x);
                }
            }
            assert(seq_set(v@) =~= seq_set(v0).insert(m));
        }
    } else {
        proof {
            assert(seq_set(v@) =~= seq_set(v0).insert(m));
        }
    }
}

/// Removes `m` from the modifier set.
fn remove_mod(v: &mut Vec<Modifier>, m: Modifier)
    requires
        old(v)@.no_duplicates(),
    ensures
        final(v)@.no_duplicates(),
        seq_set(final(v)@) == seq_set(old(v)@).remove(m),
{
    let ghost v0: Seq<Modifier> = v@;
    let mut i: usize = 0;
    while i < v.len()
        invariant
            i <= v@.len(),
            v@ == v0,
            v0 == old(v)@,
            v0.no_duplicates(),
            forall|j: int| 0 <= j < i ==> v0[j] != m,
        decreases v@.len() - i,
    {
        if v[i] == m {
            let _ = v.remove(i);
            proof {
                v0.remove_ensures(i as int);
                assert(v0[i as int] == m);
                assert forall|a: int, b: int|
                    0 <= a < v@.len() && 0 <= b < v@.len() && a != b implies v@[a] != v@[b] by {
                    let a0: int = if a < i { a } else { a + 1 };
                    let b0: int = if b < i { b } else { b + 1 };
                    assert(v@[a] == v0[a0]);
                    assert(v@[b] == v0[b0]);
                }
                assert forall|x: Modifier| seq_set(v@).contains(x) implies seq_set(v0).remove(
                    m,
                ).contains(x) by {
                    let a = choose|a: int| 0 <= a < v@.len() && v@[a] == x;
                    let a0: int = if a < i { a } else { a + 1 };
                    assert(v0[a0] == x);
                    if x == m {
                        assert(v0[a0] == v0[i as int]);
                    }
                }
                assert forall|x: Modifier| seq_set(v0).remove(m).contains(x) implies seq_set(
                    v@,
                ).contains(x) by {
                    let a0 = choose|a0: int| 0 <= a0 < v0.len() && v0[a0] == x;
                    if a0 < i {
                        assert(v@[a0] == x);
                    } else if a0 > i {
                        assert(v@[a0 - 1] == x);
                    }
                }
                assert(seq_set(v@) =~= seq_set(v0).remove(m));
            }
            return;
        }
        i += 1;
    }
    proof {
        assert forall|x: Modifier| seq_set(v0).contains(x) implies x != m by {
            let a = choose|a: int| 0 <= a < v0.len() && v0[a] == x;
        }
        assert(seq_set(v@) =~= seq_set(v0).remove(m));
    }
}

/// Adds `k` to the keysym set.
fn insert_key(v: &mut Vec<Keycode>, k: Keycode)
    requires
        old(v)@.no_duplicates(),
    ensures
        final(v)@.no_duplicates(),
        seq_set(final(v)@) == seq_set(old(v)@).insert(k),
{
    let ghost v0: Seq<Keycode> = v@;
    if !contains_key(v, k) {
        v.push(k);
        proof {
            assert forall|i: int, j: int|
                0 <= i < v@.len() && 0 <= j < v@.len() && i != j implies v@[i] != v@[j] by {
                if i < v0.len() && j < v0.len() {
                } else if i == v0.len() {
                    if v@[i] == v@[j] {
                        assert(v0[j] == k);
                        assert(v0.contains(k));
                    }
                } else {
                    if v@[i] == v@[j] {
                        assert(v0[i] == k);
                        assert(v0.contains(k));
                    }
                }
            }
            assert forall|x: Keycode| seq_set(v@).contains(x) implies seq_set(v0).insert(
                k,
            ).contains(x) by {
                let i = choose|i: int| 0 <= i < v@.len() && v@[i] == x;
                if i < v0.len() {
                    assert(v0.contains(x));
                }
            }
            assert forall|x: Keycode| seq_set(v0).insert(k).contains(x) implies seq_set(
                v@,
            ).contains(x) by {
                if x == k {
                    assert(v@[v0.len() as int] == k);
                } else {
                    let i = choose|i: int| 0 <= i < v0.len() && v0[i] == x;
                    assert(v@[i] == x);
                }
            }
            assert(seq_set(v@) =~= seq_set(v0).insert(k));
        }
    } else {
        proof {
            assert(seq_set(v@) =~= seq_set(v0).insert(k));
        }
    }
}

/// Removes `k` from the keysym set.
fn remove_key(v: &mut Vec<Keycode>, k: Keycode)
    requires
        old(v)@.no_duplicates(),
    ensures
        final(v)@.no_duplicates(),
        seq_set(final(v)@) == seq_set(old(v)@).remove(k),
{
    let ghost v0: Seq<Keycode> = v@;
    let mut i: usize = 0;
    while i < v.len()
        invariant
            i <= v@.len(),
            v@ == v0,
            v0 == old(v)@,
            v0.no_duplicates(),
            forall|j: int| 0 <= j < i ==> v0[j] != k,
        decreases v@.len() - i,
    {
        if v[i] == k {
            let _ = v.remove(i);
            proof {
                v0.remove_ensures(i as int);
                assert(v0[i as int] == k);
                assert forall|a: int, b: int|
                    0 <= a < v@.len() && 0 <= b < v@.len() && a != b implies v@[a] != v@[b] by {
                    let a0: int = if a < i { a } else { a + 1 };
                    let b0: int = if b < i { b } else { b + 1 };
                    assert(v@[a] == v0[a0]);
                    assert(v@[b] == v0[b0]);
                }
                assert forall|x: Keycode| seq_set(v@).contains(x) implies seq_set(v0).remove(
                    k,
                ).contains(x) by {
                    let a = choose|a: int| 0 <= a < v@.len() && v@[a] == x;
                    let a0: int = if a < i { a } else { a + 1 };
                    assert(v0[a0] == x);
                    if x == k {
                        assert(v0[a0] == v0[i as int]);
                    }
                }
                assert forall|x: Keycode| seq_set(v0).remove(k).contains(x) implies seq_set(
                    v@,
                ).contains(x) by {
                    let a0 = choose|a0: int| 0 <= a0 < v0.len() && v0[a0] == x;
                    if a0 < i {
                        assert(v@[a0] == x);
                    } else if a0 > i {
                        assert(v@[a0 - 1] == x);
                    }
                }
                assert(seq_set(v@) =~= seq_set(v0).remove(k));
            }
            return;
        }
        i += 1;
    }
    proof {
        assert forall|x: Keycode| seq_set(v0).contains(x) implies x != k by {
            let a = choose|a: int| 0 <= a < v0.len() && v0[a] == x;
        }
        assert(seq_set(v@) =~= seq_set(v0).remove(k));
    }
}

/// True when `v` holds `k`.
pub fn contains_key(v: &Vec<Keycode>, k: Keycode) -> (r: bool)
    ensures
        r == seq_set(v@).contains(k),
{
    let mut i: usize = 0;
    while i < v.len()
        invariant
            i <= v@.len(),
            forall|j: int| 0 <= j < i ==> v@[j] != k,
        decreases v@.len() - i,
    {
        if v[i] == k {
            assert(v@.contains(k));
            return true;
        }
        i += 1;
    }
    proof {
        if v@.contains(k) {
            let j = choose|j: int| 0 <= j < v@.len() && v@[j] == k;
        }
    }
    false
}

/// The remapped code of an incoming key: the target of the first
/// matching remap pair, or the key itself.
pub open spec fn spec_remap(remaps: Seq<(Keycode, Keycode)>, k: Keycode) -> Keycode
    decreases remaps.len(),
{
    if remaps.len() == 0 {
        k
    } else if remaps[0].0 == k {
        remaps[0].1
    } else {
        spec_remap(remaps.drop_first(), k)
    }
}

/// Applies the remap table to an incoming key code.
pub fn remap_key(remaps: &Vec<(Keycode, Keycode)>, k: Keycode) -> (r: Keycode)
    ensures
        r == spec_remap(remaps@, k),
{
    proof {
        assert(remaps@.skip(0) =~= remaps@);
    }
    let mut i: usize = 0;
    while i < remaps.len()
        invariant
            i <= remaps@.len(),
            spec_remap(remaps@, k) == spec_remap(remaps@.skip(i as int), k),
        decreases remaps@.len() - i,
    {
        proof {
            assert(remaps@.skip(i as int)[0] == remaps@[i as int]);
            assert(remaps@.skip(i as int).drop_first() =~= remaps@.skip(i + 1));
        }
        if remaps[i].0 == k {
            return remaps[i].1;
        }
        i += 1;
    }
    proof {
        assert(remaps@.skip(i as int) =~= Seq::<(Keycode, Keycode)>::empty());
    }
    k
}

/// A hotkey matches a device exactly when its keysym is down on the
/// device and its modifier set equals the device's modifier set.
pub open spec fn spec_hotkey_match(h: HotkeyView, dv: DeviceView) -> bool {
    dv.keys.contains(h.keybind.keysym) && seq_set(h.keybind.mods) == dv.mods
}

/// An event is suppressed (not forwarded) exactly when the active mode
/// swallows everything, or some hotkey of the active mode has the
/// event's keysym, exactly the device's modifier set, and send off.
pub open spec fn spec_suppressed(m: ModeView, dv: DeviceView, key: Keycode) -> bool {
    m.options.swallow || exists|i: int|
        0 <= i < m.hotkeys.len() && (#[trigger] m.hotkeys[i]).keybind.keysym == key && seq_set(
            m.hotkeys[i].keybind.mods,
        ) == dv.mods && !m.hotkeys[i].keybind.send
}

/// True when the two modifier lists hold the same set.
fn mod_sets_equal(a: &Vec<Modifier>, b: &Vec<Modifier>) -> (r: bool)
    ensures
        r == (seq_set(a@) == seq_set(b@)),
{
    let mut i: usize = 0;
    while i < a.len()
        invariant
            i <= a@.len(),
            forall|j: int| 0 <= j < i ==> b@.contains(a@[j]),
        decreases a@.len() - i,
    {
        if !crate::config::contains_modifier(b, a[i]) {
            proof {
                assert(seq_set(a@).contains(a@[i as int]));
                assert(!seq_set(b@).contains(a@[i as int]));
            }
            return false;
        }
        i += 1;
    }
    let mut j: usize = 0;
    while j < b.len()
        invariant
            j <= b@.len(),
            forall|x: int| 0 <= x < a@.len() ==> b@.contains(a@[x]),
            forall|y: int| 0 <= y < j ==> a@.contains(b@[y]),
        decreases b@.len() - j,
    {
        if !crate::config::contains_modifier(a, b[j]) {
            proof {
                assert(seq_set(b@).contains(b@[j as int]));
                assert(!seq_set(a@).contains(b@[j as int]));
            }
            return false;
        }
        j += 1;
    }
    proof {
        assert forall|x: Modifier| seq_set(a@).contains(x) implies seq_set(b@).contains(x) by {
            let ix = choose|ix: int| 0 <= ix < a@.len() && a@[ix] == x;
        }
        assert forall|x: Modifier| seq_set(b@).contains(x) implies seq_set(a@).contains(x) by {
            let ix = choose|ix: int| 0 <= ix < b@.len() && b@[ix] == x;
        }
        assert(seq_set(a@) =~= seq_set(b@));
    }
    true
}

/// Decides suppression for the active mode.
fn mode_suppresses(m: &Mode, ds: &DeviceState, key: Keycode) -> (r: bool)
    ensures
        r == spec_suppressed(m@, ds@, key),
{
    if m.options.swallow {
        return true;
    }
    let mut i: usize = 0;
    while i < m.hotkeys.len()
        invariant
            i <= m.hotkeys@.len(),
            forall|j: int|
                0 <= j < i ==> !((#[trigger] m@.hotkeys[j]).keybind.keysym == key && seq_set(
                    m@.hotkeys[j].keybind.mods,
                ) == ds@.mods && !m@.hotkeys[j].keybind.send),
        decreases m.hotkeys@.len() - i,
    {
        let hk = &m.hotkeys[i];
        proof {
            assert(m@.hotkeys[i as int] == m.hotkeys@[i as int]@);
        }
        if hk.keybind.keysym.code == key.code && !hk.keybind.send && mod_sets_equal(
            &hk.keybind.modifiers,
            &ds.modifiers,
        ) {
            proof {
                assert(m@.hotkeys[i as int].keybind.keysym == key);
            }
            return true;
        }
        i += 1;
    }
    proof {
        if spec_suppressed(m@, ds@, key) {
            let j = choose|j: int|
                0 <= j < m@.hotkeys.len() && (#[trigger] m@.hotkeys[j]).keybind.keysym == key
                    && seq_set(m@.hotkeys[j].keybind.mods) == ds@.mods
                    && !m@.hotkeys[j].keybind.send;
        }
    }
    false
}


/// What the release of a key does to the armed hotkey.  While a hotkey
/// is armed and pending release, releasing its plain keysym or one of
/// its required modifiers clears the pending state and disarms it; if
/// it was specifically the plain keysym of an on-release hotkey, the
/// command fires now.  Without a pending release, releasing the armed
/// hotkey's keysym (while down) or one of its modifiers just disarms
/// it, which also stops the repeat timer's effect.
pub open spec fn spec_release_armed(
    modes: Seq<ModeView>,
    stack: Seq<usize>,
    armed: Option<(usize, usize)>,
    pending: bool,
    k: Keycode,
    dv: DeviceView,
) -> ReleaseView {
    match armed {
        None => ReleaseView { armed, pending, stack, fired: Seq::empty() },
        Some(a) => {
            let hb = modes[a.0 as int].hotkeys[a.1 as int].keybind;
            let is_key = k == hb.keysym;
            let is_mod = (spec_modifier_of(k) matches Some(m) && hb.mods.contains(m));
            if pending && (is_key || is_mod) {
                if hb.on_release && is_key {
                    let rv = spec_resolve(
                        modes,
                        stack,
                        modes[a.0 as int].hotkeys[a.1 as int].command,
                    );
                    ReleaseView { armed: None, pending: false, stack: rv.stack, fired: seq![rv.out] }
                } else {
                    ReleaseView { armed: None, pending: false, stack, fired: Seq::empty() }
                }
            } else if !pending && (is_mod || (is_key && dv.keys.contains(k))) {
                ReleaseView { armed: None, pending, stack, fired: Seq::empty() }
            } else {
                ReleaseView { armed, pending, stack, fired: Seq::empty() }
            }
        },
    }
}

/// The armed hotkey, pending flag, mode stack and fired command after
/// the release phase of one event.
pub struct ReleaseView {
    pub armed: Option<(usize, usize)>,
    pub pending: bool,
    pub stack: Seq<usize>,
    pub fired: Seq<Seq<char>>,
}

/// A press adds the key (as a modifier role or a keysym) to the
/// device's state; a release removes it; any other value changes
/// nothing.
pub open spec fn spec_dev_update(dv: DeviceView, k: Keycode, value: i32) -> DeviceView {
    if value == 1 {
        match spec_modifier_of(k) {
            Some(m) => DeviceView { mods: dv.mods.insert(m), keys: dv.keys },
            None => DeviceView { mods: dv.mods, keys: dv.keys.insert(k) },
        }
    } else if value == 0 {
        match spec_modifier_of(k) {
            Some(m) => DeviceView { mods: dv.mods.remove(m), keys: dv.keys },
            None => DeviceView { mods: dv.mods, keys: dv.keys.remove(k) },
        }
    } else {
        dv
    }
}

/// The result of the matching phase.
pub struct MatchView {
    pub stack: Seq<usize>,
    pub armed: Option<(usize, usize)>,
    pub pending: bool,
    pub fired: Seq<Seq<char>>,
}

/// Walks the active mode's hotkeys from index `i`.  Each exact match is
/// armed; a match while a release is pending stops the walk; a match of
/// an on-release hotkey marks the pending release and stops; any other
/// match fires at once (through the mode stack controller) and the walk
/// goes on.
pub open spec fn spec_match_fold(
    modes: Seq<ModeView>,
    a0: usize,
    i: int,
    dv: DeviceView,
    stack: Seq<usize>,
    armed: Option<(usize, usize)>,
    pending: bool,
    fired: Seq<Seq<char>>,
) -> MatchView
    decreases modes[a0 as int].hotkeys.len() - i,
{
    if i < 0 || i >= modes[a0 as int].hotkeys.len() {
        MatchView { stack, armed, pending, fired }
    } else {
        let h = modes[a0 as int].hotkeys[i];
        if spec_hotkey_match(h, dv) {
            if pending {
                MatchView { stack, armed: Some((a0, i as usize)), pending, fired }
            } else if h.keybind.on_release {
                MatchView { stack, armed: Some((a0, i as usize)), pending: true, fired }
            } else {
                let rv = spec_resolve(modes, stack, h.command);
                spec_match_fold(
                    modes,
                    a0,
                    i + 1,
                    dv,
                    rv.stack,
                    Some((a0, i as usize)),
                    pending,
                    fired.push(rv.out),
                )
            }
        } else {
            spec_match_fold(modes, a0, i + 1, dv, stack, armed, pending, fired)
        }
    }
}

/// Everything one key event does to the engine.
pub struct StepView {
    pub dev: DeviceView,
    pub stack: Seq<usize>,
    pub armed: Option<(usize, usize)>,
    pub pending: bool,
    pub forward: bool,
    pub fired: Seq<Seq<char>>,
    pub rearm: bool,
}

/// One key event, already remapped: the release phase, the device
/// update, the forwarding decision (on the updated device state and the
/// then-active mode), and — unless the engine is paused or a hotkey is
/// still armed — the matching phase.
pub open spec fn spec_step(
    modes: Seq<ModeView>,
    stack: Seq<usize>,
    dv: DeviceView,
    armed: Option<(usize, usize)>,
    pending: bool,
    paused: bool,
    key: Keycode,
    value: i32,
) -> StepView {
    let rel = if value == 0 {
        spec_release_armed(modes, stack, armed, pending, key, dv)
    } else {
        ReleaseView { armed, pending, stack, fired: Seq::empty() }
    };
    let dv1 = spec_dev_update(dv, key, value);
    let a1 = rel.stack.last();
    let forward = !spec_suppressed(modes[a1 as int], dv1, key);
    if !paused && rel.armed is None {
        let mf = spec_match_fold(modes, a1, 0, dv1, rel.stack, None, rel.pending, Seq::empty());
        StepView {
            dev: dv1,
            stack: mf.stack,
            armed: mf.armed,
            pending: mf.pending,
            forward,
            fired: rel.fired + mf.fired,
            rearm: mf.fired.len() > 0,
        }
    } else {
        StepView {
            dev: dv1,
            stack: rel.stack,
            armed: rel.armed,
            pending: rel.pending,
            forward,
            fired: rel.fired,
            rearm: false,
        }
    }
}

/// What the engine reports back for one key event: the (possibly
/// remapped) code, whether the physical event is forwarded to the
/// virtual output, the resolved commands to dispatch, in order, and
/// whether the repeat timer is rearmed.
pub struct StepOut {
    pub remapped: Keycode,
    pub forward: bool,
    pub fired: Vec<String>,
    pub rearm: bool,
}

/// The whole runtime state: the loaded modes and remap table, the mode
/// stack (index 0, the root, is permanent), the per-device states in an
/// arena of small ids, the armed hotkey with its pending-release flag,
/// and the paused switch.
pub struct Engine {
    pub modes: Vec<Mode>,
    pub remaps: Vec<(Keycode, Keycode)>,
    pub mode_stack: Vec<usize>,
    pub devices: Vec<Option<DeviceState>>,
    pub armed: Option<(usize, usize)>,
    pub pending_release: bool,
    pub paused: bool,
}

impl Engine {
    /// The engine's invariant: at least the root mode exists, the mode
    /// stack starts at the root and only names existing modes, the
    /// armed reference points at a real hotkey, and every attached
    /// device state is well formed.
    pub open spec fn wf(&self) -> bool {
        &&& self.modes@.len() >= 1
        &&& self.mode_stack@.len() >= 1
        &&& self.mode_stack@[0] == 0
        &&& forall|i: int|
            0 <= i < self.mode_stack@.len() ==> #[trigger] self.mode_stack@[i] < self.modes@.len()
        &&& (self.armed matches Some(a) ==> a.0 < self.modes@.len() && a.1
            < self.modes@[a.0 as int].hotkeys@.len())
        &&& forall|d: int|
            0 <= d < self.devices@.len() ==> (#[trigger] self.devices@[d] matches Some(ds)
                ==> ds.wf())
    }

    /// A fresh engine over a loaded configuration: the stack holds the
    /// root, nothing is armed, nothing is paused, no device attached.
    pub fn new(modes: Vec<Mode>, remaps: Vec<(Keycode, Keycode)>) -> (r: Engine)
        requires
            modes@.len() >= 1,
        ensures
            r.wf(),
            r.modes == modes,
            r.remaps == remaps,
            r.mode_stack@ == seq![0usize],
            r.devices@.len() == 0,
            r.armed is None,
            !r.pending_release,
            !r.paused,
    {
        let mut stack: Vec<usize> = Vec::new();
        stack.push(0);
        proof {
            assert(stack@ =~= seq![0usize]);
        }
        Engine {
            modes,
            remaps,
            mode_stack: stack,
            devices: Vec::new(),
            armed: None,
            pending_release: false,
            paused: false,
        }
    }

    /// Replaces the configuration and resets the runtime state: the
    /// stack returns to the root and any armed or pending chord state
    /// is discarded.  Attached devices stay.
    pub fn reload(&mut self, modes: Vec<Mode>, remaps: Vec<(Keycode, Keycode)>)
        requires
            old(self).wf(),
            modes@.len() >= 1,
        ensures
            final(self).wf(),
            final(self).modes == modes,
            final(self).remaps == remaps,
            final(self).mode_stack@ == seq![0usize],
            final(self).armed is None,
            !final(self).pending_release,
            final(self).devices == old(self).devices,
            final(self).paused == old(self).paused,
    {
        self.modes = modes;
        self.remaps = remaps;
        let mut stack: Vec<usize> = Vec::new();
        stack.push(0);
        proof {
            assert(stack@ =~= seq![0usize]);
        }
        self.mode_stack = stack;
        self.armed = None;
        self.pending_release = false;
    }

    /// Stops matching; events are still forwarded or swallowed.
    pub fn pause(&mut self)
        ensures
            *final(self) == (Engine { paused: true, ..*old(self) }),
    {
        self.paused = true;
    }

    /// Resumes matching.
    pub fn resume(&mut self)
        ensures
            *final(self) == (Engine { paused: false, ..*old(self) }),
    {
        self.paused = false;
    }

    /// Attaches a device, reusing the lowest free arena slot, and
    /// returns its id.
    pub fn attach_device(&mut self) -> (id: usize)
        requires
            old(self).wf(),
        ensures
            final(self).wf(),
            id < final(self).devices@.len(),
            (final(self).devices@[id as int] matches Some(d) && d.wf() && d@.mods
                == Set::<Modifier>::empty() && d@.keys == Set::<Keycode>::empty()),
            final(self).devices@.len() >= old(self).devices@.len(),
            forall|d: int|
                0 <= d < old(self).devices@.len() && d != id ==> final(self).devices@[d] == old(
                    self,
                ).devices@[d],
            final(self).modes == old(self).modes,
            final(self).remaps == old(self).remaps,
            final(self).mode_stack == old(self).mode_stack,
            final(self).armed == old(self).armed,
            final(self).pending_release == old(self).pending_release,
            final(self).paused == old(self).paused,
    {
        let mut i: usize = 0;
        while i < self.devices.len()
            invariant
                i <= self.devices@.len(),
                *self == *old(self),
                old(self).wf(),
            decreases self.devices@.len() - i,
        {
            if self.devices[i].is_none() {
                self.devices.set(i, Some(DeviceState::new()));
                return i;
            }
            i += 1;
        }
        let id = self.devices.len();
        self.devices.push(Some(DeviceState::new()));
        id
    }

    /// Detaches a device, freeing its arena slot.
    pub fn detach_device(&mut self, id: usize)
        requires
            old(self).wf(),
            id < old(self).devices@.len(),
        ensures
            final(self).wf(),
            final(self).devices@ == old(self).devices@.update(id as int, None::<DeviceState>),
            final(self).modes == old(self).modes,
            final(self).remaps == old(self).remaps,
            final(self).mode_stack == old(self).mode_stack,
            final(self).armed == old(self).armed,
            final(self).pending_release == old(self).pending_release,
            final(self).paused == old(self).paused,
    {
        self.devices.set(id, None);
    }
}


impl Engine {
    /// Processes one key transition of an attached device: remaps the
    /// code, updates the device's state, handles the armed hotkey on a
    /// release, decides forwarding, and matches the active mode unless
    /// the engine is paused or a hotkey is still armed.  Every fired
    /// command has already passed through the mode stack controller.
    #[verifier::rlimit(60)]
    pub fn handle_key(&mut self, dev_id: usize, key_in: Keycode, value: i32) -> (r: StepOut)
        requires
            old(self).wf(),
            dev_id < old(self).devices@.len(),
            old(self).devices@[dev_id as int] is Some,
        ensures
            final(self).wf(),
            final(self).modes == old(self).modes,
            final(self).remaps == old(self).remaps,
            final(self).paused == old(self).paused,
            final(self).devices@.len() == old(self).devices@.len(),
            forall|d: int|
                0 <= d < old(self).devices@.len() && d != dev_id ==> final(self).devices@[d]
                    == old(self).devices@[d],
            r.remapped == spec_remap(old(self).remaps@, key_in),
            ({
                let sv = spec_step(
                    mode_views(old(self).modes@),
                    old(self).mode_stack@,
                    old(self).devices@[dev_id as int]->0@,
                    old(self).armed,
                    old(self).pending_release,
                    old(self).paused,
                    spec_remap(old(self).remaps@, key_in),
                    value,
                );
                &&& (final(self).devices@[dev_id as int] matches Some(d2) && d2@ == sv.dev)
                &&& final(self).mode_stack@ == sv.stack
                &&& final(self).armed == sv.armed
                &&& final(self).pending_release == sv.pending
                &&& r.forward == sv.forward
                &&& string_views(r.fired@) == sv.fired
                &&& r.rearm == sv.rearm
            }),
    {
        let ghost mv: Seq<ModeView> = mode_views(self.modes@);
        let ghost st0: Seq<usize> = self.mode_stack@;
        let ghost armed0: Option<(usize, usize)> = self.armed;
        let ghost pending0: bool = self.pending_release;
        let key = remap_key(&self.remaps, key_in);
        let mut slot: Option<DeviceState> = None;
        self.devices.set_and_swap(dev_id, &mut slot);
        let mut ds = match slot {
            Some(d) => d,
            None => {
                proof {
                    assert(false);
                }
                DeviceState::new()
            },
        };
        let ghost dv0: DeviceView = ds@;
        let ghost rel: ReleaseView = if value == 0 {
            spec_release_armed(mv, st0, armed0, pending0, key, dv0)
        } else {
            ReleaseView { armed: armed0, pending: pending0, stack: st0, fired: Seq::empty() }
        };
        let mut arm = self.armed;
        let mut pend = self.pending_release;
        let mut fired: Vec<String> = Vec::new();
        if value == 0 {
            if let Some(a) = arm {
                let (mi, hi) = a;
                let is_key = self.modes[mi].hotkeys[hi].keybind.keysym == key;
                let role = modifier_of(key);
                let is_mod = match role {
                    Some(m) => crate::config::contains_modifier(
                        &self.modes[mi].hotkeys[hi].keybind.modifiers,
                        m,
                    ),
                    None => false,
                };
                proof {
                    assert(mv[mi as int] == self.modes@[mi as int]@);
                    assert(mv[mi as int].hotkeys[hi as int] == self.modes@[mi as int].hotkeys@[hi as int]@);
                }
                if pend && (is_key || is_mod) {
                    pend = false;
                    if self.modes[mi].hotkeys[hi].keybind.on_release && is_key {
                        let cmd = str_chars(self.modes[mi].hotkeys[hi].command.as_str());
                        let out = resolve_core(&self.modes, &mut self.mode_stack, &cmd);
                        fired.push(out);
                        proof {
                            assert(string_views(fired@) =~= seq![
                                spec_resolve(
                                    mv,
                                    st0,
                                    mv[mi as int].hotkeys[hi as int].command,
                                ).out,
                            ]);
                        }
                    }
                    arm = None;
                } else if is_mod || (is_key && contains_key(&ds.keysyms, key)) {
                    arm = None;
                }
            }
        }
        proof {
            assert(arm == rel.armed);
            assert(pend == rel.pending);
            assert(self.mode_stack@ == rel.stack);
            if rel.fired.len() == 0 {
                assert(string_views(fired@) =~= rel.fired);
            }
            assert(string_views(fired@) == rel.fired);
        }
        if value == 1 {
            match modifier_of(key) {
                Some(m) => insert_mod(&mut ds.modifiers, m),
                None => insert_key(&mut ds.keysyms, key),
            }
        } else if value == 0 {
            match modifier_of(key) {
                Some(m) => remove_mod(&mut ds.modifiers, m),
                None => remove_key(&mut ds.keysyms, key),
            }
        }
        proof {
            assert(ds@ =~= spec_dev_update(dv0, key, value));
        }
        let ghost dv1: DeviceView = ds@;
        let a1 = self.mode_stack[self.mode_stack.len() - 1];
        proof {
            assert(a1 == rel.stack.last());
            assert(a1 < self.modes@.len());
        }
        let suppressed = mode_suppresses(&self.modes[a1], &ds, key);
        let forward = !suppressed;
        proof {
            assert(self.modes@[a1 as int]@ == mv[a1 as int]);
            assert(forward == !spec_suppressed(mv[a1 as int], dv1, key));
        }
        let mut rearm = false;
        let ghost devs1: Seq<Option<DeviceState>> = self.devices@;
        let paused_now = self.paused;
        if !paused_now && arm.is_none() {
            let ghost st_rel: Seq<usize> = self.mode_stack@;
            let ghost pend_rel: bool = pend;
            let ghost fold0: MatchView = spec_match_fold(
                mv,
                a1,
                0,
                dv1,
                st_rel,
                None,
                pend_rel,
                Seq::empty(),
            );
            let pre_count = fired.len();
            let ghost relf: Seq<Seq<char>> = string_views(fired@);
            let mut i: usize = 0;
            let mut stop = false;
            let n_h = self.modes[a1].hotkeys.len();
            proof {
                assert(string_views(fired@).skip(pre_count as int) =~= Seq::<Seq<char>>::empty());
            }
            while i < n_h && !stop
                invariant
                    mv == mode_views(self.modes@),
                    self.modes == old(self).modes,
                    self.devices@ == devs1,
                    self.remaps == old(self).remaps,
                    self.paused == old(self).paused,
                    self.armed == armed0,
                    self.pending_release == pending0,
                    a1 < self.modes@.len(),
                    n_h == self.modes@[a1 as int].hotkeys@.len(),
                    i <= n_h,
                    self.mode_stack@.len() >= 1,
                    self.mode_stack@[0] == st0[0],
                    forall|j: int|
                        0 <= j < self.mode_stack@.len() ==> #[trigger] self.mode_stack@[j]
                            < self.modes@.len(),
                    dv1 == ds@,
                    fired@.len() >= pre_count,
                    string_views(fired@).take(pre_count as int) == relf,
                    (arm matches Some(a) ==> a.0 < self.modes@.len() && a.1
                        < self.modes@[a.0 as int].hotkeys@.len()),
                    fold0 == (if stop {
                        MatchView {
                            stack: self.mode_stack@,
                            armed: arm,
                            pending: pend,
                            fired: string_views(fired@).skip(pre_count as int),
                        }
                    } else {
                        spec_match_fold(
                            mv,
                            a1,
                            i as int,
                            dv1,
                            self.mode_stack@,
                            arm,
                            pend,
                            string_views(fired@).skip(pre_count as int),
                        )
                    }),
                decreases n_h - i, (if stop { 0int } else { 1int }),
            {
                let ghost curfired: Seq<Seq<char>> = string_views(fired@).skip(pre_count as int);
                let hk_match = {
                    let hk = &self.modes[a1].hotkeys[i];
                    contains_key(&ds.keysyms, hk.keybind.keysym) && mod_sets_equal(
                        &hk.keybind.modifiers,
                        &ds.modifiers,
                    )
                };
                proof {
                    assert(mv[a1 as int].hotkeys[i as int] == self.modes@[a1 as int].hotkeys@[i as int]@);
                    assert(hk_match == spec_hotkey_match(mv[a1 as int].hotkeys[i as int], dv1));
                }
                if hk_match {
                    arm = Some((a1, i));
                    if pend {
                        stop = true;
                    } else if self.modes[a1].hotkeys[i].keybind.on_release {
                        pend = true;
                        stop = true;
                    } else {
                        let cmd = str_chars(self.modes[a1].hotkeys[i].command.as_str());
                        let ghost stpre: Seq<usize> = self.mode_stack@;
                        let out = resolve_core(&self.modes, &mut self.mode_stack, &cmd);
                        fired.push(out);
                        proof {
                            assert(string_views(fired@).take(pre_count as int) =~= relf);
                            assert(string_views(fired@).skip(pre_count as int) =~= curfired.push(
                                spec_resolve(
                                    mv,
                                    stpre,
                                    mv[a1 as int].hotkeys[i as int].command,
                                ).out,
                            ));
                        }
                        i += 1;
                    }
                } else {
                    i += 1;
                }
            }
            proof {
                if !stop {
                    assert(fold0 == MatchView {
                        stack: self.mode_stack@,
                        armed: arm,
                        pending: pend,
                        fired: string_views(fired@).skip(pre_count as int),
                    });
                }
                assert(relf + string_views(fired@).skip(pre_count as int) =~= string_views(
                    fired@,
                ));
            }
            rearm = fired.len() > pre_count;
            proof {
                assert(rearm == (fold0.fired.len() > 0));
            }
        }
        self.armed = arm;
        self.pending_release = pend;
        self.devices.set(dev_id, Some(ds));
        StepOut { remapped: key, forward, fired, rearm }
    }

    /// What the repeat timer's expiry does and returns.
    pub fn handle_timer(&mut self) -> (r: (Option<String>, bool))
        requires
            old(self).wf(),
        ensures
            final(self).wf(),
            final(self).modes == old(self).modes,
            final(self).remaps == old(self).remaps,
            final(self).devices == old(self).devices,
            final(self).armed == old(self).armed,
            final(self).pending_release == old(self).pending_release,
            final(self).paused == old(self).paused,
            ({
                let held = match old(self).armed {
                    Some(a) => !mode_views(old(self).modes@)[a.0 as int].hotkeys[a.1 as int].keybind.on_release,
                    None => false,
                };
                if held {
                    let a = old(self).armed->0;
                    let rv = spec_resolve(
                        mode_views(old(self).modes@),
                        old(self).mode_stack@,
                        mode_views(old(self).modes@)[a.0 as int].hotkeys[a.1 as int].command,
                    );
                    &&& final(self).mode_stack@ == rv.stack
                    &&& (r.0 matches Some(s) && s@ == rv.out)
                    &&& r.1
                } else {
                    &&& final(self).mode_stack@ == old(self).mode_stack@
                    &&& r.0 is None
                    &&& !r.1
                }
            }),
    {
        let ghost mv: Seq<ModeView> = mode_views(self.modes@);
        match self.armed {
            None => (None, false),
            Some(a) => {
                let (mi, hi) = a;
                proof {
                    assert(mv[mi as int] == self.modes@[mi as int]@);
                    assert(mv[mi as int].hotkeys[hi as int] == self.modes@[mi as int].hotkeys@[hi as int]@);
                }
                if self.modes[mi].hotkeys[hi].keybind.on_release {
                    (None, false)
                } else {
                    let cmd = str_chars(self.modes[mi].hotkeys[hi].command.as_str());
                    let out = resolve_core(&self.modes, &mut self.mode_stack, &cmd);
                    (Some(out), true)
                }
            },
        }
    }
}

} // verus!
