//! The line-oriented hotkey grammar.
//!
//! A configuration text is cut into lines; each non-blank, non-comment
//! line is classified by its shape (leading whitespace means a command
//! line, a leading reserved word means an unbind, mode-start or mode-end
//! line, anything else is a keysym line).  Import lines are collected
//! separately and excluded from the body.  Consecutive body lines of one
//! classification are joined while they end with a backslash.  A keysym
//! line followed by a command line yields hotkeys, after independent
//! curly-brace expansion of the two lines; an orphaned keysym line is
//! silently dropped.

use vstd::prelude::*;
use crate::text::{
    is_space, spec_trim, find_char, find_char_in, split_on, seq_views, trim, split_char, eq_lit,
    starts_with_lit, subvec, str_chars,
};
use crate::config::{
    ChordKind, Error, ParseError, KeyBinding, BindingView, Hotkey, HotkeyView, Mode, ModeView,
    ModeOptions, gstrip, hotkey_views, binding_views, mode_views, lemma_strip_view,
    gunbind, apply_unbinds, lemma_unbind_view,
};
use crate::keys::{
    Modifier, spec_modifier_name, spec_keysym_name, modifier_name, keysym_name,
};
use crate::text::{spec_lower, lower, chars_string};

verus! {

/// The classification of one configuration line.
#[derive(Clone, Copy, PartialEq, Eq, Structural, Debug)]
pub enum LineKind {
    /// Blank or comment: skipped entirely.
    Blank,
    /// An `include <path>` line, collected separately.
    Import,
    /// An `ignore <chord>` line.
    Unbind,
    /// A `mode <name> [swallow] [oneoff]` line.
    ModeStart,
    /// An `endmode` line.
    ModeEnd,
    /// An indented line: the command of the preceding keysym line.
    Command,
    /// Any other line: a chord to bind.
    Keysym,
}

/// One classified body line with its 1-based source line number.
pub struct SrcLine {
    pub kind: LineKind,
    pub text: Vec<char>,
    pub number: u32,
}

/// The mathematical value of a classified line.
#[verifier::ext_equal]
pub struct LineView {
    pub kind: LineKind,
    pub text: Seq<char>,
    pub number: u32,
}

impl View for SrcLine {
    type V = LineView;

    open spec fn view(&self) -> LineView {
        LineView { kind: self.kind, text: self.text@, number: self.number }
    }
}

/// The values of a sequence of classified lines.
pub open spec fn line_views(s: Seq<SrcLine>) -> Seq<LineView> {
    s.map_values(|l: SrcLine| l@)
}

/// True when `s` begins with `p`.
pub open spec fn starts_lit(s: Seq<char>, p: Seq<char>) -> bool {
    s.len() >= p.len() && s.take(p.len() as int) == p
}

/// Classifies a raw line by its shape.
pub open spec fn spec_classify(s: Seq<char>) -> LineKind {
    let t = spec_trim(s);
    if t.len() == 0 {
        LineKind::Blank
    } else if t[0] == '#' {
        LineKind::Blank
    } else if is_space(s[0]) {
        LineKind::Command
    } else if starts_lit(s, "include "@) {
        LineKind::Import
    } else if starts_lit(s, "ignore "@) {
        LineKind::Unbind
    } else if starts_lit(s, "mode "@) {
        LineKind::ModeStart
    } else if t == "endmode"@ {
        LineKind::ModeEnd
    } else {
        LineKind::Keysym
    }
}

/// Classifies one line: blank and comment lines are `Blank`; an indented
/// line is a command line; `include`, `ignore`, `mode` and `endmode`
/// open their own kinds; everything else is a keysym line.
pub fn classify(line: &Vec<char>) -> (r: LineKind)
    ensures
        r == spec_classify(line@),
{
    let t = trim(line);
    if t.len() == 0 {
        LineKind::Blank
    } else if t[0] == '#' {
        LineKind::Blank
    } else if line[0] == ' ' || line[0] == '\t' {
        LineKind::Command
    } else if starts_with_lit(line, "include ") {
        LineKind::Import
    } else if starts_with_lit(line, "ignore ") {
        LineKind::Unbind
    } else if starts_with_lit(line, "mode ") {
        LineKind::ModeStart
    } else if eq_lit(&t, "endmode") {
        LineKind::ModeEnd
    } else {
        LineKind::Keysym
    }
}

/// `n` clamped into `u32`.
pub open spec fn sat32(n: int) -> u32 {
    if n > u32::MAX {
        u32::MAX
    } else if n < 0 {
        0u32
    } else {
        n as u32
    }
}

/// The classified body stream of a file: blank, comment and import
/// lines are dropped; the remaining lines keep their text and 1-based
/// number.  `n0` is the number of the first line of `lines`.
pub open spec fn spec_stream(lines: Seq<Seq<char>>, n0: int) -> Seq<LineView>
    decreases lines.len(),
{
    if lines.len() == 0 {
        Seq::empty()
    } else {
        let k = spec_classify(lines[0]);
        let rest = spec_stream(lines.drop_first(), n0 + 1);
        if k == LineKind::Blank || k == LineKind::Import {
            rest
        } else {
            seq![LineView { kind: k, text: lines[0], number: sat32(n0) }] + rest
        }
    }
}

/// The trimmed payloads of the import lines of a file, in order.
pub open spec fn spec_imports(lines: Seq<Seq<char>>) -> Seq<Seq<char>>
    decreases lines.len(),
{
    if lines.len() == 0 {
        Seq::empty()
    } else {
        let rest = spec_imports(lines.drop_first());
        if spec_classify(lines[0]) == LineKind::Import {
            seq![spec_trim(lines[0].skip(8))] + rest
        } else {
            rest
        }
    }
}

/// Splits a text into its lines, classifies them, and separates the
/// body stream from the import payloads.
pub fn classify_lines(contents: &Vec<char>) -> (r: (Vec<SrcLine>, Vec<Vec<char>>))
    ensures
        line_views(r.0@) == spec_stream(split_on(contents@, '\n'), 1),
        seq_views(r.1@) == spec_imports(split_on(contents@, '\n')),
{
    let lines = split_char(contents, '\n');
    let ghost all: Seq<Seq<char>> = seq_views(lines@);
    let mut body: Vec<SrcLine> = Vec::new();
    let mut imports: Vec<Vec<char>> = Vec::new();
    let mut rest = lines;
    let mut num: u32 = 1;
    let ghost mut n: int = 1;
    while rest.len() > 0
        invariant
            n >= 1,
            num == sat32(n),
            spec_stream(all, 1) == line_views(body@) + spec_stream(seq_views(rest@), n),
            spec_imports(all) == seq_views(imports@) + spec_imports(seq_views(rest@)),
        decreases rest@.len(),
    {
        let ghost pre: Seq<Seq<char>> = seq_views(rest@);
        let line = rest.remove(0);
        proof {
            assert(seq_views(rest@) =~= pre.drop_first());
            assert(pre[0] == line@);
        }
        let k = classify(&line);
        if k == LineKind::Import {
            proof {
                reveal_strlit("include ");
            }
            let n_line = line.len();
            let payload = subvec(&line, 8, n_line);
            assert(payload@ == line@.skip(8));
            let payload = trim(&payload);
            imports.push(payload);
            proof {
                assert(seq_views(imports@) =~= seq_views(imports@.drop_last()) + seq![
                    spec_trim(line@.skip(8)),
                ]);
            }
        } else if k != LineKind::Blank {
            body.push(SrcLine { kind: k, text: line, number: num });
            proof {
                assert(line_views(body@) =~= line_views(body@.drop_last()) + seq![
                    body@.last()@,
                ]);
            }
        }
        if num < u32::MAX {
            num += 1;
        }
        proof {
            n = n + 1;
        }
        proof {
            assert(spec_stream(all, 1) == line_views(body@) + spec_stream(seq_views(rest@), n));
        }
    }
    proof {
        assert(seq_views(rest@) =~= Seq::<Seq<char>>::empty());
        assert(line_views(body@) =~= line_views(body@) + spec_stream(seq_views(rest@), n));
        assert(seq_views(imports@) =~= seq_views(imports@) + spec_imports(seq_views(rest@)));
    }
    (body, imports)
}

/// True when a line's text ends with a continuation backslash.
pub open spec fn ends_bs(t: Seq<char>) -> bool {
    t.len() > 0 && t.last() == '\\'
}

/// Joins consecutive lines of one classification while the earlier line
/// ends with a backslash; the backslash is stripped and the texts are
/// concatenated.  The joined line keeps the first line's number.
pub open spec fn spec_join(ls: Seq<LineView>) -> Seq<LineView>
    decreases ls.len(),
{
    if ls.len() == 0 {
        ls
    } else if ls.len() >= 2 && ends_bs(ls[0].text) && ls[1].kind == ls[0].kind {
        spec_join(
            seq![
                LineView {
                    kind: ls[0].kind,
                    text: ls[0].text.drop_last() + ls[1].text,
                    number: ls[0].number,
                },
            ] + ls.skip(2),
        )
    } else {
        seq![ls[0]] + spec_join(ls.drop_first())
    }
}

/// Applies the backslash continuation rule to the whole body stream.
pub fn join_lines(ls: Vec<SrcLine>) -> (r: Vec<SrcLine>)
    ensures
        line_views(r@) == spec_join(line_views(ls@)),
    decreases ls@.len(),
{
    let ghost orig: Seq<LineView> = line_views(ls@);
    if ls.len() == 0 {
        return ls;
    }
    let mut ls = ls;
    if ls.len() >= 2 && ls[0].text.len() > 0 && ls[0].text[ls[0].text.len() - 1] == '\\'
        && ls[1].kind == ls[0].kind {
        let mut first = ls.remove(0);
        let second = ls.remove(0);
        first.text.pop();
        let mut i: usize = 0;
        while i < second.text.len()
            invariant
                i <= second.text@.len(),
                first.text@ == orig[0].text.drop_last() + second.text@.take(i as int),
                first.kind == orig[0].kind,
                first.number == orig[0].number,
                second@ == orig[1],
            decreases second.text@.len() - i,
        {
            first.text.push(second.text[i]);
            proof {
                assert(orig[0].text.drop_last() + second.text@.take((i + 1) as int) =~= (
                orig[0].text.drop_last() + second.text@.take(i as int)).push(
                    second.text@[i as int],
                ));
            }
            i += 1;
        }
        proof {
            assert(second.text@.take(i as int) =~= second.text@);
        }
        ls.insert(0, first);
        proof {
            assert(line_views(ls@) =~= seq![
                LineView {
                    kind: orig[0].kind,
                    text: orig[0].text.drop_last() + orig[1].text,
                    number: orig[0].number,
                },
            ] + orig.skip(2));
        }
        join_lines(ls)
    } else {
        let first = ls.remove(0);
        proof {
            assert(line_views(ls@) =~= orig.drop_first());
        }
        let mut r = join_lines(ls);
        r.insert(0, first);
        proof {
            assert(line_views(r@) =~= seq![orig[0]] + spec_join(orig.drop_first()));
        }
        r
    }
}

/// How many times `c` occurs in `s`.
pub open spec fn count_char(s: Seq<char>, c: char) -> int
    decreases s.len(),
{
    if s.len() == 0 {
        0
    } else {
        (if s[0] == c {
            1int
        } else {
            0int
        }) + count_char(s.drop_first(), c)
    }
}

proof fn lemma_count_push(s: Seq<char>, x: char, c: char)
    ensures
        count_char(s.push(x), c) == count_char(s, c) + (if x == c {
            1int
        } else {
            0int
        }),
    decreases s.len(),
{
    if s.len() == 0 {
        assert(s.push(x).len() == 1);
        assert(s.push(x)[0] == x);
        assert(s.push(x).drop_first() =~= Seq::<char>::empty());
        assert(count_char(s.push(x), c) == (if x == c {
            1int
        } else {
            0int
        }) + count_char(s.push(x).drop_first(), c));
        assert(count_char(Seq::<char>::empty(), c) == 0);
        assert(count_char(s, c) == 0);
    } else {
        assert(s.push(x)[0] == s[0]);
        assert(s.push(x).drop_first() =~= s.drop_first().push(x));
        lemma_count_push(s.drop_first(), x, c);
        assert(count_char(s.push(x), c) == (if s[0] == c {
            1int
        } else {
            0int
        }) + count_char(s.drop_first().push(x), c));
    }
}

/// Counts the occurrences of `c` in `s`.
pub fn count_char_in(s: &Vec<char>, c: char) -> (r: usize)
    ensures
        r == count_char(s@, c),
{
    let mut r: usize = 0;
    let mut i: usize = 0;
    while i < s.len()
        invariant
            i <= s@.len(),
            r <= i,
            r == count_char(s@.take(i as int), c),
        decreases s@.len() - i,
    {
        proof {
            lemma_count_push(s@.take(i as int), s@[i as int], c);
            assert(s@.take((i + 1) as int) =~= s@.take(i as int).push(s@[i as int]));
        }
        if s[i] == c {
            r += 1;
        }
        i += 1;
    }
    proof {
        assert(s@.take(i as int) =~= s@);
    }
    r
}

/// Splits brace contents on commas; a backslash-escaped comma is kept
/// as a literal comma inside its token.  `cur` is the token being read.
pub open spec fn spec_comma_scan(s: Seq<char>, cur: Seq<char>) -> Seq<Seq<char>>
    decreases s.len(),
{
    if s.len() == 0 {
        seq![cur]
    } else if s[0] == '\\' && s.len() > 1 && s[1] == ',' {
        spec_comma_scan(s.skip(2), cur.push(','))
    } else if s[0] == ',' {
        seq![cur] + spec_comma_scan(s.drop_first(), Seq::empty())
    } else {
        spec_comma_scan(s.drop_first(), cur.push(s[0]))
    }
}

/// Reads the comma-separated tokens of a brace group.
pub fn comma_scan(s: Vec<char>, cur: Vec<char>) -> (r: Vec<Vec<char>>)
    ensures
        seq_views(r@) == spec_comma_scan(s@, cur@),
    decreases s@.len(),
{
    let ghost sv: Seq<char> = s@;
    let ghost curv: Seq<char> = cur@;
    let mut s = s;
    let mut cur = cur;
    if s.len() == 0 {
        let mut r: Vec<Vec<char>> = Vec::new();
        r.push(cur);
        assert(seq_views(r@) =~= seq![curv]);
        r
    } else if s[0] == '\\' && s.len() > 1 && s[1] == ',' {
        let _ = s.remove(0);
        let _ = s.remove(0);
        assert(s@ =~= sv.skip(2));
        cur.push(',');
        comma_scan(s, cur)
    } else if s[0] == ',' {
        let _ = s.remove(0);
        assert(s@ =~= sv.drop_first());
        let empty_cur: Vec<char> = Vec::new();
        let mut r = comma_scan(s, empty_cur);
        r.insert(0, cur);
        assert(seq_views(r@) =~= seq![r@[0]@] + spec_comma_scan(sv.drop_first(), Seq::empty()));
        r
    } else {
        let ch = s.remove(0);
        assert(s@ =~= sv.drop_first());
        cur.push(ch);
        comma_scan(s, cur)
    }
}

/// A token of the shape `X-Y` with single characters `X <= Y`, both in
/// the ASCII range: expanded to the inclusive range of characters.
pub open spec fn is_range_token(t: Seq<char>) -> bool {
    t.len() == 3 && t[1] == '-' && (t[0] as u32) <= (t[2] as u32) && (t[2] as u32) < 128
}

/// The single-character tokens `X`, ..., `Y`.
pub open spec fn spec_range(x: char, y: char) -> Seq<Seq<char>> {
    Seq::new(((y as u32) - (x as u32) + 1) as nat, |i: int| seq![((x as u32 + i) as u8) as char])
}

/// Builds the token list `x ..= y` of single characters.
fn range_tokens(x: char, y: char) -> (r: Vec<Vec<char>>)
    requires
        (x as u32) <= (y as u32),
        (y as u32) < 128,
    ensures
        seq_views(r@) == spec_range(x, y),
{
    let xb = (x as u32) as u8;
    let yb = (y as u32) as u8;
    let mut r: Vec<Vec<char>> = Vec::new();
    let mut b: u8 = xb;
    while b <= yb
        invariant
            xb <= b,
            b <= yb + 1,
            yb < 128,
            xb == x as u32,
            yb == y as u32,
            r@.len() == b - xb,
            forall|j: int| 0 <= j < r@.len() ==> (#[trigger] r@[j])@ == seq![((xb + j) as u8) as char],
        decreases yb + 1 - b,
    {
        let mut tok: Vec<char> = Vec::new();
        tok.push(b as char);
        r.push(tok);
        b += 1;
    }
    assert(seq_views(r@) =~= spec_range(x, y));
    r
}

/// Expands every range token in place; other tokens stay literal.
pub open spec fn spec_expand_tokens(ts: Seq<Seq<char>>) -> Seq<Seq<char>>
    decreases ts.len(),
{
    if ts.len() == 0 {
        ts
    } else {
        let rest = spec_expand_tokens(ts.drop_first());
        if is_range_token(ts[0]) {
            spec_range(ts[0][0], ts[0][2]) + rest
        } else {
            seq![ts[0]] + rest
        }
    }
}

/// Expands range tokens of a brace group.
pub fn expand_tokens(ts: Vec<Vec<char>>) -> (r: Vec<Vec<char>>)
    ensures
        seq_views(r@) == spec_expand_tokens(seq_views(ts@)),
    decreases ts@.len(),
{
    let ghost tv: Seq<Seq<char>> = seq_views(ts@);
    let mut ts = ts;
    if ts.len() == 0 {
        return ts;
    }
    let t = ts.remove(0);
    assert(seq_views(ts@) =~= tv.drop_first());
    assert(t@ == tv[0]);
    let rest = expand_tokens(ts);
    if t.len() == 3 && t[1] == '-' && (t[0] as u32) <= (t[2] as u32) && (t[2] as u32) < 128 {
        let mut r = range_tokens(t[0], t[2]);
        let ghost restv: Seq<Seq<char>> = seq_views(rest@);
        let mut rest = rest;
        while rest.len() > 0
            invariant
                seq_views(r@) + seq_views(rest@) == spec_range(tv[0][0], tv[0][2]) + restv,
            decreases rest@.len(),
        {
            let ghost pre: Seq<Seq<char>> = seq_views(rest@);
            let ghost prev: Seq<Seq<char>> = seq_views(r@);
            let tok = rest.remove(0);
            let ghost tokv: Seq<char> = tok@;
            r.push(tok);
            proof {
                assert(seq_views(rest@) =~= pre.drop_first());
                assert(seq_views(r@) =~= prev.push(tokv));
                assert(prev.push(tokv) + pre.drop_first() =~= prev + pre);
            }
        }
        proof {
            assert(seq_views(r@) =~= seq_views(r@) + seq_views(rest@));
        }
        r
    } else {
        let mut r = rest;
        r.insert(0, t);
        assert(seq_views(r@) =~= seq![tv[0]] + spec_expand_tokens(tv.drop_first()));
        r
    }
}

/// A line is expandable when it holds exactly one `{`, exactly one `}`,
/// and the `{` comes first; any other brace pattern leaves the line
/// literal.
pub open spec fn brace_expandable(s: Seq<char>) -> bool {
    count_char(s, '{') == 1 && count_char(s, '}') == 1 && find_char(s, '{') < find_char(s, '}')
}

/// The expansion of one line: each token of the brace group, ranges
/// included, spliced between the text before `{` and after `}`.  A line
/// without a well-formed group stays as the single literal line.
pub open spec fn spec_expand_line(s: Seq<char>) -> Seq<Seq<char>> {
    if brace_expandable(s) {
        let o = find_char(s, '{');
        let c = find_char(s, '}');
        let toks = spec_expand_tokens(spec_comma_scan(s.subrange(o + 1, c), Seq::empty()));
        toks.map_values(|t: Seq<char>| s.take(o) + t + s.skip(c + 1))
    } else {
        seq![s]
    }
}

/// Concatenates three character vectors.
fn concat3(a: &Vec<char>, b: &Vec<char>, c: &Vec<char>) -> (r: Vec<char>)
    ensures
        r@ == a@ + b@ + c@,
{
    let mut r: Vec<char> = Vec::new();
    let mut i: usize = 0;
    while i < a.len()
        invariant
            i <= a@.len(),
            r@ == a@.take(i as int),
        decreases a@.len() - i,
    {
        r.push(a[i]);
        assert(a@.take((i + 1) as int) =~= a@.take(i as int).push(a@[i as int]));
        i += 1;
    }
    assert(r@ =~= a@);
    let mut j: usize = 0;
    while j < b.len()
        invariant
            j <= b@.len(),
            r@ == a@ + b@.take(j as int),
        decreases b@.len() - j,
    {
        r.push(b[j]);
        assert(a@ + b@.take((j + 1) as int) =~= (a@ + b@.take(j as int)).push(b@[j as int]));
        j += 1;
    }
    assert(r@ =~= a@ + b@);
    let mut k: usize = 0;
    while k < c.len()
        invariant
            k <= c@.len(),
            r@ == a@ + b@ + c@.take(k as int),
        decreases c@.len() - k,
    {
        r.push(c[k]);
        assert(a@ + b@ + c@.take((k + 1) as int) =~= (a@ + b@ + c@.take(k as int)).push(
            c@[k as int],
        ));
        k += 1;
    }
    assert(r@ =~= a@ + b@ + c@);
    r
}

/// Expands the curly-brace group of a line, if it has exactly one.
pub fn expand_line(s: &Vec<char>) -> (r: Vec<Vec<char>>)
    ensures
        seq_views(r@) == spec_expand_line(s@),
        r@.len() >= 1,
{
    let opens = count_char_in(s, '{');
    let closes = count_char_in(s, '}');
    let o_idx = find_char_in(s, '{');
    let c_idx = find_char_in(s, '}');
    if opens == 1 && closes == 1 {
        if let (Some(o), Some(c)) = (o_idx, c_idx) {
            if o < c {
                let inner = subvec(s, o + 1, c);
                let empty_cur: Vec<char> = Vec::new();
                let toks = comma_scan(inner, empty_cur);
                let toks = expand_tokens(toks);
                let prefix = subvec(s, 0, o);
                let n = s.len();
                let suffix = subvec(s, c + 1, n);
                assert(prefix@ == s@.take(o as int));
                assert(suffix@ == s@.skip(c + 1));
                let ghost tv: Seq<Seq<char>> = seq_views(toks@);
                let mut r: Vec<Vec<char>> = Vec::new();
                let mut i: usize = 0;
                while i < toks.len()
                    invariant
                        i <= toks@.len(),
                        tv == seq_views(toks@),
                        prefix@ == s@.take(o as int),
                        suffix@ == s@.skip(c + 1),
                        r@.len() == i,
                        forall|j: int|
                            0 <= j < i ==> (#[trigger] r@[j])@ == prefix@ + seq_views(toks@)[j]
                                + suffix@,
                    decreases toks@.len() - i,
                {
                    let piece = concat3(&prefix, &toks[i], &suffix);
                    r.push(piece);
                    i += 1;
                }
                proof {
                    let ev = spec_expand_line(s@);
                    assert(brace_expandable(s@));
                    assert(ev.len() == tv.len());
                    assert forall|j: int| 0 <= j < tv.len() implies seq_views(r@)[j] == ev[j] by {
                        assert(ev[j] == s@.take(o as int) + tv[j] + s@.skip(c as int + 1));
                        assert(seq_views(r@)[j] == r@[j]@);
                    }
                    assert(seq_views(r@) =~= ev);
                    lemma_expand_nonempty(s@.subrange(o as int + 1, c as int));
                }
                return r;
            }
        }
    }
    proof {
        lemma_find_count(s@, '{');
        lemma_find_count(s@, '}');
    }
    let whole = subvec(s, 0, s.len());
    assert(whole@ =~= s@);
    let mut r: Vec<Vec<char>> = Vec::new();
    r.push(whole);
    assert(seq_views(r@) =~= seq![s@]);
    r
}

/// A chord token after canonicalisation: trimmed, then lowercased.
pub open spec fn canon_token(t: Seq<char>) -> Seq<char> {
    spec_lower(spec_trim(t))
}

/// Canonicalises every token of a chord.
pub open spec fn canon_tokens(ts: Seq<Seq<char>>) -> Seq<Seq<char>> {
    ts.map_values(|t: Seq<char>| canon_token(t))
}

/// Drops the tokens that begin with `_`, the escape for a literal `+`.
pub open spec fn spec_keep_tokens(ts: Seq<Seq<char>>) -> Seq<Seq<char>>
    decreases ts.len(),
{
    if ts.len() == 0 {
        ts
    } else {
        let rest = spec_keep_tokens(ts.drop_first());
        if ts[0].len() > 0 && ts[0][0] == '_' {
            rest
        } else {
            seq![ts[0]] + rest
        }
    }
}

/// The canonical token list of a chord: split on `+`, each token
/// trimmed and lowercased, `_`-prefixed tokens stripped.
pub open spec fn spec_chord_tokens(chord: Seq<char>) -> Seq<Seq<char>> {
    spec_keep_tokens(canon_tokens(split_on(chord, '+')))
}

/// Computes the canonical token list of a chord.
pub fn chord_tokens(chord: &Vec<char>) -> (r: Vec<Vec<char>>)
    ensures
        seq_views(r@) == spec_chord_tokens(chord@),
{
    let raw = split_char(chord, '+');
    let ghost all: Seq<Seq<char>> = seq_views(raw@);
    let mut out: Vec<Vec<char>> = Vec::new();
    let mut rest = raw;
    while rest.len() > 0
        invariant
            spec_keep_tokens(canon_tokens(all)) == seq_views(out@) + spec_keep_tokens(
                canon_tokens(seq_views(rest@)),
            ),
        decreases rest@.len(),
    {
        let ghost pre: Seq<Seq<char>> = seq_views(rest@);
        let tok = rest.remove(0);
        proof {
            assert(seq_views(rest@) =~= pre.drop_first());
            assert(canon_tokens(pre)[0] == canon_token(pre[0]));
            assert(canon_tokens(pre).drop_first() =~= canon_tokens(pre.drop_first()));
            assert(pre[0] == tok@);
        }
        let t = trim(&tok);
        let t = lower(&t);
        assert(t@ == canon_token(pre[0]));
        if !(t.len() > 0 && t[0] == '_') {
            out.push(t);
            proof {
                assert(seq_views(out@) =~= seq_views(out@.drop_last()) + seq![
                    canon_token(pre[0]),
                ]);
            }
        }
    }
    proof {
        assert(canon_tokens(seq_views(rest@)) =~= Seq::<Seq<char>>::empty());
        assert(seq_views(out@) =~= seq_views(out@) + spec_keep_tokens(
            canon_tokens(seq_views(rest@)),
        ));
    }
    out
}

/// Strips the `@` (fire on release) and `~` (also forward the event)
/// prefixes of the last chord token, in either order.
pub open spec fn spec_strip_flags(t: Seq<char>) -> (Seq<char>, bool, bool) {
    if t.len() > 0 && t[0] == '@' {
        if t.len() > 1 && t[1] == '~' {
            (t.skip(2), true, true)
        } else {
            (t.skip(1), true, false)
        }
    } else if t.len() > 0 && t[0] == '~' {
        if t.len() > 1 && t[1] == '@' {
            (t.skip(2), true, true)
        } else {
            (t.skip(1), false, true)
        }
    } else {
        (t, false, false)
    }
}

/// Strips the flag prefixes; `r.1` is on-release, `r.2` is send.
pub fn strip_flags(t: &Vec<char>) -> (r: (Vec<char>, bool, bool))
    ensures
        r.0@ == spec_strip_flags(t@).0,
        r.1 == spec_strip_flags(t@).1,
        r.2 == spec_strip_flags(t@).2,
{
    let n = t.len();
    if n > 0 && t[0] == '@' {
        if n > 1 && t[1] == '~' {
            (subvec(t, 2, n), true, true)
        } else {
            (subvec(t, 1, n), true, false)
        }
    } else if n > 0 && t[0] == '~' {
        if n > 1 && t[1] == '@' {
            (subvec(t, 2, n), true, true)
        } else {
            (subvec(t, 1, n), false, true)
        }
    } else {
        (subvec(t, 0, n), false, false)
    }
}

/// Validates the modifier tokens left to right, accumulating each
/// modifier once.  A keysym name in modifier position is
/// `InvalidModifier`; an unknown name is `UnknownSymbol`.
pub open spec fn spec_mods_acc(ts: Seq<Seq<char>>, acc: Seq<Modifier>) -> Result<
    Seq<Modifier>,
    ChordKind,
>
    decreases ts.len(),
{
    if ts.len() == 0 {
        Ok(acc)
    } else {
        match spec_modifier_name(ts[0]) {
            Some(m) => spec_mods_acc(
                ts.drop_first(),
                if acc.contains(m) {
                    acc
                } else {
                    acc.push(m)
                },
            ),
            None => Err(
                if spec_keysym_name(ts[0]) is Some {
                    ChordKind::InvalidModifier
                } else {
                    ChordKind::UnknownSymbol
                },
            ),
        }
    }
}

/// Validates and collects the modifier tokens.
pub fn collect_mods(ts: &Vec<Vec<char>>) -> (r: Result<Vec<Modifier>, ChordKind>)
    ensures
        match r {
            Ok(ms) => spec_mods_acc(seq_views(ts@), Seq::empty()) == Ok::<_, ChordKind>(ms@),
            Err(k) => spec_mods_acc(seq_views(ts@), Seq::empty()) == Err::<Seq<Modifier>, _>(k),
        },
{
    let ghost all: Seq<Seq<char>> = seq_views(ts@);
    proof {
        assert(all.skip(0) =~= all);
    }
    let mut acc: Vec<Modifier> = Vec::new();
    let mut i: usize = 0;
    while i < ts.len()
        invariant
            i <= ts@.len(),
            all == seq_views(ts@),
            spec_mods_acc(all, Seq::empty()) == spec_mods_acc(
                seq_views(ts@).skip(i as int),
                acc@,
            ),
        decreases ts@.len() - i,
    {
        let ghost pre: Seq<Seq<char>> = seq_views(ts@).skip(i as int);
        proof {
            assert(pre[0] == ts@[i as int]@);
            assert(pre.drop_first() =~= seq_views(ts@).skip(i + 1));
        }
        match modifier_name(&ts[i]) {
            Some(m) => {
                if !crate::config::contains_modifier(&acc, m) {
                    acc.push(m);
                }
            },
            None => {
                let k = if keysym_name(&ts[i]).is_some() {
                    ChordKind::InvalidModifier
                } else {
                    ChordKind::UnknownSymbol
                };
                proof {
                    assert(pre.len() > 0);
                    assert(spec_mods_acc(pre, acc@) == Err::<Seq<Modifier>, ChordKind>(k));
                }
                return Err(k);
            },
        }
        i += 1;
    }
    proof {
        assert(seq_views(ts@).skip(i as int) =~= Seq::<Seq<char>>::empty());
    }
    Ok(acc)
}

/// The binding named by a chord text, or what is wrong with it.
pub open spec fn spec_parse_keybind(chord: Seq<char>) -> Result<BindingView, ChordKind> {
    let toks = spec_chord_tokens(chord);
    if toks.len() == 0 {
        Err(ChordKind::UnknownSymbol)
    } else {
        let flags = spec_strip_flags(toks.last());
        match spec_mods_acc(toks.drop_last(), Seq::empty()) {
            Err(k) => Err(k),
            Ok(ms) => match spec_keysym_name(flags.0) {
                Some(key) => Ok(
                    BindingView { keysym: key, mods: ms, send: flags.2, on_release: flags.1 },
                ),
                None => Err(
                    if spec_modifier_name(flags.0) is Some {
                        ChordKind::InvalidKeysym
                    } else {
                        ChordKind::UnknownSymbol
                    },
                ),
            },
        }
    }
}

/// Builds the structured error for a bad chord.
fn chord_error(path: &str, line: u32, kind: ChordKind) -> (r: Error)
    ensures
        (r matches Error::InvalidConfig(pe) && pe.path@ == path@ && pe.line == line && pe.kind
            == kind),
{
    Error::InvalidConfig(ParseError { path: String::from_str(path), line, kind })
}

/// Parses one chord: split on `+`, trim and lowercase, strip `_`
/// escapes; every token before the last must be a modifier name, the
/// last must be a keysym name, optionally prefixed by `@` or `~`.  A
/// bad token aborts with an error naming `path` and `line`.
pub fn parse_keybind(chord: &Vec<char>, path: &str, line: u32) -> (r: Result<KeyBinding, Error>)
    ensures
        (spec_parse_keybind(chord@) matches Ok(bv) ==> (r matches Ok(kb) && kb@ == bv)),
        (spec_parse_keybind(chord@) matches Err(k) ==> (r matches Err(e) && (e
            matches Error::InvalidConfig(pe) && pe.path@ == path@ && pe.line == line && pe.kind
            == k))),
{
    let mut toks = chord_tokens(chord);
    let ghost tv: Seq<Seq<char>> = seq_views(toks@);
    if toks.len() == 0 {
        return Err(chord_error(path, line, ChordKind::UnknownSymbol));
    }
    let last = match toks.pop() {
        Some(l) => l,
        None => {
            return Err(chord_error(path, line, ChordKind::UnknownSymbol));
        },
    };
    proof {
        assert(last@ == tv.last());
        assert(seq_views(toks@) =~= tv.drop_last());
    }
    let flags = strip_flags(&last);
    let ms = match collect_mods(&toks) {
        Ok(ms) => ms,
        Err(k) => {
            return Err(chord_error(path, line, k));
        },
    };
    match keysym_name(&flags.0) {
        Some(key) => Ok(
            KeyBinding { keysym: key, modifiers: ms, send: flags.2, on_release: flags.1 },
        ),
        None => {
            let k = if modifier_name(&flags.0).is_some() {
                ChordKind::InvalidKeysym
            } else {
                ChordKind::UnknownSymbol
            };
            Err(chord_error(path, line, k))
        },
    }
}

/// Drops the empty pieces of a split.
pub open spec fn spec_drop_empty(ts: Seq<Seq<char>>) -> Seq<Seq<char>>
    decreases ts.len(),
{
    if ts.len() == 0 {
        ts
    } else {
        let rest = spec_drop_empty(ts.drop_first());
        if ts[0].len() == 0 {
            rest
        } else {
            seq![ts[0]] + rest
        }
    }
}

/// The space-separated words of a line.
pub open spec fn spec_words(s: Seq<char>) -> Seq<Seq<char>> {
    spec_drop_empty(split_on(s, ' '))
}

/// Computes the space-separated words of a line.
pub fn words(s: &Vec<char>) -> (r: Vec<Vec<char>>)
    ensures
        seq_views(r@) == spec_words(s@),
{
    let raw = split_char(s, ' ');
    let ghost all: Seq<Seq<char>> = seq_views(raw@);
    let mut out: Vec<Vec<char>> = Vec::new();
    let mut rest = raw;
    while rest.len() > 0
        invariant
            spec_drop_empty(all) == seq_views(out@) + spec_drop_empty(seq_views(rest@)),
        decreases rest@.len(),
    {
        let ghost pre: Seq<Seq<char>> = seq_views(rest@);
        let w = rest.remove(0);
        proof {
            assert(seq_views(rest@) =~= pre.drop_first());
            assert(pre[0] == w@);
        }
        if w.len() > 0 {
            out.push(w);
            proof {
                assert(seq_views(out@) =~= seq_views(out@.drop_last()) + seq![pre[0]]);
            }
        }
    }
    proof {
        assert(seq_views(rest@) =~= Seq::<Seq<char>>::empty());
        assert(seq_views(out@) =~= seq_views(out@) + spec_drop_empty(seq_views(rest@)));
    }
    out
}

/// True when one of `ws[from..]` is the word `w`.
fn contains_word(ws: &Vec<Vec<char>>, from: usize, w: &str) -> (r: bool)
    requires
        from <= ws@.len(),
    ensures
        r == seq_views(ws@).skip(from as int).contains(w@),
{
    let ghost tail: Seq<Seq<char>> = seq_views(ws@).skip(from as int);
    let mut j: usize = from;
    while j < ws.len()
        invariant
            from <= j <= ws@.len(),
            tail == seq_views(ws@).skip(from as int),
            forall|i: int| 0 <= i < j - from ==> tail[i] != w@,
        decreases ws@.len() - j,
    {
        if eq_lit(&ws[j], w) {
            proof {
                assert(tail[j - from] == w@);
            }
            return true;
        }
        proof {
            assert(tail[j - from] == ws@[j as int]@);
        }
        j += 1;
    }
    proof {
        if tail.contains(w@) {
            let i = choose|i: int| 0 <= i < tail.len() && tail[i] == w@;
            assert(tail[i] != w@);
        }
    }
    false
}

/// The name and options of a `mode` line: the second word is the name,
/// later words may switch on `swallow` and `oneoff`.  A `mode` line
/// without a name is ignored.
pub open spec fn spec_mode_decl(text: Seq<char>) -> Option<(Seq<char>, ModeOptions)> {
    let ws = spec_words(spec_trim(text));
    if ws.len() >= 2 {
        Some(
            (
                ws[1],
                ModeOptions {
                    swallow: ws.skip(2).contains("swallow"@),
                    oneoff: ws.skip(2).contains("oneoff"@),
                },
            ),
        )
    } else {
        None
    }
}

/// Reads a `mode` declaration line.
pub fn mode_decl(text: &Vec<char>) -> (r: Option<(Vec<char>, ModeOptions)>)
    ensures
        match r {
            Some(p) => (spec_mode_decl(text@) matches Some(q) && p.0@ == q.0 && p.1 == q.1),
            None => spec_mode_decl(text@) is None,
        },
{
    let t = trim(text);
    let mut ws = words(&t);
    if ws.len() >= 2 {
        let swallow = contains_word(&ws, 2, "swallow");
        let oneoff = contains_word(&ws, 2, "oneoff");
        let name = ws.remove(1);
        assert(name@ == spec_words(spec_trim(text@))[1]);
        Some((name, ModeOptions { swallow, oneoff }))
    } else {
        None
    }
}

/// Index of the first mode named `name`, or -1.
pub open spec fn g_find_mode(ms: Seq<ModeView>, name: Seq<char>) -> int
    decreases ms.len(),
{
    if ms.len() == 0 {
        -1
    } else if ms[0].name == name {
        0
    } else {
        let r = g_find_mode(ms.drop_first(), name);
        if r < 0 {
            -1
        } else {
            r + 1
        }
    }
}

proof fn lemma_find_mode_at(ms: Seq<ModeView>, name: Seq<char>, i: int)
    requires
        0 <= i < ms.len(),
        ms[i].name == name,
        forall|j: int| 0 <= j < i ==> ms[j].name != name,
    ensures
        g_find_mode(ms, name) == i,
    decreases i,
{
    if i > 0 {
        assert forall|j: int| 0 <= j < i - 1 implies ms.drop_first()[j].name != name by {
            assert(ms.drop_first()[j] == ms[j + 1]);
        }
        assert(ms.drop_first()[i - 1] == ms[i]);
        lemma_find_mode_at(ms.drop_first(), name, i - 1);
    }
}

proof fn lemma_find_mode_none(ms: Seq<ModeView>, name: Seq<char>)
    requires
        forall|j: int| 0 <= j < ms.len() ==> ms[j].name != name,
    ensures
        g_find_mode(ms, name) == -1,
    decreases ms.len(),
{
    if ms.len() > 0 {
        assert forall|j: int| 0 <= j < ms.len() - 1 implies ms.drop_first()[j].name != name by {
            assert(ms.drop_first()[j] == ms[j + 1]);
        }
        lemma_find_mode_none(ms.drop_first(), name);
    }
}

/// Finds the mode with the given name, if one exists.
pub fn find_mode(ms: &Vec<Mode>, name: &Vec<char>) -> (r: Option<usize>)
    ensures
        match r {
            Some(i) => g_find_mode(mode_views(ms@), name@) == i && i < ms@.len(),
            None => g_find_mode(mode_views(ms@), name@) == -1,
        },
{
    let ghost mv: Seq<ModeView> = mode_views(ms@);
    let mut i: usize = 0;
    while i < ms.len()
        invariant
            i <= ms@.len(),
            mv == mode_views(ms@),
            forall|j: int| 0 <= j < i ==> mv[j].name != name@,
        decreases ms@.len() - i,
    {
        if eq_lit(name, ms[i].name.as_str()) {
            proof {
                assert(mv[i as int].name == name@);
                lemma_find_mode_at(mv, name@, i as int);
            }
            return Some(i);
        }
        proof {
            assert(mv[i as int].name == ms@[i as int].name@);
        }
        i += 1;
    }
    proof {
        lemma_find_mode_none(mv, name@);
    }
    None
}

/// `ms` with `h` inserted into mode `cur`, the later definition of the
/// chord replacing any earlier one.
pub open spec fn g_insert(ms: Seq<ModeView>, cur: int, h: HotkeyView) -> Seq<ModeView> {
    ms.update(
        cur,
        ModeView {
            name: ms[cur].name,
            hotkeys: gstrip(ms[cur].hotkeys, h.keybind) + seq![h],
            unbinds: ms[cur].unbinds,
            options: ms[cur].options,
        },
    )
}

/// `ms` with an unbind directive recorded in mode `cur`.
pub open spec fn g_push_unbind(ms: Seq<ModeView>, cur: int, bv: BindingView) -> Seq<ModeView> {
    ms.update(
        cur,
        ModeView {
            name: ms[cur].name,
            hotkeys: ms[cur].hotkeys,
            unbinds: ms[cur].unbinds + seq![bv],
            options: ms[cur].options,
        },
    )
}

/// Zips the expansions of a keysym line and its command line and binds
/// each pair in mode `cur`; the shorter list decides how many hotkeys
/// arise.  The first bad chord aborts.
pub open spec fn spec_add_pairs(
    ms: Seq<ModeView>,
    cur: int,
    ks: Seq<Seq<char>>,
    cs: Seq<Seq<char>>,
) -> Result<Seq<ModeView>, ChordKind>
    decreases ks.len(),
{
    if ks.len() == 0 || cs.len() == 0 {
        Ok(ms)
    } else {
        match spec_parse_keybind(ks[0]) {
            Err(k) => Err(k),
            Ok(bv) => spec_add_pairs(
                g_insert(ms, cur, HotkeyView { keybind: bv, command: spec_trim(cs[0]) }),
                cur,
                ks.drop_first(),
                cs.drop_first(),
            ),
        }
    }
}

/// Binds the zipped expansions of one keysym/command line pair.
fn add_pairs(
    ms: Vec<Mode>,
    cur: usize,
    ks: Vec<Vec<char>>,
    cs: Vec<Vec<char>>,
    path: &str,
    line: u32,
) -> (r: Result<Vec<Mode>, Error>)
    requires
        cur < ms@.len(),
    ensures
        (spec_add_pairs(mode_views(ms@), cur as int, seq_views(ks@), seq_views(cs@)) matches Ok(
            gms,
        ) ==> (r matches Ok(v) && mode_views(v@) == gms && v@.len() == ms@.len())),
        (spec_add_pairs(mode_views(ms@), cur as int, seq_views(ks@), seq_views(cs@)) matches Err(
            k,
        ) ==> (r matches Err(e) && (e matches Error::InvalidConfig(pe) && pe.kind == k && pe.line
            == line && pe.path@ == path@))),
    decreases ks@.len(),
{
    let ghost mv: Seq<ModeView> = mode_views(ms@);
    let ghost kv: Seq<Seq<char>> = seq_views(ks@);
    let ghost cv: Seq<Seq<char>> = seq_views(cs@);
    if ks.len() == 0 || cs.len() == 0 {
        return Ok(ms);
    }
    let mut ks = ks;
    let mut cs = cs;
    let k0 = ks.remove(0);
    let c0 = cs.remove(0);
    proof {
        assert(seq_views(ks@) =~= kv.drop_first());
        assert(seq_views(cs@) =~= cv.drop_first());
        assert(k0@ == kv[0]);
        assert(c0@ == cv[0]);
    }
    match parse_keybind(&k0, path, line) {
        Err(e) => Err(e),
        Ok(kb) => {
            let ghost kbg: KeyBinding = kb;
            let cmd_chars = trim(&c0);
            let cmd = chars_string(&cmd_chars);
            let h = Hotkey { keybind: kb, command: cmd };
            let ghost hv: HotkeyView = h@;
            let mut ms = ms;
            let ghost pre: Seq<Mode> = ms@;
            let mut m = ms.remove(cur);
            let ghost mpre: Mode = m;
            m.insert_hotkey(h);
            let ghost mfin: Mode = m;
            ms.insert(cur, m);
            proof {
                lemma_strip_view(mpre.hotkeys@, kbg);
                assert(hotkey_views(mfin.hotkeys@) =~= gstrip(hotkey_views(mpre.hotkeys@), kbg@)
                    + seq![hv]);
                assert(mv[cur as int] == mpre@);
                assert(mfin@ == (ModeView {
                    name: mv[cur as int].name,
                    hotkeys: gstrip(mv[cur as int].hotkeys, hv.keybind) + seq![hv],
                    unbinds: mv[cur as int].unbinds,
                    options: mv[cur as int].options,
                }));
                assert(pre.remove(cur as int).insert(cur as int, mfin) =~= pre.update(
                    cur as int,
                    mfin,
                ));
                assert(mode_views(pre.update(cur as int, mfin)) =~= mode_views(pre).update(
                    cur as int,
                    mfin@,
                ));
                assert(mode_views(ms@) == g_insert(mv, cur as int, hv));
            }
            add_pairs(ms, cur, ks, cs, path, line)
        },
    }
}

/// The chord text of an `ignore` line: what follows the reserved word.
pub open spec fn spec_unbind_chord(t: Seq<char>) -> Seq<char> {
    if t.len() >= 7 {
        t.skip(7)
    } else {
        Seq::empty()
    }
}

/// Walks the joined body stream.  A keysym line immediately followed by
/// a command line binds their zipped expansions in the current mode; an
/// orphaned keysym line, a stray command line and an unknown word are
/// dropped.  `ignore` records an unbind, `mode` opens (or returns to) a
/// named mode, `endmode` returns to the root mode.  The first bad chord
/// aborts with its kind and line number.
pub open spec fn spec_body(ls: Seq<LineView>, ms: Seq<ModeView>, cur: int) -> Result<
    Seq<ModeView>,
    (ChordKind, u32),
>
    decreases ls.len(),
{
    if ls.len() == 0 {
        Ok(ms)
    } else {
        let l = ls[0];
        if l.kind == LineKind::Keysym && ls.len() >= 2 && ls[1].kind == LineKind::Command {
            match spec_add_pairs(ms, cur, spec_expand_line(l.text), spec_expand_line(ls[1].text)) {
                Err(k) => Err((k, l.number)),
                Ok(ms2) => spec_body(ls.skip(2), ms2, cur),
            }
        } else if l.kind == LineKind::Unbind {
            match spec_parse_keybind(spec_unbind_chord(l.text)) {
                Err(k) => Err((k, l.number)),
                Ok(bv) => spec_body(ls.drop_first(), g_push_unbind(ms, cur, bv), cur),
            }
        } else if l.kind == LineKind::ModeStart {
            match spec_mode_decl(l.text) {
                None => spec_body(ls.drop_first(), ms, cur),
                Some(decl) => {
                    let idx = g_find_mode(ms, decl.0);
                    if idx >= 0 {
                        spec_body(ls.drop_first(), ms, idx)
                    } else {
                        spec_body(
                            ls.drop_first(),
                            ms + seq![
                                ModeView {
                                    name: decl.0,
                                    hotkeys: Seq::empty(),
                                    unbinds: Seq::empty(),
                                    options: decl.1,
                                },
                            ],
                            ms.len() as int,
                        )
                    }
                },
            }
        } else if l.kind == LineKind::ModeEnd {
            spec_body(ls.drop_first(), ms, 0)
        } else {
            spec_body(ls.drop_first(), ms, cur)
        }
    }
}

/// Walks the joined body stream, accumulating modes.
fn parse_body(ls: Vec<SrcLine>, ms: Vec<Mode>, cur: usize, path: &str) -> (r: Result<
    Vec<Mode>,
    Error,
>)
    requires
        ms@.len() >= 1,
        cur < ms@.len(),
    ensures
        (spec_body(line_views(ls@), mode_views(ms@), cur as int) matches Ok(gms) ==> (r matches Ok(
            v,
        ) && mode_views(v@) == gms)),
        (spec_body(line_views(ls@), mode_views(ms@), cur as int) matches Err(en) ==> (r
            matches Err(e) && (e matches Error::InvalidConfig(pe) && pe.kind == en.0 && pe.line
            == en.1 && pe.path@ == path@))),
    decreases ls@.len(),
{
    let ghost lv: Seq<LineView> = line_views(ls@);
    let ghost mv: Seq<ModeView> = mode_views(ms@);
    let mut ls = ls;
    if ls.len() == 0 {
        return Ok(ms);
    }
    let l = ls.remove(0);
    proof {
        assert(line_views(ls@) =~= lv.drop_first());
        assert(l@ == lv[0]);
    }
    if l.kind == LineKind::Keysym && ls.len() >= 1 && ls[0].kind == LineKind::Command {
        let c = ls.remove(0);
        proof {
            assert(line_views(ls@) =~= lv.skip(2));
            assert(c@ == lv[1]);
        }
        let kpieces = expand_line(&l.text);
        let cpieces = expand_line(&c.text);
        match add_pairs(ms, cur, kpieces, cpieces, path, l.number) {
            Err(e) => Err(e),
            Ok(ms2) => parse_body(ls, ms2, cur, path),
        }
    } else if l.kind == LineKind::Unbind {
        let n = l.text.len();
        let chord = if n >= 7 {
            subvec(&l.text, 7, n)
        } else {
            Vec::new()
        };
        proof {
            assert(chord@ =~= spec_unbind_chord(lv[0].text));
        }
        match parse_keybind(&chord, path, l.number) {
            Err(e) => Err(e),
            Ok(kb) => {
                let ghost kbg: KeyBinding = kb;
                let mut ms = ms;
                let ghost pre: Seq<Mode> = ms@;
                let mut m = ms.remove(cur);
                let ghost mpre: Mode = m;
                m.push_unbind(kb);
                let ghost mfin: Mode = m;
                ms.insert(cur, m);
                proof {
                    assert(binding_views(mfin.unbinds@) =~= binding_views(mpre.unbinds@) + seq![
                        kbg@,
                    ]);
                    assert(mv[cur as int] == mpre@);
                    assert(pre.remove(cur as int).insert(cur as int, mfin) =~= pre.update(
                        cur as int,
                        mfin,
                    ));
                    assert(mode_views(pre.update(cur as int, mfin)) =~= mode_views(pre).update(
                        cur as int,
                        mfin@,
                    ));
                    assert(mode_views(ms@) == g_push_unbind(mv, cur as int, kbg@));
                }
                parse_body(ls, ms, cur, path)
            },
        }
    } else if l.kind == LineKind::ModeStart {
        match mode_decl(&l.text) {
            None => parse_body(ls, ms, cur, path),
            Some(decl) => {
                let (name, opts) = decl;
                match find_mode(&ms, &name) {
                    Some(i) => parse_body(ls, ms, i, path),
                    None => {
                        let nm = chars_string(&name);
                        let mut ms = ms;
                        let ghost pre: Seq<Mode> = ms@;
                        let newcur = ms.len();
                        ms.push(Mode::empty(nm, opts));
                        proof {
                            assert(mode_views(ms@) =~= mode_views(pre) + seq![ms@.last()@]);
                            assert(ms@.last()@ =~= (ModeView {
                                name: name@,
                                hotkeys: Seq::empty(),
                                unbinds: Seq::empty(),
                                options: opts,
                            }));
                            assert(mode_views(ms@) =~= mode_views(pre) + seq![
                                ModeView {
                                    name: name@,
                                    hotkeys: Seq::empty(),
                                    unbinds: Seq::empty(),
                                    options: opts,
                                },
                            ]);
                        }
                        parse_body(ls, ms, newcur, path)
                    },
                }
            },
        }
    } else if l.kind == LineKind::ModeEnd {
        parse_body(ls, ms, 0, path)
    } else {
        parse_body(ls, ms, cur, path)
    }
}

/// The parse of one file's text: the root mode `normal` always exists
/// and has index 0; the body stream is classified, joined and walked.
pub open spec fn spec_parse_contents(contents: Seq<char>) -> Result<
    Seq<ModeView>,
    (ChordKind, u32),
> {
    spec_body(
        spec_join(spec_stream(split_on(contents, '\n'), 1)),
        seq![
            ModeView {
                name: "normal"@,
                hotkeys: Seq::empty(),
                unbinds: Seq::empty(),
                options: ModeOptions { swallow: false, oneoff: false },
            },
        ],
        0,
    )
}

/// Parses one configuration text into its modes.  Any bad chord aborts
/// the whole file with an error naming `path`, the offending line and
/// what was wrong; no modes are returned then.
pub fn parse_contents(path: &str, contents: &str) -> (r: Result<Vec<Mode>, Error>)
    ensures
        (spec_parse_contents(contents@) matches Ok(gms) ==> (r matches Ok(v) && mode_views(v@)
            == gms)),
        (spec_parse_contents(contents@) matches Err(en) ==> (r matches Err(e) && (e
            matches Error::InvalidConfig(pe) && pe.kind == en.0 && pe.line == en.1 && pe.path@
            == path@))),
{
    let chars = str_chars(contents);
    let (body, _imports) = classify_lines(&chars);
    let joined = join_lines(body);
    let mut ms: Vec<Mode> = Vec::new();
    let root_name = String::from_str("normal");
    ms.push(
        Mode::empty(root_name, ModeOptions { swallow: false, oneoff: false }),
    );
    proof {
        assert(mode_views(ms@).len() == 1);
        assert(mode_views(ms@)[0] =~= (ModeView {
            name: "normal"@,
            hotkeys: Seq::empty(),
            unbinds: Seq::empty(),
            options: ModeOptions { swallow: false, oneoff: false },
        }));
        assert(mode_views(ms@) =~= seq![
            ModeView {
                name: "normal"@,
                hotkeys: Seq::empty(),
                unbinds: Seq::empty(),
                options: ModeOptions { swallow: false, oneoff: false },
            },
        ]);
    }
    parse_body(joined, ms, 0, path)
}

/// Collects the import paths of a configuration text, in order.
pub fn extract_imports(contents: &str) -> (r: Vec<String>)
    ensures
        r@.map_values(|s: String| s@) == spec_imports(split_on(contents@, '\n')),
{
    let chars = str_chars(contents);
    let (_body, imports) = classify_lines(&chars);
    let mut r: Vec<String> = Vec::new();
    let mut rest = imports;
    let ghost all: Seq<Seq<char>> = seq_views(rest@);
    while rest.len() > 0
        invariant
            r@.map_values(|s: String| s@) + seq_views(rest@) == all,
        decreases rest@.len(),
    {
        let ghost pre: Seq<Seq<char>> = seq_views(rest@);
        let ghost rv: Seq<Seq<char>> = r@.map_values(|s: String| s@);
        let p = rest.remove(0);
        let s = chars_string(&p);
        r.push(s);
        proof {
            assert(seq_views(rest@) =~= pre.drop_first());
            assert(r@.map_values(|s: String| s@) =~= rv.push(pre[0]));
            assert(rv.push(pre[0]) + pre.drop_first() =~= rv + pre);
        }
    }
    proof {
        assert(r@.map_values(|s: String| s@) =~= r@.map_values(|s: String| s@) + seq_views(
            rest@,
        ));
    }
    r
}

/// Inserts each of `new` into `hs` in order, the later definition of a
/// chord always replacing the earlier.
pub open spec fn g_insert_all(hs: Seq<HotkeyView>, new: Seq<HotkeyView>) -> Seq<HotkeyView>
    decreases new.len(),
{
    if new.len() == 0 {
        hs
    } else {
        g_insert_all(gstrip(hs, new[0].keybind) + seq![new[0]], new.drop_first())
    }
}

/// Merges one mode into a mode list: a mode of the same name absorbs
/// its hotkeys (overriding equal chords), its unbinds, and takes its
/// options; a new name is appended.
pub open spec fn g_merge_one(base: Seq<ModeView>, m: ModeView) -> Seq<ModeView> {
    let i = g_find_mode(base, m.name);
    if 0 <= i < base.len() {
        base.update(
            i,
            ModeView {
                name: base[i].name,
                hotkeys: g_insert_all(base[i].hotkeys, m.hotkeys),
                unbinds: base[i].unbinds + m.unbinds,
                options: m.options,
            },
        )
    } else {
        base + seq![m]
    }
}

/// Merges a whole parse result into `base`, mode by mode.
pub open spec fn g_merge(base: Seq<ModeView>, extra: Seq<ModeView>) -> Seq<ModeView>
    decreases extra.len(),
{
    if extra.len() == 0 {
        base
    } else {
        g_merge(g_merge_one(base, extra[0]), extra.drop_first())
    }
}

/// Merges one parsed mode into the accumulated mode list.
fn merge_one(base: Vec<Mode>, m: Mode) -> (r: Vec<Mode>)
    ensures
        mode_views(r@) == g_merge_one(mode_views(base@), m@),
        r@.len() >= base@.len(),
{
    let ghost bv: Seq<ModeView> = mode_views(base@);
    let ghost mv: ModeView = m@;
    let name_chars = str_chars(m.name.as_str());
    let mut base = base;
    match find_mode(&base, &name_chars) {
        None => {
            base.push(m);
            proof {
                assert(mode_views(base@) =~= bv + seq![mv]);
            }
            base
        },
        Some(i) => {
            let ghost pre: Seq<Mode> = base@;
            let mut target = base.remove(i);
            let ghost t0: Mode = target;
            let Mode { name: _, hotkeys, unbinds, options } = m;
            let mut hs = hotkeys;
            proof {
                assert(hotkey_views(hs@) == mv.hotkeys);
            }
            while hs.len() > 0
                invariant
                    g_insert_all(t0@.hotkeys, mv.hotkeys) == g_insert_all(
                        hotkey_views(target.hotkeys@),
                        hotkey_views(hs@),
                    ),
                    target.name == t0.name,
                    target.unbinds == t0.unbinds,
                    target.options == t0.options,
                decreases hs@.len(),
            {
                let ghost hpre: Seq<Hotkey> = hs@;
                let ghost tpre: Mode = target;
                let h = hs.remove(0);
                let ghost hv: HotkeyView = h@;
                let ghost kbg: KeyBinding = h.keybind;
                target.insert_hotkey(h);
                proof {
                    assert(hotkey_views(hs@) =~= hotkey_views(hpre).drop_first());
                    assert(hotkey_views(hpre)[0] == hv);
                    lemma_strip_view(tpre.hotkeys@, kbg);
                    assert(hotkey_views(target.hotkeys@) =~= gstrip(
                        hotkey_views(tpre.hotkeys@),
                        hv.keybind,
                    ) + seq![hv]);
                }
            }
            proof {
                assert(hotkey_views(hs@) =~= Seq::<HotkeyView>::empty());
                assert(hotkey_views(target.hotkeys@) == g_insert_all(t0@.hotkeys, mv.hotkeys));
            }
            let mut ubs = unbinds;
            let ghost t1: Mode = target;
            proof {
                assert(binding_views(ubs@) == mv.unbinds);
            }
            while ubs.len() > 0
                invariant
                    binding_views(target.unbinds@) + binding_views(ubs@) == binding_views(
                        t1.unbinds@,
                    ) + mv.unbinds,
                    target.name == t1.name,
                    target.hotkeys == t1.hotkeys,
                    target.options == t1.options,
                decreases ubs@.len(),
            {
                let ghost upre: Seq<KeyBinding> = ubs@;
                let ghost tpre: Mode = target;
                let ub = ubs.remove(0);
                let ghost ubv: BindingView = ub@;
                target.push_unbind(ub);
                proof {
                    assert(binding_views(ubs@) =~= binding_views(upre).drop_first());
                    assert(binding_views(upre)[0] == ubv);
                    assert(binding_views(target.unbinds@) =~= binding_views(tpre.unbinds@).push(
                        ubv,
                    ));
                    assert(binding_views(tpre.unbinds@).push(ubv) + binding_views(upre).drop_first()
                        =~= binding_views(tpre.unbinds@) + binding_views(upre));
                }
            }
            proof {
                assert(binding_views(ubs@) =~= Seq::<BindingView>::empty());
                assert(binding_views(target.unbinds@) =~= binding_views(target.unbinds@)
                    + binding_views(ubs@));
                assert(binding_views(target.unbinds@) =~= t1@.unbinds + mv.unbinds);
            }
            target.options = options;
            let ghost tfin: Mode = target;
            base.insert(i, target);
            proof {
                assert(pre.remove(i as int).insert(i as int, tfin) =~= pre.update(i as int, tfin));
                assert(mode_views(pre.update(i as int, tfin)) =~= mode_views(pre).update(
                    i as int,
                    tfin@,
                ));
                assert(tfin@ =~= (ModeView {
                    name: bv[i as int].name,
                    hotkeys: g_insert_all(bv[i as int].hotkeys, mv.hotkeys),
                    unbinds: bv[i as int].unbinds + mv.unbinds,
                    options: mv.options,
                }));
                assert(mode_views(base@) =~= g_merge_one(bv, mv));
            }
            base
        },
    }
}

/// Merges a later parse result into `base`: its definitions override
/// equal chords, its modes join modes of the same name.
pub fn merge_modes(base: Vec<Mode>, extra: Vec<Mode>) -> (r: Vec<Mode>)
    ensures
        mode_views(r@) == g_merge(mode_views(base@), mode_views(extra@)),
        r@.len() >= base@.len(),
{
    let ghost bv: Seq<ModeView> = mode_views(base@);
    let ghost ev: Seq<ModeView> = mode_views(extra@);
    let mut acc = base;
    let mut rest = extra;
    let ghost n0: int = acc@.len() as int;
    while rest.len() > 0
        invariant
            g_merge(bv, ev) == g_merge(mode_views(acc@), mode_views(rest@)),
            acc@.len() >= n0,
        decreases rest@.len(),
    {
        let ghost rpre: Seq<Mode> = rest@;
        let m = rest.remove(0);
        proof {
            assert(mode_views(rest@) =~= mode_views(rpre).drop_first());
            assert(mode_views(rpre)[0] == m@);
        }
        acc = merge_one(acc, m);
    }
    proof {
        assert(mode_views(rest@) =~= Seq::<ModeView>::empty());
    }
    acc
}

/// Applies every mode's unbind directives to its own hotkeys.
pub open spec fn g_finalize(ms: Seq<ModeView>) -> Seq<ModeView> {
    ms.map_values(
        |m: ModeView|
            ModeView {
                name: m.name,
                hotkeys: gunbind(m.hotkeys, m.unbinds),
                unbinds: m.unbinds,
                options: m.options,
            },
    )
}

/// Applies the unbind directives of every mode, after all merges.
pub fn finalize_modes(ms: Vec<Mode>) -> (r: Vec<Mode>)
    ensures
        mode_views(r@) == g_finalize(mode_views(ms@)),
{
    let ghost mv: Seq<ModeView> = mode_views(ms@);
    let mut out: Vec<Mode> = Vec::new();
    let mut rest = ms;
    while rest.len() > 0
        invariant
            out@.len() + rest@.len() == mv.len(),
            forall|j: int| 0 <= j < out@.len() ==> mode_views(out@)[j] == g_finalize(mv)[j],
            forall|k: int| 0 <= k < rest@.len() ==> mode_views(rest@)[k] == mv[out@.len() + k],
        decreases rest@.len(),
    {
        let ghost rpre: Seq<Mode> = rest@;
        let ghost done: int = out@.len() as int;
        let mut m = rest.remove(0);
        let ghost mpre: Mode = m;
        proof {
            assert(mode_views(rpre)[0] == mpre@);
            assert(mpre@ == mv[done]);
        }
        apply_unbinds(&mut m);
        proof {
            lemma_unbind_view(mpre.hotkeys@, mpre.unbinds@);
            assert(m@ =~= (ModeView {
                name: mv[done].name,
                hotkeys: gunbind(mv[done].hotkeys, mv[done].unbinds),
                unbinds: mv[done].unbinds,
                options: mv[done].options,
            }));
            assert(m@ == g_finalize(mv)[done]);
        }
        out.push(m);
        proof {
            assert forall|k: int|
                0 <= k < rest@.len() implies mode_views(rest@)[k] == mv[out@.len() + k] by {
                assert(mode_views(rest@)[k] == mode_views(rpre)[k + 1]);
            }
        }
    }
    proof {
        assert(mode_views(out@) =~= g_finalize(mv));
    }
    out
}

/// The values of a list of (path, contents) pairs.
pub open spec fn file_views(fs: Seq<(String, String)>) -> Seq<(Seq<char>, Seq<char>)> {
    fs.map_values(|f: (String, String)| (f.0@, f.1@))
}

/// The first file whose parse fails, with the error's kind and line.
pub open spec fn spec_load_err(fs: Seq<(Seq<char>, Seq<char>)>) -> Option<(int, ChordKind, u32)>
    decreases fs.len(),
{
    if fs.len() == 0 {
        None
    } else {
        match spec_parse_contents(fs[0].1) {
            Err(en) => Some((0, en.0, en.1)),
            Ok(_) => match spec_load_err(fs.drop_first()) {
                None => None,
                Some(t) => Some((t.0 + 1, t.1, t.2)),
            },
        }
    }
}

proof fn lemma_load_err_at(fs: Seq<(Seq<char>, Seq<char>)>, i: int)
    requires
        0 <= i < fs.len(),
        spec_parse_contents(fs[i].1) is Err,
        forall|j: int| 0 <= j < i ==> spec_parse_contents(#[trigger] fs[j].1) is Ok,
    ensures
        (spec_load_err(fs) matches Some(t) && t.0 == i && t.1 == spec_parse_contents(
            fs[i].1,
        )->Err_0.0 && t.2 == spec_parse_contents(fs[i].1)->Err_0.1),
    decreases i,
{
    if i > 0 {
        assert forall|j: int|
            0 <= j < i - 1 implies spec_parse_contents(#[trigger] fs.drop_first()[j].1) is Ok by {
            assert(fs.drop_first()[j] == fs[j + 1]);
        }
        assert(fs.drop_first()[i - 1] == fs[i]);
        lemma_load_err_at(fs.drop_first(), i - 1);
    }
}

proof fn lemma_load_err_none(fs: Seq<(Seq<char>, Seq<char>)>)
    requires
        forall|j: int| 0 <= j < fs.len() ==> spec_parse_contents(#[trigger] fs[j].1) is Ok,
    ensures
        spec_load_err(fs) is None,
    decreases fs.len(),
{
    if fs.len() > 0 {
        assert forall|j: int|
            0 <= j < fs.len() - 1 implies spec_parse_contents(
            #[trigger] fs.drop_first()[j].1,
        ) is Ok by {
            assert(fs.drop_first()[j] == fs[j + 1]);
        }
        lemma_load_err_none(fs.drop_first());
    }
}

/// The parse result of every file, under the assumption that all parse.
pub open spec fn g_parsed(fs: Seq<(Seq<char>, Seq<char>)>) -> Seq<Seq<ModeView>> {
    fs.map_values(|f: (Seq<char>, Seq<char>)| spec_parse_contents(f.1)->Ok_0)
}

/// Folds the parse results together, the first file applied last, so
/// that the root file's definitions override those of its imports.
pub open spec fn g_merge_all(parsed: Seq<Seq<ModeView>>) -> Seq<ModeView>
    decreases parsed.len(),
{
    if parsed.len() == 0 {
        Seq::empty()
    } else if parsed.len() == 1 {
        parsed[0]
    } else {
        g_merge(g_merge_all(parsed.drop_first()), parsed[0])
    }
}

/// The fully loaded configuration of a file list: every file parsed,
/// the results merged with the first (root) file applied last, and each
/// mode's unbind directives applied after all merges.
pub open spec fn spec_load(fs: Seq<(Seq<char>, Seq<char>)>) -> Seq<ModeView> {
    g_finalize(g_merge_all(g_parsed(fs)))
}

/// The values of a parsed-file list.
pub open spec fn parsed_views(s: Seq<Vec<Mode>>) -> Seq<Seq<ModeView>> {
    s.map_values(|v: Vec<Mode>| mode_views(v@))
}

/// Loads a configuration from its resolved file list: `files[0]` is the
/// root file, the rest are its imports in discovery order.  The first
/// file with a bad chord fails the whole load with that file's error;
/// otherwise the parses are merged (root last, so the root overrides
/// its imports) and every mode's unbinds are applied.
pub fn load(files: &Vec<(String, String)>) -> (r: Result<Vec<Mode>, Error>)
    ensures
        (spec_load_err(file_views(files@)) matches Some(t) ==> (r matches Err(e) && (e
            matches Error::InvalidConfig(pe) && pe.kind == t.1 && pe.line == t.2 && pe.path@
            == files@[t.0].0@))),
        spec_load_err(file_views(files@)) is None ==> (r matches Ok(v) && mode_views(v@)
            == spec_load(file_views(files@))),
{
    let ghost fv: Seq<(Seq<char>, Seq<char>)> = file_views(files@);
    let mut parsed: Vec<Vec<Mode>> = Vec::new();
    let mut i: usize = 0;
    while i < files.len()
        invariant
            i <= files@.len(),
            fv == file_views(files@),
            parsed@.len() == i,
            forall|j: int| 0 <= j < i ==> spec_parse_contents(#[trigger] fv[j].1) is Ok,
            forall|j: int|
                0 <= j < i ==> parsed_views(parsed@)[j] == spec_parse_contents(
                    #[trigger] fv[j].1,
                )->Ok_0,
        decreases files@.len() - i,
    {
        proof {
            assert(fv[i as int].1 == files@[i as int].1@);
        }
        match parse_contents(files[i].0.as_str(), files[i].1.as_str()) {
            Err(e) => {
                proof {
                    lemma_load_err_at(fv, i as int);
                }
                return Err(e);
            },
            Ok(ms) => {
                parsed.push(ms);
                proof {
                    assert(parsed_views(parsed@)[i as int] == mode_views(parsed@.last()@));
                }
            },
        }
        i += 1;
    }
    proof {
        lemma_load_err_none(fv);
        assert(parsed_views(parsed@) =~= g_parsed(fv));
    }
    let ghost pv: Seq<Seq<ModeView>> = parsed_views(parsed@);
    if parsed.len() == 0 {
        let empty_out: Vec<Mode> = Vec::new();
        proof {
            assert(mode_views(empty_out@) =~= Seq::<ModeView>::empty());
            assert(g_finalize(g_merge_all(pv)) =~= Seq::<ModeView>::empty());
        }
        return Ok(empty_out);
    }
    let mut parsed = parsed;
    let mut acc = match parsed.pop() {
        Some(v) => v,
        None => Vec::new(),
    };
    proof {
        assert(parsed_views(parsed@) =~= pv.drop_last());
        assert(parsed_views(parsed@) =~= pv.take(pv.len() - 1));
        assert(mode_views(acc@) == pv[pv.len() - 1]);
        assert(pv.skip(pv.len() - 1) =~= seq![pv[pv.len() - 1]]);
        assert(g_merge_all(pv.skip(pv.len() - 1)) == pv[pv.len() - 1]);
    }
    while parsed.len() > 0
        invariant
            parsed@.len() < pv.len(),
            parsed_views(parsed@) == pv.take(parsed@.len() as int),
            mode_views(acc@) == g_merge_all(pv.skip(parsed@.len() as int)),
        decreases parsed@.len(),
    {
        let ghost k: int = parsed@.len() as int;
        let nxt = match parsed.pop() {
            Some(v) => v,
            None => Vec::new(),
        };
        proof {
            assert(parsed_views(parsed@) =~= pv.take(k).drop_last());
            assert(parsed_views(parsed@) =~= pv.take(k - 1));
            assert(mode_views(nxt@) == pv.take(k)[k - 1]);
            assert(mode_views(nxt@) == pv[k - 1]);
        }
        acc = merge_modes(acc, nxt);
        proof {
            assert(pv.skip(k - 1).drop_first() =~= pv.skip(k));
            assert(pv.skip(k - 1)[0] == pv[k - 1]);
            assert(pv.skip(k - 1).len() >= 2);
            assert(g_merge_all(pv.skip(k - 1)) == g_merge(
                g_merge_all(pv.skip(k)),
                pv[k - 1],
            ));
        }
    }
    proof {
        assert(pv.skip(0) =~= pv);
    }
    let out = finalize_modes(acc);
    Ok(out)
}

/// When `c` occurs in `s`, `find_char` finds it.
proof fn lemma_find_count(s: Seq<char>, c: char)
    ensures
        count_char(s, c) >= 0,
        count_char(s, c) > 0 ==> find_char(s, c) >= 0,
        count_char(s, c) == 0 ==> find_char(s, c) < 0,
    decreases s.len(),
{
    if s.len() > 0 {
        lemma_find_count(s.drop_first(), c);
    }
}

/// A comma scan yields at least one token, and expansion keeps at least
/// as many.
proof fn lemma_expand_nonempty(inner: Seq<char>)
    ensures
        spec_expand_tokens(spec_comma_scan(inner, Seq::empty())).len() >= 1,
{
    lemma_scan_nonempty(inner, Seq::empty());
    lemma_expand_tokens_len(spec_comma_scan(inner, Seq::empty()));
}

proof fn lemma_scan_nonempty(s: Seq<char>, cur: Seq<char>)
    ensures
        spec_comma_scan(s, cur).len() >= 1,
    decreases s.len(),
{
    if s.len() == 0 {
    } else if s[0] == '\\' && s.len() > 1 && s[1] == ',' {
        lemma_scan_nonempty(s.skip(2), cur.push(','));
    } else if s[0] == ',' {
        lemma_scan_nonempty(s.drop_first(), Seq::empty());
    } else {
        lemma_scan_nonempty(s.drop_first(), cur.push(s[0]));
    }
}

proof fn lemma_expand_tokens_len(ts: Seq<Seq<char>>)
    ensures
        spec_expand_tokens(ts).len() >= ts.len(),
    decreases ts.len(),
{
    if ts.len() > 0 {
        lemma_expand_tokens_len(ts.drop_first());
    }
}

} // verus!
