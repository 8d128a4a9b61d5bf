use vstd::prelude::*;
use crate::number::{digit_text, int_text, magnitude_text, nat_digits, plain_limit, render, zeros};
use crate::value::{JsonModel, JsonObject, JsonValue, model_wf, view_values, view_entries, lemma_view_values, lemma_view_entries};

verus! {

// ----- the compact text -----

/// The lower-case hexadecimal digit of `d` (below 16).
pub open spec fn hex_digit(d: int) -> char {
    if d < 10 {
        (d + 48) as char
    } else {
        (d + 87) as char
    }
}

/// The escaped form of one character inside a string literal: a short
/// escape where JSON has one, `\u00XX` for the other control characters,
/// and the character itself otherwise.
pub open spec fn escape_char(c: char) -> Seq<char> {
    if c == '"' {
        seq!['\\', '"']
    } else if c == '\\' {
        seq!['\\', '\\']
    } else if c == '\n' {
        seq!['\\', 'n']
    } else if c == '\t' {
        seq!['\\', 't']
    } else if c == '\u{8}' {
        seq!['\\', 'b']
    } else if c == '\u{c}' {
        seq!['\\', 'f']
    } else if c == '\r' {
        seq!['\\', 'r']
    } else if (c as u32) < 0x20 {
        seq!['\\', 'u', '0', '0', hex_digit(((c as u32) / 16) as int), hex_digit(((c as u32) % 16) as int)]
    } else {
        seq![c]
    }
}

/// The characters of `s`, escaped.
pub open spec fn escaped(s: Seq<char>) -> Seq<char>
    decreases s.len(),
{
    if s.len() == 0 {
        Seq::empty()
    } else {
        escaped(s.drop_last()) + escape_char(s.last())
    }
}

/// A string literal for `s`.
pub open spec fn quoted(s: Seq<char>) -> Seq<char> {
    seq!['"'] + escaped(s) + seq!['"']
}

pub open spec fn text_null() -> Seq<char> {
    seq!['n', 'u', 'l', 'l']
}

pub open spec fn text_true() -> Seq<char> {
    seq!['t', 'r', 'u', 'e']
}

pub open spec fn text_false() -> Seq<char> {
    seq!['f', 'a', 'l', 's', 'e']
}

/// The text of a scalar (a value that is neither an array nor an object).
pub open spec fn scalar_text(v: JsonModel) -> Seq<char> {
    match v {
        JsonModel::Null => text_null(),
        JsonModel::Bool(b) => if b {
            text_true()
        } else {
            text_false()
        },
        JsonModel::Number(n) => render(n),
        JsonModel::String(s) => quoted(s),
        _ => Seq::empty(),
    }
}

/// The compact JSON text of a document.
pub open spec fn compact(v: JsonModel) -> Seq<char>
    decreases v,
{
    match v {
        JsonModel::Array(items) => seq!['['] + compact_items(items) + seq![']'],
        JsonModel::Object(es) => seq!['{'] + compact_members(es) + seq!['}'],
        _ => scalar_text(v),
    }
}

/// Array elements, separated by commas.
pub open spec fn compact_items(items: Seq<JsonModel>) -> Seq<char>
    decreases items,
{
    if items.len() == 0 {
        Seq::empty()
    } else {
        let init = items.subrange(0, items.len() - 1);
        (if init.len() == 0 {
            Seq::empty()
        } else {
            compact_items(init) + seq![',']
        }) + compact(items[items.len() - 1])
    }
}

/// Object members `"key":value`, separated by commas.
pub open spec fn compact_members(es: Seq<(Seq<char>, JsonModel)>) -> Seq<char>
    decreases es,
{
    if es.len() == 0 {
        Seq::empty()
    } else {
        let init = es.subrange(0, es.len() - 1);
        (if init.len() == 0 {
            Seq::empty()
        } else {
            compact_members(init) + seq![',']
        }) + quoted(es[es.len() - 1].0) + seq![':'] + compact(es[es.len() - 1].1)
    }
}

// ----- the indented text -----

/// Two spaces per level.
pub open spec fn indentation(level: nat) -> Seq<char> {
    Seq::new(2 * level, |i: int| ' ')
}

/// The JSON text of a document indented by two spaces per level, starting at `level`.
pub open spec fn pretty(v: JsonModel, level: nat) -> Seq<char>
    decreases v,
{
    match v {
        JsonModel::Array(items) => if items.len() == 0 {
            seq!['[', ']']
        } else {
            seq!['['] + pretty_items(items, level) + seq!['\n'] + indentation(level) + seq![']']
        },
        JsonModel::Object(es) => if es.len() == 0 {
            seq!['{', '}']
        } else {
            seq!['{'] + pretty_members(es, level) + seq!['\n'] + indentation(level) + seq!['}']
        },
        _ => scalar_text(v),
    }
}

/// Each element on its own line one level deeper, separated by commas.
pub open spec fn pretty_items(items: Seq<JsonModel>, level: nat) -> Seq<char>
    decreases items,
{
    if items.len() == 0 {
        Seq::empty()
    } else {
        let init = items.subrange(0, items.len() - 1);
        (if init.len() == 0 {
            Seq::empty()
        } else {
            pretty_items(init, level) + seq![',']
        }) + seq!['\n'] + indentation(level + 1) + pretty(items[items.len() - 1], level + 1)
    }
}

/// Each member `"key": value` on its own line one level deeper, separated by commas.
pub open spec fn pretty_members(es: Seq<(Seq<char>, JsonModel)>, level: nat) -> Seq<char>
    decreases es,
{
    if es.len() == 0 {
        Seq::empty()
    } else {
        let init = es.subrange(0, es.len() - 1);
        (if init.len() == 0 {
            Seq::empty()
        } else {
            pretty_members(init, level) + seq![',']
        }) + seq!['\n'] + indentation(level + 1) + quoted(es[es.len() - 1].0) + seq![':', ' ']
            + pretty(es[es.len() - 1].1, level + 1)
    }
}

// ----- the indented text at another level -----

/// `s` with `k` more levels of indentation after each line break.
pub open spec fn reindent(s: Seq<char>, k: nat) -> Seq<char>
    decreases s.len(),
{
    if s.len() == 0 {
        Seq::empty()
    } else {
        reindent(s.drop_last(), k) + if s.last() == '\n' {
            seq!['\n'] + indentation(k)
        } else {
            seq![s.last()]
        }
    }
}

/// A text without line breaks.
pub open spec fn single_line(s: Seq<char>) -> bool {
    forall|i: int| 0 <= i < s.len() ==> s[i] != '\n'
}

proof fn lemma_reindent_concat(a: Seq<char>, b: Seq<char>, k: nat)
    ensures
        reindent(a + b, k) == reindent(a, k) + reindent(b, k),
    decreases b.len(),
{
    if b.len() == 0 {
        assert(a + b =~= a);
        assert(reindent(a, k) + reindent(b, k) =~= reindent(a, k));
    } else {
        lemma_reindent_concat(a, b.drop_last(), k);
        assert((a + b).drop_last() =~= a + b.drop_last());
        assert((a + b).last() == b.last());
        assert(reindent(a + b, k) =~= reindent(a, k) + reindent(b, k));
    }
}

proof fn lemma_reindent_single(s: Seq<char>, k: nat)
    requires
        single_line(s),
    ensures
        reindent(s, k) == s,
    decreases s.len(),
{
    if s.len() > 0 {
        lemma_reindent_single(s.drop_last(), k);
        assert(s.last() == s[s.len() - 1]);
        assert(reindent(s, k) =~= s);
    }
}

proof fn lemma_reindent_break(l: nat, k: nat)
    ensures
        reindent(seq!['\n'] + indentation(l), k) == seq!['\n'] + indentation(l + k),
{
    lemma_reindent_concat(seq!['\n'], indentation(l), k);
    lemma_reindent_single(indentation(l), k);
    let nl = seq!['\n'];
    assert(nl.drop_last() =~= Seq::<char>::empty());
    assert(nl.last() == '\n');
    assert(reindent(nl.drop_last(), k) == Seq::<char>::empty());
    assert(reindent(nl, k) =~= seq!['\n'] + indentation(k));
    assert(seq!['\n'] + indentation(k) + indentation(l) =~= seq!['\n'] + indentation(l + k));
}

proof fn lemma_single_concat(a: Seq<char>, b: Seq<char>)
    requires
        single_line(a),
        single_line(b),
    ensures
        single_line(a + b),
{
    assert forall|i: int| 0 <= i < (a + b).len() implies (a + b)[i] != '\n' by {
        if i < a.len() {
            assert((a + b)[i] == a[i]);
        } else {
            assert((a + b)[i] == b[i - a.len()]);
        }
    }
}

/// A hexadecimal digit: what it reads as, and that it is plain text.
pub(crate) proof fn lemma_hex_digit(d: int)
    requires
        0 <= d < 16,
    ensures
        crate::lexer::is_hex(hex_digit(d)),
        crate::lexer::hex_value(hex_digit(d)) == d,
        plain_char(hex_digit(d)),
{
    if d < 10 {
        assert(hex_digit(d) as int == d + 48);
    } else {
        assert(hex_digit(d) as int == d + 87);
    }
}

/// The parts of the `\u00XX` escape of a control character.
pub(crate) proof fn lemma_control_escape(c: char)
    requires
        (c as u32) < 0x20,
    ensures
        (c as u32) / 16 < 2,
        (c as u32) % 16 < 16,
        16 * ((c as u32) / 16) + (c as u32) % 16 == c as u32,
{
}

proof fn lemma_escape_char_single(c: char)
    ensures
        single_line(escape_char(c)),
{
    let e = escape_char(c);
    if c != '"' && c != '\\' && c != '\n' && c != '\t' && c != '\u{8}' && c != '\u{c}' && c != '\r'
        && (c as u32) < 0x20 {
        lemma_control_escape(c);
        lemma_hex_digit(((c as u32) / 16) as int);
        lemma_hex_digit(((c as u32) % 16) as int);
    }
    assert forall|i: int| 0 <= i < e.len() implies e[i] != '\n' by {
        if e.len() == 1 {
            assert(e[0] == c);
        }
    }
}

proof fn lemma_escaped_single(s: Seq<char>)
    ensures
        single_line(escaped(s)),
    decreases s.len(),
{
    if s.len() > 0 {
        lemma_escaped_single(s.drop_last());
        lemma_escape_char_single(s.last());
        lemma_single_concat(escaped(s.drop_last()), escape_char(s.last()));
    }
}

proof fn lemma_digit_text_single(ds: Seq<u8>)
    ensures
        single_line(digit_text(ds)),
{
    assert forall|i: int| 0 <= i < digit_text(ds).len() implies digit_text(ds)[i] != '\n' by {
        let d = ds[i];
        assert(digit_text(ds)[i] == crate::text::digit_char(d as int));
        assert(crate::text::digit_char(d as int) as int == d + 48);
    }
}

proof fn lemma_single_sub(s: Seq<char>, i: int, j: int)
    requires
        single_line(s),
        0 <= i <= j <= s.len(),
    ensures
        single_line(s.subrange(i, j)),
{
    assert forall|t: int| 0 <= t < j - i implies s.subrange(i, j)[t] != '\n' by {
        assert(s.subrange(i, j)[t] == s[i + t]);
    }
}

proof fn lemma_zeros_single(n: nat)
    ensures
        single_line(zeros(n)),
{
    assert forall|t: int| 0 <= t < zeros(n).len() implies zeros(n)[t] != '\n' by {
        assert(zeros(n)[t] == '0');
    }
}

proof fn lemma_render_single(m: crate::number::NumberModel)
    ensures
        single_line(render(m)),
{
    let n = m.digits.len() as int;
    let e = m.exponent;
    let d = digit_text(m.digits);
    lemma_digit_text_single(m.digits);
    assert(d.len() == n);
    if -n < e < 0 {
        lemma_single_sub(d, 0, n + e);
        lemma_single_sub(d, n + e, n);
        assert(d.take(n + e) =~= d.subrange(0, n + e));
        assert(d.skip(n + e) =~= d.subrange(n + e, n));
    }
    if n >= 1 {
        lemma_single_sub(d, 0, 1);
        lemma_single_sub(d, 1, n);
        assert(d.take(1) =~= d.subrange(0, 1));
        assert(d.skip(1) =~= d.subrange(1, n));
    }
    if e <= -n {
        lemma_zeros_single((-e - n) as nat);
    }
    if e >= 0 {
        lemma_zeros_single(e as nat);
    }
    if e < 0 {
        lemma_digit_text_single(nat_digits((-e) as nat));
    } else {
        lemma_digit_text_single(nat_digits(e as nat));
    }
    let e2 = e + n - 1;
    if e2 < 0 {
        lemma_digit_text_single(nat_digits((-e2) as nat));
    } else {
        lemma_digit_text_single(nat_digits(e2 as nat));
    }
    assert(single_line(int_text(e))) by {
        if e < 0 {
            lemma_single_concat(seq!['-'], digit_text(nat_digits((-e) as nat)));
        }
    }
    assert(single_line(int_text(e2))) by {
        if e2 < 0 {
            lemma_single_concat(seq!['-'], digit_text(nat_digits((-e2) as nat)));
        }
    }
    let t = magnitude_text(m);
    assert(single_line(t)) by {
        if n == 0 {
        } else if 0 <= e <= plain_limit() {
            lemma_single_concat(d, zeros(e as nat));
        } else if -n < e < 0 {
            lemma_single_concat(d.take(n + e), seq!['.']);
            lemma_single_concat(d.take(n + e) + seq!['.'], d.skip(n + e));
        } else if -(n + plain_limit()) <= e <= -n {
            lemma_single_concat(seq!['0', '.'], zeros((-e - n) as nat));
            lemma_single_concat(seq!['0', '.'] + zeros((-e - n) as nat), d);
        } else if n == 1 {
            lemma_single_concat(d, seq!['e']);
            lemma_single_concat(d + seq!['e'], int_text(e));
        } else {
            lemma_single_concat(d.take(1), seq!['.']);
            lemma_single_concat(d.take(1) + seq!['.'], d.skip(1));
            lemma_single_concat(d.take(1) + seq!['.'] + d.skip(1), seq!['e']);
            lemma_single_concat(d.take(1) + seq!['.'] + d.skip(1) + seq!['e'], int_text(e2));
        }
    }
    if m.negative {
        lemma_single_concat(seq!['-'], t);
    }
}

proof fn lemma_scalar_single(v: JsonModel)
    ensures
        single_line(scalar_text(v)),
{
    match v {
        JsonModel::Number(n) => lemma_render_single(n),
        JsonModel::String(s) => {
            lemma_escaped_single(s);
            lemma_single_concat(seq!['"'], escaped(s));
            lemma_single_concat(seq!['"'] + escaped(s), seq!['"']);
        },
        _ => {},
    }
}

proof fn lemma_pretty_reindent(v: JsonModel, j: nat, k: nat)
    ensures
        pretty(v, j + k) == reindent(pretty(v, j), k),
    decreases v,
{
    match v {
        JsonModel::Array(items) => {
            if items.len() == 0 {
                lemma_reindent_single(seq!['[', ']'], k);
            } else {
                lemma_pretty_items_reindent(items, j, k);
                let a = seq!['['];
                let b = pretty_items(items, j);
                let c = seq!['\n'] + indentation(j);
                let e = seq![']'];
                assert(pretty(v, j) =~= a + b + c + e);
                assert(pretty(v, j + k) =~= a + pretty_items(items, j + k) + (seq!['\n'] + indentation(j + k)) + e);
                lemma_reindent_concat(a + b + c, e, k);
                lemma_reindent_concat(a + b, c, k);
                lemma_reindent_concat(a, b, k);
                lemma_reindent_single(a, k);
                lemma_reindent_single(e, k);
                lemma_reindent_break(j, k);
            }
        },
        JsonModel::Object(es) => {
            if es.len() == 0 {
                lemma_reindent_single(seq!['{', '}'], k);
            } else {
                lemma_pretty_members_reindent(es, j, k);
                let a = seq!['{'];
                let b = pretty_members(es, j);
                let c = seq!['\n'] + indentation(j);
                let e = seq!['}'];
                assert(pretty(v, j) =~= a + b + c + e);
                assert(pretty(v, j + k) =~= a + pretty_members(es, j + k) + (seq!['\n'] + indentation(j + k)) + e);
                lemma_reindent_concat(a + b + c, e, k);
                lemma_reindent_concat(a + b, c, k);
                lemma_reindent_concat(a, b, k);
                lemma_reindent_single(a, k);
                lemma_reindent_single(e, k);
                lemma_reindent_break(j, k);
            }
        },
        _ => {
            lemma_scalar_single(v);
            lemma_reindent_single(scalar_text(v), k);
        },
    }
}

proof fn lemma_pretty_items_reindent(items: Seq<JsonModel>, j: nat, k: nat)
    ensures
        pretty_items(items, j + k) == reindent(pretty_items(items, j), k),
    decreases items,
{
    if items.len() > 0 {
        let init = items.subrange(0, items.len() - 1);
        let x = items[items.len() - 1];
        let a = if init.len() == 0 {
            Seq::<char>::empty()
        } else {
            pretty_items(init, j) + seq![',']
        };
        if init.len() > 0 {
            lemma_pretty_items_reindent(init, j, k);
            lemma_reindent_concat(pretty_items(init, j), seq![','], k);
            lemma_reindent_single(seq![','], k);
        }
        assert(decreases_to!(items => items[items.len() - 1]));
        lemma_pretty_reindent(x, j + 1, k);
        let c = seq!['\n'] + indentation(j + 1);
        assert(pretty_items(items, j) =~= a + c + pretty(x, j + 1));
        assert(pretty_items(items, j + k) =~= (if init.len() == 0 {
            Seq::<char>::empty()
        } else {
            pretty_items(init, j + k) + seq![',']
        }) + (seq!['\n'] + indentation(j + k + 1)) + pretty(x, j + k + 1));
        lemma_reindent_concat(a + c, pretty(x, j + 1), k);
        lemma_reindent_concat(a, c, k);
        lemma_reindent_break(j + 1, k);
        assert(reindent(Seq::<char>::empty(), k) == Seq::<char>::empty());
        assert((j + 1) + k == j + k + 1);
    }
}

#[verifier::spinoff_prover]
#[verifier::rlimit(60)]
proof fn lemma_pretty_members_reindent(es: Seq<(Seq<char>, JsonModel)>, j: nat, k: nat)
    ensures
        pretty_members(es, j + k) == reindent(pretty_members(es, j), k),
    decreases es,
{
    if es.len() > 0 {
        let init = es.subrange(0, es.len() - 1);
        let key = es[es.len() - 1].0;
        let x = es[es.len() - 1].1;
        let a = if init.len() == 0 {
            Seq::<char>::empty()
        } else {
            pretty_members(init, j) + seq![',']
        };
        if init.len() > 0 {
            lemma_pretty_members_reindent(init, j, k);
            lemma_reindent_concat(pretty_members(init, j), seq![','], k);
            lemma_reindent_single(seq![','], k);
        }
        assert(decreases_to!(es => es[es.len() - 1]));
        assert(decreases_to!(es[es.len() - 1] => es[es.len() - 1].1));
        lemma_pretty_reindent(x, j + 1, k);
        let c = seq!['\n'] + indentation(j + 1);
        let q = quoted(key) + seq![':', ' '];
        lemma_scalar_single(JsonModel::String(key));
        lemma_single_concat(quoted(key), seq![':', ' ']);
        lemma_reindent_single(q, k);
        assert(pretty_members(es, j) =~= a + c + q + pretty(x, j + 1));
        assert(pretty_members(es, j + k) =~= (if init.len() == 0 {
            Seq::<char>::empty()
        } else {
            pretty_members(init, j + k) + seq![',']
        }) + (seq!['\n'] + indentation(j + k + 1)) + q + pretty(x, j + k + 1));
        lemma_reindent_concat(a + c + q, pretty(x, j + 1), k);
        lemma_reindent_concat(a + c, q, k);
        lemma_reindent_concat(a, c, k);
        lemma_reindent_break(j + 1, k);
        assert(reindent(Seq::<char>::empty(), k) == Seq::<char>::empty());
        assert((j + 1) + k == j + k + 1);
    }
}

/// Indenting a document `k` levels deeper puts `2k` more spaces after each
/// line break of its indented text and changes nothing else; in particular
/// `pretty(v, k)` is `pretty(v, 0)` with each line break followed by `2k`
/// spaces.
pub proof fn law_pretty_reindent(v: JsonModel, j: nat, k: nat)
    ensures
        pretty(v, j + k) == reindent(pretty(v, j), k),
{
    lemma_pretty_reindent(v, j, k);
}

// ----- the indented text without its layout -----

/// Where a reader of JSON text stands: outside string literals, inside one,
/// or inside one just after a backslash.
pub enum TextState {
    Outside,
    Inside,
    Escape,
}

/// The state after reading `c` in state `st`.
pub open spec fn next_state(st: TextState, c: char) -> TextState {
    match st {
        TextState::Outside => if c == '"' {
            TextState::Inside
        } else {
            TextState::Outside
        },
        TextState::Inside => if c == '"' {
            TextState::Outside
        } else if c == '\\' {
            TextState::Escape
        } else {
            TextState::Inside
        },
        TextState::Escape => TextState::Inside,
    }
}

/// Layout: a space or a line break outside string literals.
pub open spec fn is_layout(st: TextState, c: char) -> bool {
    st == TextState::Outside && (c == ' ' || c == '\n')
}

/// The state after reading `s` from the state `st`.
pub open spec fn state_after(s: Seq<char>, st: TextState) -> TextState
    decreases s.len(),
{
    if s.len() == 0 {
        st
    } else {
        next_state(state_after(s.drop_last(), st), s.last())
    }
}

/// `s`, read from the state `st`, without its layout.
pub open spec fn strip_from(s: Seq<char>, st: TextState) -> Seq<char>
    decreases s.len(),
{
    if s.len() == 0 {
        Seq::empty()
    } else {
        strip_from(s.drop_last(), st) + if is_layout(state_after(s.drop_last(), st), s.last()) {
            Seq::empty()
        } else {
            seq![s.last()]
        }
    }
}

/// A JSON text without the spaces and line breaks outside its string
/// literals.
pub open spec fn strip_layout(s: Seq<char>) -> Seq<char> {
    strip_from(s, TextState::Outside)
}

/// A character that is neither layout nor part of how strings are quoted.
pub open spec fn plain_char(c: char) -> bool {
    c != ' ' && c != '\n' && c != '"' && c != '\\'
}

pub open spec fn plain_text(s: Seq<char>) -> bool {
    forall|i: int| 0 <= i < s.len() ==> plain_char(#[trigger] s[i])
}

proof fn lemma_strip_concat(a: Seq<char>, b: Seq<char>, st: TextState)
    ensures
        state_after(a + b, st) == state_after(b, state_after(a, st)),
        strip_from(a + b, st) == strip_from(a, st) + strip_from(b, state_after(a, st)),
    decreases b.len(),
{
    if b.len() == 0 {
        assert(a + b =~= a);
        assert(strip_from(a, st) + strip_from(b, state_after(a, st)) =~= strip_from(a, st));
    } else {
        lemma_strip_concat(a, b.drop_last(), st);
        assert((a + b).drop_last() =~= a + b.drop_last());
        assert((a + b).last() == b.last());
        assert(strip_from(a + b, st) =~= strip_from(a, st) + strip_from(b, state_after(a, st)));
    }
}

/// Two texts read from outside string literals, each ending outside one.
proof fn lemma_strip_two(a: Seq<char>, b: Seq<char>)
    requires
        state_after(a, TextState::Outside) == TextState::Outside,
        state_after(b, TextState::Outside) == TextState::Outside,
    ensures
        state_after(a + b, TextState::Outside) == TextState::Outside,
        strip_layout(a + b) == strip_layout(a) + strip_layout(b),
{
    lemma_strip_concat(a, b, TextState::Outside);
}

proof fn lemma_strip_plain(s: Seq<char>)
    requires
        plain_text(s),
    ensures
        state_after(s, TextState::Outside) == TextState::Outside,
        strip_layout(s) == s,
    decreases s.len(),
{
    if s.len() > 0 {
        assert(plain_text(s.drop_last()));
        assert(plain_char(s[s.len() - 1]));
        lemma_strip_plain(s.drop_last());
        assert(strip_layout(s) =~= s);
    }
}

/// Spaces and line breaks only.
proof fn lemma_strip_blank(s: Seq<char>)
    requires
        forall|i: int| 0 <= i < s.len() ==> s[i] == ' ' || s[i] == '\n',
    ensures
        state_after(s, TextState::Outside) == TextState::Outside,
        strip_layout(s) == Seq::<char>::empty(),
    decreases s.len(),
{
    if s.len() > 0 {
        lemma_strip_blank(s.drop_last());
        assert(s.last() == s[s.len() - 1]);
        assert(strip_layout(s) =~= Seq::<char>::empty());
    }
}

proof fn lemma_strip_one(x: char, st: TextState)
    ensures
        state_after(seq![x], st) == next_state(st, x),
        strip_from(seq![x], st) == if is_layout(st, x) {
            Seq::<char>::empty()
        } else {
            seq![x]
        },
{
    let none = Seq::<char>::empty();
    assert(seq![x].drop_last() =~= none);
    assert(seq![x].last() == x);
    assert(strip_from(none, st) == none);
    assert(state_after(none, st) == st);
    assert(strip_from(seq![x], st) =~= if is_layout(st, x) {
        Seq::<char>::empty()
    } else {
        seq![x]
    });
}

proof fn lemma_strip_pair(x: char, y: char, st: TextState)
    ensures
        state_after(seq![x, y], st) == next_state(next_state(st, x), y),
        !is_layout(st, x) && !is_layout(next_state(st, x), y) ==> strip_from(seq![x, y], st) == seq![x, y],
{
    lemma_strip_one(x, st);
    lemma_strip_one(y, next_state(st, x));
    lemma_strip_concat(seq![x], seq![y], st);
    assert(seq![x] + seq![y] =~= seq![x, y]);
}

proof fn lemma_escaped_inside(s: Seq<char>)
    ensures
        state_after(escaped(s), TextState::Inside) == TextState::Inside,
        strip_from(escaped(s), TextState::Inside) == escaped(s),
    decreases s.len(),
{
    if s.len() > 0 {
        lemma_escaped_inside(s.drop_last());
        let a = escaped(s.drop_last());
        let c = s.last();
        let e = escape_char(c);
        lemma_strip_concat(a, e, TextState::Inside);
        if c == '"' {
            lemma_strip_pair('\\', '"', TextState::Inside);
        } else if c == '\\' {
            lemma_strip_pair('\\', '\\', TextState::Inside);
        } else if c == '\n' {
            lemma_strip_pair('\\', 'n', TextState::Inside);
        } else if c == '\t' {
            lemma_strip_pair('\\', 't', TextState::Inside);
        } else if c == '\u{8}' {
            lemma_strip_pair('\\', 'b', TextState::Inside);
        } else if c == '\u{c}' {
            lemma_strip_pair('\\', 'f', TextState::Inside);
        } else if c == '\r' {
            lemma_strip_pair('\\', 'r', TextState::Inside);
        } else if (c as u32) < 0x20 {
            lemma_control_escape(c);
            lemma_hex_digit(((c as u32) / 16) as int);
            lemma_hex_digit(((c as u32) % 16) as int);
            let t = seq!['0', '0', hex_digit(((c as u32) / 16) as int), hex_digit(((c as u32) % 16) as int)];
            lemma_strip_pair('\\', 'u', TextState::Inside);
            lemma_inside_plain(t);
            lemma_strip_concat(seq!['\\', 'u'], t, TextState::Inside);
            assert(seq!['\\', 'u'] + t =~= e);
        } else {
            lemma_strip_one(c, TextState::Inside);
        }
    }
}

/// Text without quotes or backslashes, read inside a string literal.
proof fn lemma_inside_plain(t: Seq<char>)
    requires
        forall|i: int| 0 <= i < t.len() ==> t[i] != '"' && t[i] != '\\',
    ensures
        state_after(t, TextState::Inside) == TextState::Inside,
        strip_from(t, TextState::Inside) == t,
    decreases t.len(),
{
    if t.len() > 0 {
        lemma_inside_plain(t.drop_last());
        assert(t.last() == t[t.len() - 1]);
        assert(strip_from(t, TextState::Inside) =~= t);
    }
}

proof fn lemma_strip_quoted(s: Seq<char>)
    ensures
        state_after(quoted(s), TextState::Outside) == TextState::Outside,
        strip_layout(quoted(s)) == quoted(s),
{
    let q = seq!['"'];
    lemma_strip_one('"', TextState::Outside);
    lemma_strip_one('"', TextState::Inside);
    lemma_escaped_inside(s);
    lemma_strip_concat(q, escaped(s), TextState::Outside);
    lemma_strip_concat(q + escaped(s), q, TextState::Outside);
}

proof fn lemma_strip_scalar(v: JsonModel)
    requires
        model_wf(v),
        !(v is Array),
        !(v is Object),
    ensures
        state_after(scalar_text(v), TextState::Outside) == TextState::Outside,
        strip_layout(scalar_text(v)) == compact(v),
{
    match v {
        JsonModel::Number(n) => {
            lemma_render_plain(n);
            lemma_strip_plain(render(n));
        },
        JsonModel::String(s) => {
            lemma_strip_quoted(s);
        },
        JsonModel::Bool(b) => {
            lemma_strip_plain(text_true());
            lemma_strip_plain(text_false());
        },
        _ => {
            lemma_strip_plain(text_null());
        },
    }
}

proof fn lemma_indentation_blank(l: nat)
    ensures
        state_after(seq!['\n'] + indentation(l), TextState::Outside) == TextState::Outside,
        strip_layout(seq!['\n'] + indentation(l)) == Seq::<char>::empty(),
{
    let s = seq!['\n'] + indentation(l);
    assert forall|i: int| 0 <= i < s.len() implies s[i] == ' ' || s[i] == '\n' by {
        if i > 0 {
            assert(s[i] == indentation(l)[i - 1]);
        }
    }
    lemma_strip_blank(s);
}

#[verifier::spinoff_prover]
#[verifier::rlimit(60)]
proof fn lemma_strip_pretty(v: JsonModel, l: nat)
    requires
        model_wf(v),
    ensures
        state_after(pretty(v, l), TextState::Outside) == TextState::Outside,
        strip_layout(pretty(v, l)) == compact(v),
    decreases v,
{
    match v {
        JsonModel::Array(items) => {
            let o = seq!['['];
            let c = seq![']'];
            lemma_strip_plain(o);
            lemma_strip_plain(c);
            if items.len() == 0 {
                lemma_strip_plain(seq!['[', ']']);
                assert(compact_items(items) =~= Seq::<char>::empty());
                assert(compact(v) =~= seq!['[', ']']);
            } else {
                lemma_strip_pretty_items(items, l);
                let b = pretty_items(items, l);
                let nl = seq!['\n'] + indentation(l);
                lemma_indentation_blank(l);
                assert(pretty(v, l) =~= o + b + nl + c);
                lemma_strip_two(o, b);
                lemma_strip_two(o + b, nl);
                lemma_strip_two(o + b + nl, c);
                assert(strip_layout(pretty(v, l)) =~= o + compact_items(items) + c);
            }
        },
        JsonModel::Object(es) => {
            let o = seq!['{'];
            let c = seq!['}'];
            lemma_strip_plain(o);
            lemma_strip_plain(c);
            if es.len() == 0 {
                lemma_strip_plain(seq!['{', '}']);
                assert(compact_members(es) =~= Seq::<char>::empty());
                assert(compact(v) =~= seq!['{', '}']);
            } else {
                lemma_strip_pretty_members(es, l);
                let b = pretty_members(es, l);
                let nl = seq!['\n'] + indentation(l);
                lemma_indentation_blank(l);
                assert(pretty(v, l) =~= o + b + nl + c);
                lemma_strip_two(o, b);
                lemma_strip_two(o + b, nl);
                lemma_strip_two(o + b + nl, c);
                assert(strip_layout(pretty(v, l)) =~= o + compact_members(es) + c);
            }
        },
        _ => {
            lemma_strip_scalar(v);
        },
    }
}

#[verifier::spinoff_prover]
#[verifier::rlimit(60)]
proof fn lemma_strip_pretty_items(items: Seq<JsonModel>, l: nat)
    requires
        forall|i: int| 0 <= i < items.len() ==> model_wf(#[trigger] items[i]),
    ensures
        state_after(pretty_items(items, l), TextState::Outside) == TextState::Outside,
        strip_layout(pretty_items(items, l)) == compact_items(items),
    decreases items,
{
    if items.len() == 0 {
        assert(strip_layout(Seq::<char>::empty()) =~= Seq::<char>::empty());
    } else {
        let init = items.subrange(0, items.len() - 1);
        let x = items[items.len() - 1];
        assert(model_wf(x));
        assert(decreases_to!(items => items[items.len() - 1]));
        lemma_strip_pretty(x, l + 1);
        let nl = seq!['\n'] + indentation(l + 1);
        lemma_indentation_blank(l + 1);
        let comma = seq![','];
        lemma_strip_plain(comma);
        let a = if init.len() == 0 {
            Seq::<char>::empty()
        } else {
            pretty_items(init, l) + comma
        };
        if init.len() > 0 {
            assert forall|i: int| 0 <= i < init.len() implies model_wf(#[trigger] init[i]) by {
                assert(init[i] == items[i]);
            }
            lemma_strip_pretty_items(init, l);
            lemma_strip_two(pretty_items(init, l), comma);
        } else {
            assert(strip_layout(a) =~= Seq::<char>::empty());
        }
        assert(pretty_items(items, l) =~= a + nl + pretty(x, l + 1));
        lemma_strip_two(a, nl);
        lemma_strip_two(a + nl, pretty(x, l + 1));
        assert(strip_layout(pretty_items(items, l)) =~= compact_items(items));
    }
}

#[verifier::spinoff_prover]
#[verifier::rlimit(60)]
proof fn lemma_strip_pretty_members(es: Seq<(Seq<char>, JsonModel)>, l: nat)
    requires
        forall|i: int| 0 <= i < es.len() ==> model_wf(#[trigger] es[i].1),
    ensures
        state_after(pretty_members(es, l), TextState::Outside) == TextState::Outside,
        strip_layout(pretty_members(es, l)) == compact_members(es),
    decreases es,
{
    if es.len() == 0 {
        assert(strip_layout(Seq::<char>::empty()) =~= Seq::<char>::empty());
    } else {
        let init = es.subrange(0, es.len() - 1);
        let key = es[es.len() - 1].0;
        let x = es[es.len() - 1].1;
        assert(model_wf(x));
        assert(decreases_to!(es => es[es.len() - 1]));
        assert(decreases_to!(es[es.len() - 1] => es[es.len() - 1].1));
        lemma_strip_pretty(x, l + 1);
        let nl = seq!['\n'] + indentation(l + 1);
        lemma_indentation_blank(l + 1);
        let comma = seq![','];
        lemma_strip_plain(comma);
        let colon = seq![':'];
        lemma_strip_plain(colon);
        let space = seq![' '];
        lemma_strip_blank(space);
        lemma_strip_quoted(key);
        let a = if init.len() == 0 {
            Seq::<char>::empty()
        } else {
            pretty_members(init, l) + comma
        };
        if init.len() > 0 {
            assert forall|i: int| 0 <= i < init.len() implies model_wf(#[trigger] init[i].1) by {
                assert(init[i] == es[i]);
            }
            lemma_strip_pretty_members(init, l);
            lemma_strip_two(pretty_members(init, l), comma);
        } else {
            assert(strip_layout(a) =~= Seq::<char>::empty());
        }
        assert(pretty_members(es, l) =~= a + nl + quoted(key) + colon + space + pretty(x, l + 1));
        lemma_strip_two(a, nl);
        lemma_strip_two(a + nl, quoted(key));
        lemma_strip_two(a + nl + quoted(key), colon);
        lemma_strip_two(a + nl + quoted(key) + colon, space);
        lemma_strip_two(a + nl + quoted(key) + colon + space, pretty(x, l + 1));
        assert(strip_layout(pretty_members(es, l)) =~= compact_members(es));
    }
}

/// The indented text of a well-formed document, without the spaces and line
/// breaks outside its string literals, is its compact text.
pub proof fn law_pretty_strips_to_compact(v: JsonModel, level: nat)
    requires
        model_wf(v),
    ensures
        strip_layout(pretty(v, level)) == compact(v),
{
    lemma_strip_pretty(v, level);
}

proof fn lemma_plain_concat(a: Seq<char>, b: Seq<char>)
    requires
        plain_text(a),
        plain_text(b),
    ensures
        plain_text(a + b),
{
    assert forall|i: int| 0 <= i < (a + b).len() implies plain_char((a + b)[i]) by {
        if i < a.len() {
            assert((a + b)[i] == a[i]);
        } else {
            assert((a + b)[i] == b[i - a.len()]);
        }
    }
}

proof fn lemma_digit_text_plain(ds: Seq<u8>)
    requires
        crate::number::all_digits(ds),
    ensures
        plain_text(digit_text(ds)),
{
    assert forall|i: int| 0 <= i < digit_text(ds).len() implies plain_char(digit_text(ds)[i]) by {
        let d = ds[i];
        assert(digit_text(ds)[i] == crate::text::digit_char(d as int));
        assert(crate::text::digit_char(d as int) as int == d + 48);
    }
}

proof fn lemma_plain_sub(s: Seq<char>, i: int, j: int)
    requires
        plain_text(s),
        0 <= i <= j <= s.len(),
    ensures
        plain_text(s.subrange(i, j)),
{
    assert forall|t: int| 0 <= t < j - i implies plain_char(s.subrange(i, j)[t]) by {
        assert(s.subrange(i, j)[t] == s[i + t]);
    }
}

proof fn lemma_zeros_plain(n: nat)
    ensures
        plain_text(zeros(n)),
{
    assert forall|t: int| 0 <= t < zeros(n).len() implies plain_char(zeros(n)[t]) by {
        assert(zeros(n)[t] == '0');
    }
}

proof fn lemma_render_plain(m: crate::number::NumberModel)
    requires
        m.wf(),
    ensures
        plain_text(render(m)),
{
    let n = m.digits.len() as int;
    let e = m.exponent;
    let d = digit_text(m.digits);
    lemma_digit_text_plain(m.digits);
    assert(d.len() == n);
    if -n < e < 0 {
        lemma_plain_sub(d, 0, n + e);
        lemma_plain_sub(d, n + e, n);
        assert(d.take(n + e) =~= d.subrange(0, n + e));
        assert(d.skip(n + e) =~= d.subrange(n + e, n));
    }
    if n >= 1 {
        lemma_plain_sub(d, 0, 1);
        lemma_plain_sub(d, 1, n);
        assert(d.take(1) =~= d.subrange(0, 1));
        assert(d.skip(1) =~= d.subrange(1, n));
    }
    if e <= -n {
        lemma_zeros_plain((-e - n) as nat);
    }
    if e >= 0 {
        lemma_zeros_plain(e as nat);
    }
    if e < 0 {
        crate::roundtrip::lemma_nat_digits((-e) as nat);
        lemma_digit_text_plain(nat_digits((-e) as nat));
    } else {
        crate::roundtrip::lemma_nat_digits(e as nat);
        lemma_digit_text_plain(nat_digits(e as nat));
    }
    let e2 = e + n - 1;
    if e2 < 0 {
        crate::roundtrip::lemma_nat_digits((-e2) as nat);
        lemma_digit_text_plain(nat_digits((-e2) as nat));
    } else {
        crate::roundtrip::lemma_nat_digits(e2 as nat);
        lemma_digit_text_plain(nat_digits(e2 as nat));
    }
    assert(plain_text(int_text(e))) by {
        if e < 0 {
            lemma_plain_concat(seq!['-'], digit_text(nat_digits((-e) as nat)));
        }
    }
    assert(plain_text(int_text(e2))) by {
        if e2 < 0 {
            lemma_plain_concat(seq!['-'], digit_text(nat_digits((-e2) as nat)));
        }
    }
    let t = magnitude_text(m);
    assert(plain_text(t)) by {
        if n == 0 {
        } else if 0 <= e <= plain_limit() {
            lemma_plain_concat(d, zeros(e as nat));
        } else if -n < e < 0 {
            lemma_plain_concat(d.take(n + e), seq!['.']);
            lemma_plain_concat(d.take(n + e) + seq!['.'], d.skip(n + e));
        } else if -(n + plain_limit()) <= e <= -n {
            lemma_plain_concat(seq!['0', '.'], zeros((-e - n) as nat));
            lemma_plain_concat(seq!['0', '.'] + zeros((-e - n) as nat), d);
        } else if n == 1 {
            lemma_plain_concat(d, seq!['e']);
            lemma_plain_concat(d + seq!['e'], int_text(e));
        } else {
            lemma_plain_concat(d.take(1), seq!['.']);
            lemma_plain_concat(d.take(1) + seq!['.'], d.skip(1));
            lemma_plain_concat(d.take(1) + seq!['.'] + d.skip(1), seq!['e']);
            lemma_plain_concat(d.take(1) + seq!['.'] + d.skip(1) + seq!['e'], int_text(e2));
        }
    }
    if m.negative {
        lemma_plain_concat(seq!['-'], t);
    }
}


/// The nesting depth of a document (scalars have depth 0).
pub open spec fn depth(v: JsonModel) -> nat
    decreases v,
{
    match v {
        JsonModel::Array(items) => 1 + depth_items(items),
        JsonModel::Object(es) => 1 + depth_members(es),
        _ => 0,
    }
}

pub open spec fn depth_items(items: Seq<JsonModel>) -> nat
    decreases items,
{
    if items.len() == 0 {
        0
    } else {
        let a = depth_items(items.subrange(0, items.len() - 1));
        let b = depth(items[items.len() - 1]);
        if a > b { a } else { b }
    }
}

pub open spec fn depth_members(es: Seq<(Seq<char>, JsonModel)>) -> nat
    decreases es,
{
    if es.len() == 0 {
        0
    } else {
        let a = depth_members(es.subrange(0, es.len() - 1));
        let b = depth(es[es.len() - 1].1);
        if a > b { a } else { b }
    }
}


// ----- writing -----

/// Appends `"null"`, `"true"` or `"false"`.
fn write_word(output: &mut String, word: &str)
    ensures
        final(output)@ == old(output)@ + word@,
{
    output.append(word);
}

/// Appends a string literal for `s`.
/// Appends the hexadecimal digit of `d`.
fn push_hex_digit(output: &mut String, d: u8)
    requires
        d < 16,
    ensures
        final(output)@ == old(output)@.push(hex_digit(d as int)),
{
    let c = if d < 10 {
        (d + 48u8) as char
    } else {
        (d + 87u8) as char
    };
    output.push(c);
}

pub fn write_string(s: &str, output: &mut String)
    ensures
        final(output)@ == old(output)@ + quoted(s@),
{
    let ghost start = output@;
    output.push('"');
    let chars = crate::text::chars_of(s);
    let mut i: usize = 0;
    while i < chars.len()
        invariant
            i <= chars@.len(),
            chars@ == s@,
            output@ == start + seq!['"'] + escaped(chars@.take(i as int)),
        decreases chars@.len() - i,
    {
        let ch = chars[i];
        if ch == '"' {
            output.push('\\');
            output.push('"');
        } else if ch == '\\' {
            output.push('\\');
            output.push('\\');
        } else if ch == '\n' {
            output.push('\\');
            output.push('n');
        } else if ch == '\t' {
            output.push('\\');
            output.push('t');
        } else if ch == '\u{8}' {
            output.push('\\');
            output.push('b');
        } else if ch == '\u{c}' {
            output.push('\\');
            output.push('f');
        } else if ch == '\r' {
            output.push('\\');
            output.push('r');
        } else if (ch as u32) < 0x20 {
            let v = ch as u32;
            proof {
                lemma_control_escape(ch);
            }
            output.push('\\');
            output.push('u');
            output.push('0');
            output.push('0');
            push_hex_digit(output, (v / 16) as u8);
            push_hex_digit(output, (v % 16) as u8);
        } else {
            output.push(ch);
        }
        assert(chars@.take(i + 1).drop_last() =~= chars@.take(i as int));
        i = i + 1;
        assert(output@ =~= start + seq!['"'] + escaped(chars@.take(i as int)));
    }
    output.push('"');
    assert(chars@.take(i as int) =~= s@);
    assert(output@ =~= start + quoted(s@));
}

/// Appends the text of a scalar.
fn write_scalar(value: &JsonValue, output: &mut String)
    requires
        !(value@ is Array),
        !(value@ is Object),
    ensures
        final(output)@ == old(output)@ + scalar_text(value@),
{
    match value {
        JsonValue::Null => {
            proof {
                reveal_strlit("null");
                assert("null"@ =~= text_null());
            }
            write_word(output, "null");
        },
        JsonValue::Bool(b) => {
            if *b {
                proof {
                    reveal_strlit("true");
                    assert("true"@ =~= text_true());
                }
                write_word(output, "true");
            } else {
                proof {
                    reveal_strlit("false");
                    assert("false"@ =~= text_false());
                }
                write_word(output, "false");
            }
        },
        JsonValue::Number(n) => n.write_to(output),
        JsonValue::String(s) => write_string(s.as_str(), output),
        _ => {},
    }
}

/// Appends the compact text of `value`.
pub fn serialize(value: &JsonValue, output: &mut String)
    ensures
        final(output)@ == old(output)@ + compact(value@),
    decreases value,
{
    match value {
        JsonValue::Array(values) => {
            let ghost start = output@;
            output.push('[');
            serialize_items(values, output);
            output.push(']');
            assert(output@ =~= start + compact(value@));
        },
        JsonValue::Object(map) => {
            let ghost start = output@;
            output.push('{');
            serialize_members(map, output);
            output.push('}');
            assert(output@ =~= start + compact(value@));
        },
        _ => write_scalar(value, output),
    }
}

/// Appends the elements of an array, separated by commas.
fn serialize_items(values: &Vec<JsonValue>, output: &mut String)
    ensures
        final(output)@ == old(output)@ + compact_items(view_values(values@)),
    decreases values,
{
    let ghost start = output@;
    let ghost items = view_values(values@);
    proof {
        lemma_view_values(values@);
    }
    let mut i: usize = 0;
    assert(items.take(0) =~= Seq::<JsonModel>::empty());
    while i < values.len()
        invariant
            i <= values@.len() == items.len(),
            items == view_values(values@),
            forall|j: int| 0 <= j < values@.len() ==> #[trigger] items[j] == values@[j]@,
            output@ == start + compact_items(items.take(i as int)),
        decreases values@.len() - i,
    {
        if i > 0 {
            output.push(',');
        }
        serialize(&values[i], output);
        assert(items.take(i + 1).subrange(0, i as int) =~= items.take(i as int));
        i = i + 1;
        assert(output@ =~= start + compact_items(items.take(i as int)));
    }
    assert(items.take(i as int) =~= items);
}

/// Appends the members of an object, separated by commas.
fn serialize_members(map: &JsonObject, output: &mut String)
    ensures
        final(output)@ == old(output)@ + compact_members(map@),
    decreases map,
{
    broadcast use crate::value::group_view;
    let ghost start = output@;
    let ghost es = map@;
    proof {
        lemma_view_entries(map.entries@);
    }
    let mut i: usize = 0;
    assert(es.take(0) =~= Seq::<(Seq<char>, JsonModel)>::empty());
    while i < map.entries.len()
        invariant
            i <= map.entries@.len() == es.len(),
            es == map@,
            forall|j: int| 0 <= j < es.len() ==> #[trigger] es[j] == (map.entries@[j].0@, map.entries@[j].1@),
            output@ == start + compact_members(es.take(i as int)),
        decreases map.entries@.len() - i,
    {
        if i > 0 {
            output.push(',');
        }
        write_string(map.entries[i].0.as_str(), output);
        output.push(':');
        serialize(&map.entries[i].1, output);
        assert(es.take(i + 1).subrange(0, i as int) =~= es.take(i as int));
        i = i + 1;
        assert(output@ =~= start + compact_members(es.take(i as int)));
    }
    assert(es.take(i as int) =~= es);
}

/// The compact JSON text of `value`.
pub fn to_json_string(value: &JsonValue) -> (r: String)
    ensures
        r@ == compact(value@),
{
    let mut output = String::new();
    serialize(value, &mut output);
    assert(output@ =~= compact(value@));
    output
}


/// An element of an array is less deep than the array.
proof fn lemma_depth_items(items: Seq<JsonModel>, i: int)
    requires
        0 <= i < items.len(),
    ensures
        depth(items[i]) <= depth_items(items),
    decreases items.len(),
{
    if i < items.len() - 1 {
        lemma_depth_items(items.subrange(0, items.len() - 1), i);
    }
}

/// A member of an object is less deep than the object.
proof fn lemma_depth_members(es: Seq<(Seq<char>, JsonModel)>, i: int)
    requires
        0 <= i < es.len(),
    ensures
        depth(es[i].1) <= depth_members(es),
    decreases es.len(),
{
    if i < es.len() - 1 {
        lemma_depth_members(es.subrange(0, es.len() - 1), i);
    }
}

/// Appends two spaces per level.
pub fn write_indent(output: &mut String, indent: usize)
    ensures
        final(output)@ == old(output)@ + indentation(indent as nat),
{
    let ghost start = output@;
    let mut i: usize = 0;
    while i < indent
        invariant
            i <= indent,
            output@ == start + indentation(i as nat),
        decreases indent - i,
    {
        output.push(' ');
        output.push(' ');
        i = i + 1;
        assert(output@ =~= start + indentation(i as nat));
    }
}

/// Appends the indented text of `value`, at nesting level `indent`.
pub fn pretty_serialize(value: &JsonValue, output: &mut String, indent: usize)
    requires
        indent + depth(value@) <= usize::MAX,
    ensures
        final(output)@ == old(output)@ + pretty(value@, indent as nat),
    decreases value,
{
    broadcast use crate::value::group_view;
    match value {
        JsonValue::Array(a) => {
            let ghost start = output@;
            output.push('[');
            if a.len() == 0 {
                output.push(']');
                proof {
                    lemma_view_values(a@);
                }
                assert(output@ =~= start + pretty(value@, indent as nat));
                return;
            }
            write_pretty_items(a, output, indent);
            output.push('\n');
            write_indent(output, indent);
            output.push(']');
            proof {
                lemma_view_values(a@);
            }
            assert(output@ =~= start + pretty(value@, indent as nat));
        },
        JsonValue::Object(o) => {
            let ghost start = output@;
            output.push('{');
            if o.entries.len() == 0 {
                output.push('}');
                proof {
                    lemma_view_entries(o.entries@);
                }
                assert(output@ =~= start + pretty(value@, indent as nat));
                return;
            }
            write_pretty_members(o, output, indent);
            output.push('\n');
            write_indent(output, indent);
            output.push('}');
            proof {
                lemma_view_entries(o.entries@);
            }
            assert(output@ =~= start + pretty(value@, indent as nat));
        },
        _ => write_scalar(value, output),
    }
}

/// Appends the elements of an array, each on its own line.
fn write_pretty_items(values: &Vec<JsonValue>, output: &mut String, indent: usize)
    requires
        indent + 1 + depth_items(view_values(values@)) <= usize::MAX,
    ensures
        final(output)@ == old(output)@ + pretty_items(view_values(values@), indent as nat),
    decreases values,
{
    let ghost start = output@;
    let ghost items = view_values(values@);
    proof {
        lemma_view_values(values@);
    }
    let mut i: usize = 0;
    assert(items.take(0) =~= Seq::<JsonModel>::empty());
    while i < values.len()
        invariant
            i <= values@.len() == items.len(),
            items == view_values(values@),
            indent + 1 + depth_items(items) <= usize::MAX,
            forall|j: int| 0 <= j < values@.len() ==> #[trigger] items[j] == values@[j]@,
            output@ == start + pretty_items(items.take(i as int), indent as nat),
        decreases values@.len() - i,
    {
        if i > 0 {
            output.push(',');
        }
        output.push('\n');
        write_indent(output, indent + 1);
        proof {
            lemma_depth_items(items, i as int);
        }
        pretty_serialize(&values[i], output, indent + 1);
        assert(items.take(i + 1).subrange(0, i as int) =~= items.take(i as int));
        i = i + 1;
        assert(output@ =~= start + pretty_items(items.take(i as int), indent as nat));
    }
    assert(items.take(i as int) =~= items);
}

/// Appends the members of an object, each on its own line.
fn write_pretty_members(map: &JsonObject, output: &mut String, indent: usize)
    requires
        indent + 1 + depth_members(map@) <= usize::MAX,
    ensures
        final(output)@ == old(output)@ + pretty_members(map@, indent as nat),
    decreases map,
{
    broadcast use crate::value::group_view;
    let ghost start = output@;
    let ghost es = map@;
    proof {
        lemma_view_entries(map.entries@);
    }
    let mut i: usize = 0;
    assert(es.take(0) =~= Seq::<(Seq<char>, JsonModel)>::empty());
    while i < map.entries.len()
        invariant
            i <= map.entries@.len() == es.len(),
            es == map@,
            indent + 1 + depth_members(es) <= usize::MAX,
            forall|j: int| 0 <= j < es.len() ==> #[trigger] es[j] == (map.entries@[j].0@, map.entries@[j].1@),
            output@ == start + pretty_members(es.take(i as int), indent as nat),
        decreases map.entries@.len() - i,
    {
        if i > 0 {
            output.push(',');
        }
        output.push('\n');
        write_indent(output, indent + 1);
        write_string(map.entries[i].0.as_str(), output);
        output.push(':');
        output.push(' ');
        proof {
            lemma_depth_members(es, i as int);
        }
        pretty_serialize(&map.entries[i].1, output, indent + 1);
        assert(es.take(i + 1).subrange(0, i as int) =~= es.take(i as int));
        i = i + 1;
        assert(output@ =~= start + pretty_members(es.take(i as int), indent as nat));
    }
    assert(es.take(i as int) =~= es);
}

/// How deeply `value` nests (as `depth` counts), or `None` where that does
/// not fit in a `usize`.
pub fn depth_of(value: &JsonValue) -> (r: Option<usize>)
    ensures
        match r {
            Some(d) => d == depth(value@),
            None => depth(value@) > usize::MAX,
        },
    decreases value,
{
    let inner = match value {
        JsonValue::Array(a) => depth_of_items(a),
        JsonValue::Object(m) => depth_of_members(m),
        _ => {
            return Some(0);
        },
    };
    match inner {
        Some(d) => d.checked_add(1),
        None => None,
    }
}

/// The greatest depth among `values`, or `None` where it does not fit.
fn depth_of_items(values: &Vec<JsonValue>) -> (r: Option<usize>)
    ensures
        match r {
            Some(d) => d == depth_items(view_values(values@)),
            None => depth_items(view_values(values@)) > usize::MAX,
        },
    decreases values,
{
    let ghost items = view_values(values@);
    proof {
        lemma_view_values(values@);
    }
    let mut best: usize = 0;
    let mut i: usize = 0;
    assert(items.take(0) =~= Seq::<JsonModel>::empty());
    while i < values.len()
        invariant
            i <= values@.len() == items.len(),
            items == view_values(values@),
            forall|j: int| 0 <= j < values@.len() ==> #[trigger] items[j] == values@[j]@,
            best == depth_items(items.take(i as int)),
        decreases values@.len() - i,
    {
        proof {
            lemma_depth_items(items, i as int);
        }
        let d = match depth_of(&values[i]) {
            Some(d) => d,
            None => {
                return None;
            },
        };
        assert(items.take(i + 1).subrange(0, i as int) =~= items.take(i as int));
        assert(items.take(i + 1)[i as int] == items[i as int]);
        if d > best {
            best = d;
        }
        i = i + 1;
    }
    assert(items.take(i as int) =~= items);
    Some(best)
}

/// The greatest depth among the values of `map`, or `None` where it does
/// not fit.
fn depth_of_members(map: &JsonObject) -> (r: Option<usize>)
    ensures
        match r {
            Some(d) => d == depth_members(map@),
            None => depth_members(map@) > usize::MAX,
        },
    decreases map,
{
    broadcast use crate::value::group_view;
    let ghost es = map@;
    proof {
        lemma_view_entries(map.entries@);
    }
    let mut best: usize = 0;
    let mut i: usize = 0;
    assert(es.take(0) =~= Seq::<(Seq<char>, JsonModel)>::empty());
    while i < map.entries.len()
        invariant
            i <= map.entries@.len() == es.len(),
            es == map@,
            forall|j: int| 0 <= j < es.len() ==> #[trigger] es[j] == (map.entries@[j].0@, map.entries@[j].1@),
            best == depth_members(es.take(i as int)),
        decreases map.entries@.len() - i,
    {
        proof {
            lemma_depth_members(es, i as int);
        }
        let d = match depth_of(&map.entries[i].1) {
            Some(d) => d,
            None => {
                return None;
            },
        };
        assert(es.take(i + 1).subrange(0, i as int) =~= es.take(i as int));
        assert(es.take(i + 1)[i as int] == es[i as int]);
        if d > best {
            best = d;
        }
        i = i + 1;
    }
    assert(es.take(i as int) =~= es);
    Some(best)
}

/// The JSON text of `value`, indented by two spaces per level.
pub fn to_pretty_string(value: &JsonValue) -> (r: String)
    requires
        depth(value@) <= usize::MAX,
    ensures
        r@ == pretty(value@, 0),
{
    let mut output = String::new();
    pretty_serialize(value, &mut output, 0);
    assert(output@ =~= pretty(value@, 0));
    output
}

} // verus!
