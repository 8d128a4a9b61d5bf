use vstd::prelude::*;
use crate::error::Position;
use crate::lexer::{
    LexStep, SpannedModel, TokenModel, digit_run_end, digit_values, is_digit, is_whitespace,
    lex_token, pos_at, punct, scan_exponent, scan_fraction, scan_int_part, scan_literal,
    scan_escape, scan_hex, scan_number, scan_string, skip_ws, word_false, word_null, word_true,
};
use crate::serializer::{
    compact, compact_items, compact_members, escape_char, escaped, indentation, pretty,
    pretty_items, pretty_members, quoted, text_false, text_null, text_true,
};
use crate::lexer::lex_all;
use crate::members::lemma_absent;
use crate::parser::{Stream, eats, p_array, p_items, p_key, p_members, p_object, p_value, parse_stream, parse_text, pull, stream_of};
use crate::value::{
    JsonModel, insert_index, key_index, keys_sorted, lemma_insert_index, lemma_key_less_asymmetric,
    lemma_key_less_irreflexive, model_wf, with_member,
};
use crate::number::{
    NumberModel, EXPONENT_LIMIT, all_digits, digit_text, dval, int_text, leading_zeros,
    lemma_leading_zeros, lemma_trailing_zeros, magnitude_text, nat_digits, normalize,
    number_from_parts, plain_limit, render, saturated, trailing_zeros, zeros,
};
use crate::text::digit_char;

verus! {

// ----- texts inside texts -----

/// `s` holds the text `t` at index `i`.
pub open spec fn holds_at(s: Seq<char>, i: int, t: Seq<char>) -> bool {
    0 <= i && i + t.len() <= s.len() && s.subrange(i, i + t.len()) == t
}

pub proof fn lemma_holds_at_index(s: Seq<char>, i: int, t: Seq<char>, j: int)
    requires
        holds_at(s, i, t),
        0 <= j < t.len(),
    ensures
        s[i + j] == t[j],
{
    assert(s.subrange(i, i + t.len())[j] == s[i + j]);
}

/// A text held at `i` holds each of its two parts.
pub proof fn lemma_holds_at_concat(s: Seq<char>, i: int, a: Seq<char>, b: Seq<char>)
    requires
        holds_at(s, i, a + b),
    ensures
        holds_at(s, i, a),
        holds_at(s, i + a.len(), b),
{
    assert forall|j: int| 0 <= j < a.len() implies #[trigger] s.subrange(i, i + a.len())[j] == a[j] by {
        lemma_holds_at_index(s, i, a + b, j);
    }
    assert(s.subrange(i, i + a.len()) =~= a);
    assert forall|j: int| 0 <= j < b.len() implies #[trigger] s.subrange(
        i + a.len(),
        i + a.len() + b.len(),
    )[j] == b[j] by {
        lemma_holds_at_index(s, i, a + b, a.len() + j);
    }
    assert(s.subrange(i + a.len(), i + a.len() + b.len()) =~= b);
}

// ----- digits -----

/// A character that would extend a number literal.
pub open spec fn continues_number(c: char) -> bool {
    is_digit(c) || c == '.' || c == 'e' || c == 'E'
}

/// The text of digits, as held at `k`: a run of digits whose values are the digits.
pub proof fn lemma_digits_at(s: Seq<char>, k: int, ds: Seq<u8>)
    requires
        all_digits(ds),
        holds_at(s, k, digit_text(ds)),
    ensures
        forall|t: int| k <= t < k + ds.len() ==> is_digit(#[trigger] s[t]),
        digit_values(s.subrange(k, k + ds.len())) == ds,
{
    assert forall|t: int| k <= t < k + ds.len() implies is_digit(#[trigger] s[t]) by {
        lemma_holds_at_index(s, k, digit_text(ds), t - k);
        assert(ds[t - k] < 10);
    }
    assert forall|t: int| 0 <= t < ds.len() implies #[trigger] digit_values(s.subrange(k, k + ds.len()))[t] == ds[t] by {
        lemma_holds_at_index(s, k, digit_text(ds), t);
        let c = digit_char(ds[t] as int);
        assert(c as int == ds[t] + 48);
    }
    assert(digit_values(s.subrange(k, k + ds.len())) =~= ds);
}

/// A run of digits from `i` up to a non-digit at `j` (or the end).
pub proof fn lemma_digit_run_to(s: Seq<char>, i: int, j: int)
    requires
        0 <= i <= j <= s.len(),
        forall|t: int| i <= t < j ==> is_digit(#[trigger] s[t]),
        j == s.len() || !is_digit(s[j]),
    ensures
        digit_run_end(s, i) == j,
    decreases j - i,
{
    if i < j {
        lemma_digit_run_to(s, i + 1, j);
    }
}

/// The text of the first digit is `'0'` exactly when the digit is 0.
pub proof fn lemma_digit_char(d: u8)
    requires
        d < 10,
    ensures
        is_digit(digit_char(d as int)),
        (digit_char(d as int) == '0') == (d == 0),
        digit_char(d as int) != '-',
        digit_char(d as int) != '.',
        digit_char(d as int) != 'e',
{
    assert(digit_char(d as int) as int == d + 48);
}

pub proof fn lemma_nat_digits(n: nat)
    ensures
        all_digits(nat_digits(n)),
        nat_digits(n).len() >= 1,
        dval(nat_digits(n)) == n,
    decreases n,
{
    if n >= 10 {
        lemma_nat_digits(n / 10);
        let ds = nat_digits(n);
        assert(ds.drop_last() =~= nat_digits(n / 10));
        assert(ds.last() == (n % 10) as u8);
        assert(((n % 10) as u8) as nat == n % 10);
        assert(10 * (n / 10) + n % 10 == n);
        assert(dval(ds) == 10 * dval(ds.drop_last()) + ds.last() as nat);
    } else {
        let ds = nat_digits(n);
        assert(ds.drop_last() =~= Seq::<u8>::empty());
        assert(dval(ds) == 10 * dval(ds.drop_last()) + ds.last() as nat);
    }
}

// ----- reading a number literal -----

/// The text of a number literal from its parts: an optional `-`, integer
/// digits, an optional fraction and an optional exponent (with an optional `-`).
pub open spec fn literal_text(
    neg: bool,
    int_digits: Seq<u8>,
    has_frac: bool,
    frac: Seq<u8>,
    has_exp: bool,
    exp_neg: bool,
    exp: Seq<u8>,
) -> Seq<char> {
    (if neg {
        seq!['-']
    } else {
        Seq::empty()
    }) + digit_text(int_digits) + (if has_frac {
        seq!['.'] + digit_text(frac)
    } else {
        Seq::empty()
    }) + (if has_exp {
        seq!['e'] + (if exp_neg {
            seq!['-']
        } else {
            Seq::empty()
        }) + digit_text(exp)
    } else {
        Seq::empty()
    })
}

/// Reading a number literal written from its parts.
#[verifier::rlimit(60)]
#[verifier::spinoff_prover]
pub proof fn lemma_scan_literal_number(
    s: Seq<char>,
    i: int,
    neg: bool,
    id: Seq<u8>,
    has_frac: bool,
    fd: Seq<u8>,
    has_exp: bool,
    exp_neg: bool,
    xd: Seq<u8>,
)
    requires
        all_digits(id),
        all_digits(fd),
        all_digits(xd),
        id.len() >= 1,
        id.len() == 1 || id[0] != 0,
        has_frac ==> fd.len() >= 1,
        !has_frac ==> fd.len() == 0,
        has_exp ==> xd.len() >= 1,
        holds_at(s, i, literal_text(neg, id, has_frac, fd, has_exp, exp_neg, xd)),
        ({
            let e = i + literal_text(neg, id, has_frac, fd, has_exp, exp_neg, xd).len();
            e == s.len() || !continues_number(s[e])
        }),
    ensures
        scan_number(s, i) == Ok::<(NumberModel, int), crate::lexer::LexerError>(
            (
                number_from_parts(
                    neg,
                    id + fd,
                    fd.len() as int,
                    if has_exp {
                        if exp_neg {
                            -saturated(xd)
                        } else {
                            saturated(xd)
                        }
                    } else {
                        0
                    },
                ),
                i + literal_text(neg, id, has_frac, fd, has_exp, exp_neg, xd).len(),
            ),
        ),
{
    let sign = if neg {
        seq!['-']
    } else {
        Seq::<char>::empty()
    };
    let it = digit_text(id);
    let ft = if has_frac {
        seq!['.'] + digit_text(fd)
    } else {
        Seq::<char>::empty()
    };
    let xsign = if exp_neg {
        seq!['-']
    } else {
        Seq::<char>::empty()
    };
    let xt = if has_exp {
        seq!['e'] + xsign + digit_text(xd)
    } else {
        Seq::<char>::empty()
    };
    let text = literal_text(neg, id, has_frac, fd, has_exp, exp_neg, xd);
    assert(text == sign + it + ft + xt);
    let end = i + text.len();
    lemma_holds_at_concat(s, i, sign + it + ft, xt);
    lemma_holds_at_concat(s, i, sign + it, ft);
    lemma_holds_at_concat(s, i, sign, it);
    let k = i + sign.len();
    let ie = k + id.len();
    let fe = ie + ft.len();
    assert(digit_text(id).len() == id.len());
    lemma_digits_at(s, k, id);
    lemma_digit_char(id[0]);
    lemma_holds_at_index(s, k, it, 0);
    // the sign
    if neg {
        lemma_holds_at_index(s, i, sign, 0);
    } else {
        assert(s[i] == it[0]);
    }
    // what follows the integer digits
    let after_int_ok = ie == s.len() || !is_digit(s[ie]);
    if has_frac {
        lemma_holds_at_index(s, ie, ft, 0);
    } else if has_exp {
        lemma_holds_at_index(s, fe, xt, 0);
    }
    assert(after_int_ok);
    lemma_digit_run_to(s, k, ie);
    assert(scan_int_part(s, k) == Ok::<int, crate::lexer::LexerError>(ie)) by {
        if s[k] == '0' {
            assert(id[0] == 0);
            assert(id.len() == 1);
        }
    }
    // the fraction
    let fs = if has_frac {
        ie + 1
    } else {
        ie
    };
    if has_frac {
        lemma_holds_at_concat(s, ie, seq!['.'], digit_text(fd));
        assert(digit_text(fd).len() == fd.len());
        lemma_digits_at(s, ie + 1, fd);
        if has_exp {
            lemma_holds_at_index(s, fe, xt, 0);
        }
        lemma_digit_run_to(s, ie + 1, fe);
        assert(scan_fraction(s, ie) == Ok::<(int, int), crate::lexer::LexerError>((ie + 1, fe)));
    } else {
        assert(fe == ie);
        assert(scan_fraction(s, ie) == Ok::<(int, int), crate::lexer::LexerError>((ie, ie)));
    }
    assert(s.subrange(fs, fe) == s.subrange(fs, fs + fd.len()));
    // the exponent
    let exp_value = if has_exp {
        if exp_neg {
            -saturated(xd)
        } else {
            saturated(xd)
        }
    } else {
        0
    };
    if has_exp {
        lemma_holds_at_concat(s, fe, seq!['e'] + xsign, digit_text(xd));
        lemma_holds_at_concat(s, fe, seq!['e'], xsign);
        lemma_holds_at_index(s, fe, seq!['e'], 0);
        let d = fe + 1 + xsign.len();
        assert(digit_text(xd).len() == xd.len());
        lemma_digits_at(s, d, xd);
        lemma_digit_run_to(s, d, end);
        if exp_neg {
            lemma_holds_at_index(s, fe + 1, xsign, 0);
        } else {
            lemma_holds_at_index(s, d, digit_text(xd), 0);
            lemma_digit_char(xd[0]);
        }
        assert(scan_exponent(s, fe) == Ok::<(int, int), crate::lexer::LexerError>((exp_value, end)));
    } else {
        assert(fe == end);
        assert(scan_exponent(s, fe) == Ok::<(int, int), crate::lexer::LexerError>((0, end)));
    }
    assert(digit_values(s.subrange(k, ie) + s.subrange(fs, fe)) =~= id + fd);
}

// ----- reading back a written number -----

/// A canonical number whose exponent can be written back within the limit
/// on exponents that literals are read with.
pub open spec fn number_in_range(m: NumberModel) -> bool {
    let n = m.digits.len() as int;
    -EXPONENT_LIMIT <= m.exponent - 1 && m.exponent + n <= EXPONENT_LIMIT
}

/// `z` zero digits.
pub open spec fn zero_digits(z: nat) -> Seq<u8> {
    Seq::new(z, |t: int| 0u8)
}

proof fn lemma_digit_text_concat(a: Seq<u8>, b: Seq<u8>)
    ensures
        digit_text(a + b) == digit_text(a) + digit_text(b),
{
    assert(digit_text(a + b) =~= digit_text(a) + digit_text(b));
}

proof fn lemma_zeros_text(z: nat)
    ensures
        zeros(z) == digit_text(zero_digits(z)),
        all_digits(zero_digits(z)),
{
    assert forall|t: int| 0 <= t < z implies #[trigger] digit_text(zero_digits(z))[t] == zeros(z)[t] by {
        assert(digit_char(0) as int == 48);
    }
    assert(zeros(z) =~= digit_text(zero_digits(z)));
}

/// Canonical digits are their own normal form.
proof fn lemma_normalize_canonical(neg: bool, ds: Seq<u8>, x: int)
    requires
        ds.len() > 0,
        ds[0] != 0,
        ds.last() != 0,
    ensures
        normalize(neg, ds, x) == (NumberModel { negative: neg, digits: ds, exponent: x }),
{
    lemma_leading_zeros(ds, 0);
    assert(ds.skip(0) =~= ds);
    lemma_trailing_zeros(ds, 0);
    assert(ds.take(ds.len() as int) =~= ds);
}

/// Leading zero digits are dropped by the normal form.
proof fn lemma_normalize_leading(neg: bool, z: nat, ds: Seq<u8>, x: int)
    requires
        ds.len() > 0,
        ds[0] != 0,
        ds.last() != 0,
    ensures
        normalize(neg, zero_digits(z) + ds, x) == (NumberModel { negative: neg, digits: ds, exponent: x }),
{
    let all = zero_digits(z) + ds;
    lemma_leading_zeros(all, z as int);
    assert(all.skip(z as int) =~= ds);
    lemma_trailing_zeros(ds, 0);
    assert(ds.take(ds.len() as int) =~= ds);
}

/// Trailing zero digits move into the exponent in the normal form.
proof fn lemma_normalize_trailing(neg: bool, ds: Seq<u8>, z: nat, x: int)
    requires
        ds.len() > 0,
        ds[0] != 0,
        ds.last() != 0,
    ensures
        normalize(neg, ds + zero_digits(z), x) == (NumberModel { negative: neg, digits: ds, exponent: x + z }),
{
    let all = ds + zero_digits(z);
    lemma_leading_zeros(all, 0);
    assert(all.skip(0) =~= all);
    lemma_trailing_zeros(all, z as int);
    assert(all.take(all.len() - z) =~= ds);
}

#[verifier::rlimit(40)]
proof fn lemma_render_zero(s: Seq<char>, i: int, m: NumberModel)
    requires
        m.wf(),
        number_in_range(m),
        holds_at(s, i, render(m)),
        i + render(m).len() == s.len() || !continues_number(s[i + render(m).len()]),
        m.digits.len() == 0,
    ensures
        scan_number(s, i) == Ok::<(NumberModel, int), crate::lexer::LexerError>((m, i + render(m).len())),
{
    let ds = m.digits;
    let n = ds.len() as int;
    let e = m.exponent;
    let neg = m.negative;
    let d = digit_text(ds);
    let none = Seq::<u8>::empty();
    assert(d.len() == n);
    let id = seq![0u8];
    assert(digit_text(id) =~= seq!['0']) by {
        assert(digit_char(0) as int == 48);
    }
    assert(digit_text(none) =~= Seq::<char>::empty());
    assert(render(m) =~= literal_text(false, id, false, none, false, false, none));
    lemma_scan_literal_number(s, i, false, id, false, none, false, false, none);
    assert(id + none =~= id);
    lemma_leading_zeros(id, 1);
    assert(id.skip(1) =~= none);
    assert(m.digits =~= none);
    assert(number_from_parts(false, id + none, 0, 0) == m);
}

#[verifier::rlimit(40)]
proof fn lemma_render_plain(s: Seq<char>, i: int, m: NumberModel)
    requires
        m.wf(),
        number_in_range(m),
        holds_at(s, i, render(m)),
        i + render(m).len() == s.len() || !continues_number(s[i + render(m).len()]),
        m.digits.len() > 0, 0 <= m.exponent <= plain_limit(),
    ensures
        scan_number(s, i) == Ok::<(NumberModel, int), crate::lexer::LexerError>((m, i + render(m).len())),
{
    let ds = m.digits;
    let n = ds.len() as int;
    let e = m.exponent;
    let neg = m.negative;
    let d = digit_text(ds);
    let none = Seq::<u8>::empty();
    assert(d.len() == n);
    let id = ds + zero_digits(e as nat);
    lemma_zeros_text(e as nat);
    lemma_digit_text_concat(ds, zero_digits(e as nat));
    assert(digit_text(none) =~= Seq::<char>::empty());
    assert(render(m) =~= literal_text(neg, id, false, none, false, false, none));
    lemma_scan_literal_number(s, i, neg, id, false, none, false, false, none);
    assert(id + none =~= id);
    lemma_normalize_trailing(neg, ds, e as nat, 0);
    assert(number_from_parts(neg, id + none, 0, 0) == m);
}

#[verifier::rlimit(40)]
proof fn lemma_render_frac(s: Seq<char>, i: int, m: NumberModel)
    requires
        m.wf(),
        number_in_range(m),
        holds_at(s, i, render(m)),
        i + render(m).len() == s.len() || !continues_number(s[i + render(m).len()]),
        -(m.digits.len() as int) < m.exponent < 0,
    ensures
        scan_number(s, i) == Ok::<(NumberModel, int), crate::lexer::LexerError>((m, i + render(m).len())),
{
    let ds = m.digits;
    let n = ds.len() as int;
    let e = m.exponent;
    let neg = m.negative;
    let d = digit_text(ds);
    let none = Seq::<u8>::empty();
    assert(d.len() == n);
    let id = ds.take(n + e);
    let fd = ds.skip(n + e);
    assert(digit_text(id) =~= d.take(n + e));
    assert(digit_text(fd) =~= d.skip(n + e));
    assert(digit_text(none) =~= Seq::<char>::empty());
    assert(render(m) =~= literal_text(neg, id, true, fd, false, false, none));
    lemma_scan_literal_number(s, i, neg, id, true, fd, false, false, none);
    assert(id + fd =~= ds);
    lemma_normalize_canonical(neg, ds, e);
    assert(number_from_parts(neg, id + fd, fd.len() as int, 0) == m);
}

#[verifier::rlimit(40)]
proof fn lemma_render_small(s: Seq<char>, i: int, m: NumberModel)
    requires
        m.wf(),
        number_in_range(m),
        holds_at(s, i, render(m)),
        i + render(m).len() == s.len() || !continues_number(s[i + render(m).len()]),
        m.digits.len() > 0, -(m.digits.len() + plain_limit()) <= m.exponent <= -(m.digits.len() as int),
    ensures
        scan_number(s, i) == Ok::<(NumberModel, int), crate::lexer::LexerError>((m, i + render(m).len())),
{
    let ds = m.digits;
    let n = ds.len() as int;
    let e = m.exponent;
    let neg = m.negative;
    let d = digit_text(ds);
    let none = Seq::<u8>::empty();
    assert(d.len() == n);
    let z = (-e - n) as nat;
    let id = seq![0u8];
    let fd = zero_digits(z) + ds;
    assert(digit_text(id) =~= seq!['0']) by {
        assert(digit_char(0) as int == 48);
    }
    lemma_zeros_text(z);
    lemma_digit_text_concat(zero_digits(z), ds);
    assert(digit_text(none) =~= Seq::<char>::empty());
    assert(render(m) =~= literal_text(neg, id, true, fd, false, false, none));
    lemma_scan_literal_number(s, i, neg, id, true, fd, false, false, none);
    assert(id + fd =~= zero_digits(z + 1) + ds);
    lemma_normalize_leading(neg, z + 1, ds, e);
    assert(number_from_parts(neg, id + fd, fd.len() as int, 0) == m);
}

#[verifier::rlimit(40)]
proof fn lemma_render_sci1(s: Seq<char>, i: int, m: NumberModel)
    requires
        m.wf(),
        number_in_range(m),
        holds_at(s, i, render(m)),
        i + render(m).len() == s.len() || !continues_number(s[i + render(m).len()]),
        m.digits.len() == 1,
        !(0 <= m.exponent <= plain_limit()),
        !(-(m.digits.len() as int) < m.exponent < 0),
        !(-(m.digits.len() + plain_limit()) <= m.exponent <= -(m.digits.len() as int)),
    ensures
        scan_number(s, i) == Ok::<(NumberModel, int), crate::lexer::LexerError>((m, i + render(m).len())),
{
    let ds = m.digits;
    let n = ds.len() as int;
    let e = m.exponent;
    let neg = m.negative;
    let d = digit_text(ds);
    let none = Seq::<u8>::empty();
    assert(d.len() == n);
    let xd = nat_digits(if e < 0 { (-e) as nat } else { e as nat });
    lemma_nat_digits(if e < 0 { (-e) as nat } else { e as nat });
    assert(digit_text(none) =~= Seq::<char>::empty());
    assert(render(m) =~= literal_text(neg, ds, false, none, true, e < 0, xd));
    lemma_scan_literal_number(s, i, neg, ds, false, none, true, e < 0, xd);
    assert(ds + none =~= ds);
    lemma_normalize_canonical(neg, ds, e);
    assert(saturated(xd) == if e < 0 { -e } else { e });
    assert(number_from_parts(neg, ds + none, 0, if e < 0 { -saturated(xd) } else { saturated(xd) }) == m);
}

#[verifier::rlimit(40)]
proof fn lemma_render_sci(s: Seq<char>, i: int, m: NumberModel)
    requires
        m.wf(),
        number_in_range(m),
        holds_at(s, i, render(m)),
        i + render(m).len() == s.len() || !continues_number(s[i + render(m).len()]),
        m.digits.len() > 1,
        !(0 <= m.exponent <= plain_limit()),
        !(-(m.digits.len() as int) < m.exponent < 0),
        !(-(m.digits.len() + plain_limit()) <= m.exponent <= -(m.digits.len() as int)),
    ensures
        scan_number(s, i) == Ok::<(NumberModel, int), crate::lexer::LexerError>((m, i + render(m).len())),
{
    let ds = m.digits;
    let n = ds.len() as int;
    let e = m.exponent;
    let neg = m.negative;
    let d = digit_text(ds);
    let none = Seq::<u8>::empty();
    assert(d.len() == n);
    let x = e + n - 1;
    let xd = nat_digits(if x < 0 { (-x) as nat } else { x as nat });
    lemma_nat_digits(if x < 0 { (-x) as nat } else { x as nat });
    let id = ds.take(1);
    let fd = ds.skip(1);
    assert(digit_text(id) =~= d.take(1));
    assert(digit_text(fd) =~= d.skip(1));
    assert(render(m) =~= literal_text(neg, id, true, fd, true, x < 0, xd));
    lemma_scan_literal_number(s, i, neg, id, true, fd, true, x < 0, xd);
    assert(id + fd =~= ds);
    lemma_normalize_canonical(neg, ds, e);
    assert(saturated(xd) == if x < 0 { -x } else { x });
    assert(number_from_parts(neg, id + fd, fd.len() as int, if x < 0 { -saturated(xd) } else { saturated(xd) }) == m);
}

/// Reading the written text of a number gives the number back, when what
/// follows the text cannot continue a number.
pub proof fn lemma_scan_render(s: Seq<char>, i: int, m: NumberModel)
    requires
        m.wf(),
        number_in_range(m),
        holds_at(s, i, render(m)),
        i + render(m).len() == s.len() || !continues_number(s[i + render(m).len()]),
    ensures
        scan_number(s, i) == Ok::<(NumberModel, int), crate::lexer::LexerError>((m, i + render(m).len())),
{
    let n = m.digits.len() as int;
    let e = m.exponent;
    if n == 0 {
        lemma_render_zero(s, i, m);
    } else if 0 <= e <= plain_limit() {
        lemma_render_plain(s, i, m);
    } else if -n < e < 0 {
        lemma_render_frac(s, i, m);
    } else if -(n + plain_limit()) <= e <= -n {
        lemma_render_small(s, i, m);
    } else if n == 1 {
        lemma_render_sci1(s, i, m);
    } else {
        lemma_render_sci(s, i, m);
    }
}

// ----- reading one token of written text -----

/// What may follow a written value: the end, `,`, `]`, `}` or a line break.
pub open spec fn ends_value(s: Seq<char>, j: int) -> bool {
    j == s.len() || (0 <= j < s.len() && (s[j] == ',' || s[j] == ']' || s[j] == '}' || s[j]
        == '\n'))
}

/// A digit is not whitespace.
proof fn lemma_digit_not_space(d: u8)
    requires
        d < 10,
    ensures
        !is_whitespace(digit_char(d as int)),
        punct(digit_char(d as int)) is None,
{
    assert(d == 0 || d == 1 || d == 2 || d == 3 || d == 4 || d == 5 || d == 6 || d == 7 || d == 8
        || d == 9);
}

/// Escaping, from the front.
proof fn lemma_escaped_front(u: Seq<char>)
    requires
        u.len() > 0,
    ensures
        escaped(u) == escape_char(u[0]) + escaped(u.drop_first()),
    decreases u.len(),
{
    if u.len() == 1 {
        assert(u.drop_last() =~= Seq::<char>::empty());
        assert(u.drop_first() =~= Seq::<char>::empty());
        assert(escaped(u.drop_last()) == Seq::<char>::empty());
        assert(u.last() == u[0]);
        assert(escaped(u) == escaped(u.drop_last()) + escape_char(u.last()));
        assert(escaped(u) =~= escape_char(u[0]));
        assert(escape_char(u[0]) + Seq::<char>::empty() =~= escape_char(u[0]));
    } else {
        let w = u.drop_last();
        lemma_escaped_front(w);
        assert(u.drop_first().drop_last() =~= w.drop_first());
        assert(u.drop_first().last() == u.last());
        assert(escaped(u) =~= escape_char(u[0]) + escaped(u.drop_first()));
    }
}

/// Reading the `\u00XX` escape of a control character at `k`.
proof fn lemma_scan_control(s: Seq<char>, k: int, c: char)
    requires
        (c as u32) < 0x20,
        c != '\n' && c != '\t' && c != '\u{8}' && c != '\u{c}' && c != '\r',
        holds_at(s, k, escape_char(c)),
    ensures
        s[k] == '\\',
        scan_escape(s, k + 1) == Ok::<(char, int), crate::lexer::LexerError>((c, k + 6)),
{
    let es = escape_char(c);
    let hi = ((c as u32) / 16) as int;
    let lo = ((c as u32) % 16) as int;
    crate::serializer::lemma_control_escape(c);
    crate::serializer::lemma_hex_digit(hi);
    crate::serializer::lemma_hex_digit(lo);
    assert(es.len() == 6);
    lemma_holds_at_index(s, k, es, 0);
    lemma_holds_at_index(s, k, es, 1);
    lemma_holds_at_index(s, k, es, 2);
    lemma_holds_at_index(s, k, es, 3);
    lemma_holds_at_index(s, k, es, 4);
    lemma_holds_at_index(s, k, es, 5);
    assert(s[k + 2] == '0' && s[k + 3] == '0');
    assert(crate::lexer::hex_value('0') == 0);
    assert(scan_hex(s, k + 2, 4, 16 * hi + lo) == Ok::<int, crate::lexer::LexerError>(16 * hi + lo));
    assert(scan_hex(s, k + 2, 3, hi) == scan_hex(s, k + 2, 4, 16 * hi + lo));
    assert(scan_hex(s, k + 2, 2, 0) == scan_hex(s, k + 2, 3, hi));
    assert(scan_hex(s, k + 2, 1, 0) == scan_hex(s, k + 2, 2, 0));
    assert(scan_hex(s, k + 2, 0, 0) == scan_hex(s, k + 2, 1, 0));
    assert(16 * hi + lo == (c as u32) as int);
    vstd::utf8::char_u32_cast(c, c as u32);
    assert(((16 * hi + lo) as char) == c);
}

/// Reading the escaped text of `u` and the closing quote.
proof fn lemma_scan_escaped(s: Seq<char>, k: int, u: Seq<char>, acc: Seq<char>, st: Position)
    requires
        holds_at(s, k, escaped(u) + seq!['"']),
    ensures
        scan_string(s, k, acc, st) == Ok::<(Seq<char>, int), crate::lexer::LexerError>(
            (acc + u, k + escaped(u).len() + 1),
        ),
    decreases u.len(),
{
    if u.len() == 0 {
        assert(escaped(u) =~= Seq::<char>::empty());
        lemma_holds_at_index(s, k, escaped(u) + seq!['"'], 0);
        assert(acc + u =~= acc);
    } else {
        let c = u[0];
        let rest = u.drop_first();
        let es = escape_char(c);
        lemma_escaped_front(u);
        assert(escaped(u) + seq!['"'] =~= es + (escaped(rest) + seq!['"']));
        lemma_holds_at_concat(s, k, es, escaped(rest) + seq!['"']);
        lemma_holds_at_index(s, k, es, 0);
        assert(acc.push(c) + rest =~= acc + u);
        if c == '"' || c == '\\' || c == '\n' || c == '\t' || c == '\u{8}' || c == '\u{c}' || c == '\r' {
            lemma_holds_at_index(s, k, es, 1);
            lemma_scan_escaped(s, k + 2, rest, acc.push(c), st);
        } else if (c as u32) < 0x20 {
            lemma_scan_control(s, k, c);
            lemma_scan_escaped(s, k + 6, rest, acc.push(c), st);
        } else {
            lemma_scan_escaped(s, k + 1, rest, acc.push(c), st);
        }
    }
}

/// Reading a written string.
proof fn lemma_lex_string(s: Seq<char>, i: int, u: Seq<char>)
    requires
        holds_at(s, i, quoted(u)),
    ensures
        lex_token(s, i) == LexStep::Token(
            SpannedModel { token: TokenModel::Str(u), position: pos_at(s, i) },
            i + quoted(u).len(),
        ),
{
    assert(quoted(u) =~= seq!['"'] + (escaped(u) + seq!['"']));
    lemma_holds_at_concat(s, i, seq!['"'], escaped(u) + seq!['"']);
    lemma_holds_at_index(s, i, seq!['"'], 0);
    lemma_scan_escaped(s, i + 1, u, Seq::empty(), pos_at(s, i));
    assert(Seq::<char>::empty() + u =~= u);
}

proof fn lemma_scan_word(s: Seq<char>, i: int, word: Seq<char>, m: int)
    requires
        holds_at(s, i, word),
        0 <= m <= word.len(),
        ends_value(s, i + word.len()),
    ensures
        scan_literal(s, i, word, m) == Ok::<int, crate::lexer::LexerError>(i + word.len()),
    decreases word.len() - m,
{
    if m < word.len() {
        lemma_holds_at_index(s, i, word, m);
        lemma_scan_word(s, i, word, m + 1);
    }
}

/// Reading a written literal word.
proof fn lemma_lex_word(s: Seq<char>, i: int, word: Seq<char>, t: TokenModel)
    requires
        holds_at(s, i, word),
        ends_value(s, i + word.len()),
        (word == word_true() && t == TokenModel::True) || (word == word_false() && t
            == TokenModel::False) || (word == word_null() && t == TokenModel::Null),
    ensures
        lex_token(s, i) == LexStep::Token(
            SpannedModel { token: t, position: pos_at(s, i) },
            i + word.len(),
        ),
{
    lemma_holds_at_index(s, i, word, 0);
    lemma_scan_word(s, i, word, 0);
}

/// Reading a punctuation mark.
proof fn lemma_lex_punct(s: Seq<char>, i: int)
    requires
        0 <= i < s.len(),
        punct(s[i]) is Some,
    ensures
        lex_token(s, i) == LexStep::Token(
            SpannedModel { token: punct(s[i])->0, position: pos_at(s, i) },
            i + 1,
        ),
{
}

/// Reading a written number.
proof fn lemma_lex_number(s: Seq<char>, i: int, m: NumberModel)
    requires
        m.wf(),
        number_in_range(m),
        holds_at(s, i, render(m)),
        ends_value(s, i + render(m).len()),
    ensures
        lex_token(s, i) == LexStep::Token(
            SpannedModel { token: TokenModel::Num(m), position: pos_at(s, i) },
            i + render(m).len(),
        ),
{
    lemma_scan_render(s, i, m);
    let mt = magnitude_text(m);
    let c0 = if m.digits.len() == 0 {
        '0'
    } else if 0 <= m.exponent <= plain_limit() || -(m.digits.len() as int) < m.exponent < 0 || m.exponent
        < -(m.digits.len() as int) - plain_limit() || m.exponent > plain_limit() {
        digit_char(m.digits[0] as int)
    } else {
        '0'
    };
    assert(mt.len() > 0 && mt[0] == c0) by {
        assert(digit_text(m.digits).len() == m.digits.len());
    }
    if m.digits.len() > 0 {
        lemma_digit_not_space(m.digits[0]);
        lemma_digit_char(m.digits[0]);
    }
    if m.negative {
        lemma_holds_at_index(s, i, render(m), 0);
    } else {
        lemma_holds_at_index(s, i, render(m), 0);
        assert(s[i] == c0);
    }
}

// ----- reading a whole written document -----

/// Every number in the document can be written back within the limit on
/// exponents.
pub open spec fn numbers_in_range(v: JsonModel) -> bool
    decreases v,
{
    match v {
        JsonModel::Number(n) => number_in_range(n),
        JsonModel::Array(items) => forall|i: int| 0 <= i < items.len() ==> numbers_in_range(#[trigger] items[i]),
        JsonModel::Object(es) => forall|i: int| 0 <= i < es.len() ==> numbers_in_range(#[trigger] es[i].1),
        _ => true,
    }
}

/// The tokens of the written text of a document.
pub open spec fn tokens(v: JsonModel) -> Seq<TokenModel>
    decreases v,
{
    match v {
        JsonModel::Null => seq![TokenModel::Null],
        JsonModel::Bool(b) => if b {
            seq![TokenModel::True]
        } else {
            seq![TokenModel::False]
        },
        JsonModel::Number(n) => seq![TokenModel::Num(n)],
        JsonModel::String(t) => seq![TokenModel::Str(t)],
        JsonModel::Array(items) => seq![TokenModel::LeftBracket] + tokens_items(items) + seq![
            TokenModel::RightBracket,
        ],
        JsonModel::Object(es) => seq![TokenModel::LeftBrace] + tokens_members(es) + seq![
            TokenModel::RightBrace,
        ],
    }
}

pub open spec fn tokens_items(items: Seq<JsonModel>) -> Seq<TokenModel>
    decreases items,
{
    if items.len() == 0 {
        Seq::empty()
    } else {
        let init = items.subrange(0, items.len() - 1);
        (if init.len() == 0 {
            Seq::empty()
        } else {
            tokens_items(init) + seq![TokenModel::Comma]
        }) + tokens(items[items.len() - 1])
    }
}

pub open spec fn tokens_members(es: Seq<(Seq<char>, JsonModel)>) -> Seq<TokenModel>
    decreases es,
{
    if es.len() == 0 {
        Seq::empty()
    } else {
        let init = es.subrange(0, es.len() - 1);
        (if init.len() == 0 {
            Seq::empty()
        } else {
            tokens_members(init) + seq![TokenModel::Comma]
        }) + seq![TokenModel::Str(es[es.len() - 1].0), TokenModel::Colon] + tokens(
            es[es.len() - 1].1,
        )
    }
}

/// Reading from `i` gives tokens of the kinds `ks`, in order, and stops at `j`.
pub open spec fn lexes(s: Seq<char>, i: int, j: int, ks: Seq<TokenModel>) -> bool
    decreases ks.len(),
{
    if ks.len() == 0 {
        i == j
    } else {
        match lex_token(s, i) {
            LexStep::Token(t, k) => t.token == ks[0] && i < k <= s.len() && lexes(s, k, j, ks.drop_first()),
            _ => false,
        }
    }
}

proof fn lemma_lexes_concat(s: Seq<char>, i: int, j: int, l: int, a: Seq<TokenModel>, b: Seq<TokenModel>)
    requires
        lexes(s, i, j, a),
        lexes(s, j, l, b),
    ensures
        lexes(s, i, l, a + b),
    decreases a.len(),
{
    if a.len() == 0 {
        assert(a + b =~= b);
    } else {
        match lex_token(s, i) {
            LexStep::Token(t, k) => {
                lemma_lexes_concat(s, k, j, l, a.drop_first(), b);
                assert((a + b).drop_first() =~= a.drop_first() + b);
            },
            _ => {},
        }
    }
}

proof fn lemma_lexes_one(s: Seq<char>, i: int, k: int, sp: SpannedModel)
    requires
        lex_token(s, i) == LexStep::Token(sp, k),
        i < k <= s.len(),
    ensures
        lexes(s, i, k, seq![sp.token]),
{
    assert(seq![sp.token].drop_first() =~= Seq::<TokenModel>::empty());
    assert(lexes(s, k, k, Seq::<TokenModel>::empty()));
}

#[verifier::spinoff_prover]
proof fn lemma_lex_compact(s: Seq<char>, i: int, v: JsonModel)
    requires
        model_wf(v),
        numbers_in_range(v),
        holds_at(s, i, compact(v)),
        ends_value(s, i + compact(v).len()),
    ensures
        lexes(s, i, i + compact(v).len(), tokens(v)),
    decreases v, 0nat,
{
    let c = compact(v);
    match v {
        JsonModel::Null => {
            assert(c == word_null());
            lemma_lex_word(s, i, word_null(), TokenModel::Null);
            lemma_lexes_one(s, i, i + 4, SpannedModel { token: TokenModel::Null, position: pos_at(s, i) });
        },
        JsonModel::Bool(b) => {
            if b {
                assert(c == word_true());
                lemma_lex_word(s, i, word_true(), TokenModel::True);
                lemma_lexes_one(s, i, i + 4, SpannedModel { token: TokenModel::True, position: pos_at(s, i) });
            } else {
                assert(c == word_false());
                lemma_lex_word(s, i, word_false(), TokenModel::False);
                lemma_lexes_one(s, i, i + 5, SpannedModel { token: TokenModel::False, position: pos_at(s, i) });
            }
        },
        JsonModel::Number(n) => {
            lemma_lex_number(s, i, n);
            lemma_lexes_one(s, i, i + c.len(), SpannedModel { token: TokenModel::Num(n), position: pos_at(s, i) });
        },
        JsonModel::String(t) => {
            lemma_lex_string(s, i, t);
            lemma_lexes_one(s, i, i + c.len(), SpannedModel { token: TokenModel::Str(t), position: pos_at(s, i) });
        },
        JsonModel::Array(items) => {
            let inner = compact_items(items);
            assert(c == seq!['['] + inner + seq![']']);
            lemma_holds_at_concat(s, i, seq!['['] + inner, seq![']']);
            lemma_holds_at_concat(s, i, seq!['['], inner);
            lemma_holds_at_index(s, i, seq!['['], 0);
            lemma_holds_at_index(s, i + 1 + inner.len(), seq![']'], 0);
            lemma_lex_punct(s, i);
            lemma_lexes_one(s, i, i + 1, SpannedModel { token: TokenModel::LeftBracket, position: pos_at(s, i) });
            let e = i + 1 + inner.len();
            lemma_lex_punct(s, e);
            lemma_lexes_one(s, e, e + 1, SpannedModel { token: TokenModel::RightBracket, position: pos_at(s, e) });
            assert(items.subrange(0, items.len() as int) =~= items);
            lemma_lex_items(s, i + 1, items, items.len() as int);
            lemma_lexes_concat(s, i, i + 1, e, seq![TokenModel::LeftBracket], tokens_items(items));
            lemma_lexes_concat(s, i, e, e + 1, seq![TokenModel::LeftBracket] + tokens_items(items), seq![TokenModel::RightBracket]);
        },
        JsonModel::Object(es) => {
            let inner = compact_members(es);
            assert(c == seq!['{'] + inner + seq!['}']);
            lemma_holds_at_concat(s, i, seq!['{'] + inner, seq!['}']);
            lemma_holds_at_concat(s, i, seq!['{'], inner);
            lemma_holds_at_index(s, i, seq!['{'], 0);
            lemma_holds_at_index(s, i + 1 + inner.len(), seq!['}'], 0);
            lemma_lex_punct(s, i);
            lemma_lexes_one(s, i, i + 1, SpannedModel { token: TokenModel::LeftBrace, position: pos_at(s, i) });
            let e = i + 1 + inner.len();
            lemma_lex_punct(s, e);
            lemma_lexes_one(s, e, e + 1, SpannedModel { token: TokenModel::RightBrace, position: pos_at(s, e) });
            assert(es.subrange(0, es.len() as int) =~= es);
            lemma_lex_members(s, i + 1, es, es.len() as int);
            lemma_lexes_concat(s, i, i + 1, e, seq![TokenModel::LeftBrace], tokens_members(es));
            lemma_lexes_concat(s, i, e, e + 1, seq![TokenModel::LeftBrace] + tokens_members(es), seq![TokenModel::RightBrace]);
        },
    }
}

#[verifier::spinoff_prover]
proof fn lemma_lex_items(s: Seq<char>, i: int, items: Seq<JsonModel>, n: int)
    requires
        0 <= n <= items.len(),
        forall|t: int| 0 <= t < items.len() ==> model_wf(#[trigger] items[t]),
        forall|t: int| 0 <= t < items.len() ==> numbers_in_range(#[trigger] items[t]),
        holds_at(s, i, compact_items(items.subrange(0, n))),
        ends_value(s, i + compact_items(items.subrange(0, n)).len()),
    ensures
        lexes(s, i, i + compact_items(items.subrange(0, n)).len(), tokens_items(items.subrange(0, n))),
    decreases items, n,
{
    let pre = items.subrange(0, n);
    if n == 0 {
        assert(compact_items(pre) =~= Seq::<char>::empty());
        assert(tokens_items(pre) =~= Seq::<TokenModel>::empty());
    } else {
        let init = items.subrange(0, n - 1);
        assert(pre.subrange(0, n - 1) =~= init);
        assert(pre[n - 1] == items[n - 1]);
        let last = compact(items[n - 1]);
        assert(decreases_to!(items => items[n - 1]));
        if n == 1 {
            assert(compact_items(pre) =~= last);
            assert(tokens_items(pre) =~= tokens(items[0]));
            lemma_lex_compact(s, i, items[0]);
        } else {
            let ci = compact_items(init);
            assert(compact_items(pre) == ci + seq![','] + last);
            lemma_holds_at_concat(s, i, ci + seq![','], last);
            lemma_holds_at_concat(s, i, ci, seq![',']);
            lemma_holds_at_index(s, i + ci.len(), seq![','], 0);
            lemma_lex_items(s, i, items, n - 1);
            let p = i + ci.len();
            lemma_lex_punct(s, p);
            lemma_lexes_one(s, p, p + 1, SpannedModel { token: TokenModel::Comma, position: pos_at(s, p) });
            lemma_lex_compact(s, p + 1, items[n - 1]);
            lemma_lexes_concat(s, i, p, p + 1, tokens_items(init), seq![TokenModel::Comma]);
            lemma_lexes_concat(s, i, p + 1, p + 1 + last.len(), tokens_items(init) + seq![TokenModel::Comma], tokens(items[n - 1]));
        }
    }
}

#[verifier::spinoff_prover]
proof fn lemma_lex_members(s: Seq<char>, i: int, es: Seq<(Seq<char>, JsonModel)>, n: int)
    requires
        0 <= n <= es.len(),
        forall|t: int| 0 <= t < es.len() ==> model_wf(#[trigger] es[t].1),
        forall|t: int| 0 <= t < es.len() ==> numbers_in_range(#[trigger] es[t].1),
        holds_at(s, i, compact_members(es.subrange(0, n))),
        ends_value(s, i + compact_members(es.subrange(0, n)).len()),
    ensures
        lexes(s, i, i + compact_members(es.subrange(0, n)).len(), tokens_members(es.subrange(0, n))),
    decreases es, n,
{
    let pre = es.subrange(0, n);
    if n == 0 {
        assert(compact_members(pre) =~= Seq::<char>::empty());
        assert(tokens_members(pre) =~= Seq::<TokenModel>::empty());
    } else {
        let init = es.subrange(0, n - 1);
        assert(pre.subrange(0, n - 1) =~= init);
        assert(pre[n - 1] == es[n - 1]);
        let k = es[n - 1].0;
        let v = es[n - 1].1;
        let member_text = quoted(k) + seq![':'] + compact(v);
        let member_tokens = seq![TokenModel::Str(k), TokenModel::Colon] + tokens(v);
        assert(decreases_to!(es => es[n - 1]));
        assert(decreases_to!(es[n - 1] => es[n - 1].1));
        let (start, head_tokens) = if n == 1 {
            (i, Seq::<TokenModel>::empty())
        } else {
            (i + compact_members(init).len() + 1, tokens_members(init) + seq![TokenModel::Comma])
        };
        if n == 1 {
            assert(compact_members(pre) =~= member_text);
            assert(tokens_members(pre) =~= member_tokens);
        } else {
            let ci = compact_members(init);
            assert(compact_members(pre) =~= ci + seq![','] + member_text);
            assert(tokens_members(pre) =~= head_tokens + member_tokens);
            lemma_holds_at_concat(s, i, ci + seq![','], member_text);
            lemma_holds_at_concat(s, i, ci, seq![',']);
            lemma_holds_at_index(s, i + ci.len(), seq![','], 0);
            lemma_lex_members(s, i, es, n - 1);
            let p = i + ci.len();
            lemma_lex_punct(s, p);
            lemma_lexes_one(s, p, p + 1, SpannedModel { token: TokenModel::Comma, position: pos_at(s, p) });
            lemma_lexes_concat(s, i, p, p + 1, tokens_members(init), seq![TokenModel::Comma]);
        }
        // the member itself
        lemma_holds_at_concat(s, start, quoted(k) + seq![':'], compact(v));
        lemma_holds_at_concat(s, start, quoted(k), seq![':']);
        lemma_lex_string(s, start, k);
        let c = start + quoted(k).len();
        lemma_lexes_one(s, start, c, SpannedModel { token: TokenModel::Str(k), position: pos_at(s, start) });
        lemma_holds_at_index(s, c, seq![':'], 0);
        lemma_lex_punct(s, c);
        lemma_lexes_one(s, c, c + 1, SpannedModel { token: TokenModel::Colon, position: pos_at(s, c) });
        lemma_lex_compact(s, c + 1, v);
        lemma_lexes_concat(s, start, c, c + 1, seq![TokenModel::Str(k)], seq![TokenModel::Colon]);
        assert(seq![TokenModel::Str(k)] + seq![TokenModel::Colon] =~= seq![TokenModel::Str(k), TokenModel::Colon]);
        lemma_lexes_concat(s, start, c + 1, c + 1 + compact(v).len(), seq![TokenModel::Str(k), TokenModel::Colon], tokens(v));
        if n > 1 {
            lemma_lexes_concat(s, i, start, start + member_text.len(), head_tokens, member_tokens);
        }
    }
}

// ----- from characters to tokens -----

#[verifier::spinoff_prover]
proof fn lemma_lexes_lex_all(s: Seq<char>, i: int, j: int, ks: Seq<TokenModel>)
    requires
        lexes(s, i, j, ks),
    ensures
        lex_all(s, i).0.len() == ks.len() + lex_all(s, j).0.len(),
        forall|t: int| 0 <= t < ks.len() ==> (#[trigger] lex_all(s, i).0[t]).token == ks[t],
        lex_all(s, i).0.skip(ks.len() as int) == lex_all(s, j).0,
        lex_all(s, i).1 == lex_all(s, j).1,
    decreases ks.len(),
{
    if ks.len() == 0 {
        assert(lex_all(s, i).0.skip(0) =~= lex_all(s, i).0);
    } else {
        match lex_token(s, i) {
            LexStep::Token(t, k) => {
                lemma_lexes_lex_all(s, k, j, ks.drop_first());
                let all = lex_all(s, i).0;
                assert(all == seq![t] + lex_all(s, k).0);
                assert forall|x: int| 0 <= x < ks.len() implies (#[trigger] all[x]).token == ks[x] by {
                    if x > 0 {
                        assert(all[x] == lex_all(s, k).0[x - 1]);
                    }
                }
                assert(all.skip(ks.len() as int) =~= lex_all(s, k).0.skip(ks.len() - 1));
            },
            _ => {},
        }
    }
}

// ----- from tokens to a document -----

/// The stream holds tokens of the kinds `ks` from index `k`.
pub open spec fn toks_at(st: Stream, k: int, ks: Seq<TokenModel>) -> bool {
    &&& 0 <= k
    &&& k + ks.len() <= st.toks.len()
    &&& forall|t: int| 0 <= t < ks.len() ==> (#[trigger] st.toks[k + t]).token == ks[t]
}

proof fn lemma_toks_at_split(st: Stream, k: int, a: Seq<TokenModel>, b: Seq<TokenModel>)
    requires
        toks_at(st, k, a + b),
    ensures
        toks_at(st, k, a),
        toks_at(st, k + a.len(), b),
{
    assert forall|t: int| 0 <= t < a.len() implies (#[trigger] st.toks[k + t]).token == a[t] by {
        assert((a + b)[t] == a[t]);
    }
    assert forall|t: int| 0 <= t < b.len() implies (#[trigger] st.toks[k + a.len() + t]).token == b[t] by {
        assert((a + b)[a.len() + t] == b[t]);
        assert(st.toks[k + (a.len() + t)] == st.toks[k + a.len() + t]);
    }
}

/// The first token of a written value opens it.
proof fn lemma_tokens_first(v: JsonModel)
    ensures
        tokens(v).len() >= 1,
        tokens(v)[0] != TokenModel::RightBracket,
        tokens(v)[0] != TokenModel::RightBrace,
        tokens(v)[0] != TokenModel::Comma,
        tokens(v)[0] != TokenModel::Colon,
{
}

proof fn lemma_tokens_items_front(items: Seq<JsonModel>)
    requires
        items.len() > 0,
    ensures
        tokens_items(items) == tokens(items[0]) + if items.len() > 1 {
            seq![TokenModel::Comma] + tokens_items(items.drop_first())
        } else {
            Seq::empty()
        },
    decreases items.len(),
{
    let init = items.subrange(0, items.len() - 1);
    if items.len() == 1 {
        assert(init =~= Seq::<JsonModel>::empty());
        assert(tokens(items[0]) + Seq::<TokenModel>::empty() =~= tokens(items[0]));
    } else {
        lemma_tokens_items_front(init);
        let rest = items.drop_first();
        assert(rest.subrange(0, rest.len() - 1) =~= init.drop_first());
        assert(rest[rest.len() - 1] == items[items.len() - 1]);
        assert(init[0] == items[0]);
        if items.len() == 2 {
            assert(init.drop_first() =~= Seq::<JsonModel>::empty());
        }
        assert(tokens_items(items) =~= tokens(items[0]) + (seq![TokenModel::Comma] + tokens_items(rest)));
    }
}

proof fn lemma_tokens_members_front(es: Seq<(Seq<char>, JsonModel)>)
    requires
        es.len() > 0,
    ensures
        tokens_members(es) == seq![TokenModel::Str(es[0].0), TokenModel::Colon] + tokens(es[0].1) + if es.len() > 1 {
            seq![TokenModel::Comma] + tokens_members(es.drop_first())
        } else {
            Seq::empty()
        },
    decreases es.len(),
{
    let init = es.subrange(0, es.len() - 1);
    let head = seq![TokenModel::Str(es[0].0), TokenModel::Colon] + tokens(es[0].1);
    if es.len() == 1 {
        assert(init =~= Seq::<(Seq<char>, JsonModel)>::empty());
        assert(head + Seq::<TokenModel>::empty() =~= head);
        assert(tokens_members(es) =~= head);
    } else {
        lemma_tokens_members_front(init);
        let rest = es.drop_first();
        assert(rest.subrange(0, rest.len() - 1) =~= init.drop_first());
        assert(rest[rest.len() - 1] == es[es.len() - 1]);
        assert(init[0] == es[0]);
        if es.len() == 2 {
            assert(init.drop_first() =~= Seq::<(Seq<char>, JsonModel)>::empty());
        }
        assert(tokens_members(es) =~= head + (seq![TokenModel::Comma] + tokens_members(rest)));
    }
}

/// With sorted keys, setting the next key appends it.
proof fn lemma_with_member_next(es: Seq<(Seq<char>, JsonModel)>, m: int)
    requires
        keys_sorted(es),
        0 <= m < es.len(),
    ensures
        with_member(es.subrange(0, m), es[m].0, es[m].1) == es.subrange(0, m + 1),
{
    let acc = es.subrange(0, m);
    let key = es[m].0;
    assert forall|j: int| 0 <= j < acc.len() implies (#[trigger] acc[j]).0 != key by {
        assert(acc[j] == es[j]);
        assert(crate::value::key_less(es[j].0, es[m].0));
        if es[j].0 == key {
            lemma_key_less_irreflexive(key);
        }
    }
    lemma_absent(acc, key);
    assert forall|j: int| 0 <= j < m implies !crate::value::key_less(key, (#[trigger] acc[j]).0) by {
        assert(acc[j] == es[j]);
        lemma_key_less_asymmetric(es[j].0, key);
    }
    lemma_insert_index(acc, key, m);
    assert(acc.insert(m, (key, es[m].1)) =~= es.subrange(0, m + 1));
}

#[verifier::spinoff_prover]
proof fn lemma_parse_value(st: Stream, k: int, v: JsonModel)
    requires
        toks_at(st, k, tokens(v)),
        model_wf(v),
    ensures
        p_value(st, k) == Ok::<(JsonModel, int), crate::error::JsonError>((v, k + tokens(v).len())),
    decreases v, 0nat,
{
    assert(st.toks[k + 0].token == tokens(v)[0]);
    match v {
        JsonModel::Array(items) => {
            let ti = tokens_items(items);
            assert(tokens(v) == seq![TokenModel::LeftBracket] + (ti + seq![TokenModel::RightBracket]));
            lemma_toks_at_split(st, k, seq![TokenModel::LeftBracket], ti + seq![TokenModel::RightBracket]);
            if items.len() == 0 {
                assert(ti =~= Seq::<TokenModel>::empty());
                assert(st.toks[k + 1 + 0].token == TokenModel::RightBracket);
                assert(items =~= Seq::<JsonModel>::empty());
                assert(eats(st, k + 1, TokenModel::RightBracket) == Ok::<bool, crate::error::JsonError>(true));
                assert(p_array(st, k + 1) == Ok::<(JsonModel, int), crate::error::JsonError>((v, k + 2)));
            } else {
                lemma_tokens_items_front(items);
                lemma_tokens_first(items[0]);
                assert(st.toks[k + 1 + 0].token == (ti + seq![TokenModel::RightBracket])[0]);
                assert(items.subrange(0, items.len() as int) =~= items);
                lemma_parse_items(st, k + 1, items, 0);
                assert(items.subrange(0, 0) =~= Seq::<JsonModel>::empty());
            }
        },
        JsonModel::Object(es) => {
            let tm = tokens_members(es);
            assert(tokens(v) == seq![TokenModel::LeftBrace] + (tm + seq![TokenModel::RightBrace]));
            lemma_toks_at_split(st, k, seq![TokenModel::LeftBrace], tm + seq![TokenModel::RightBrace]);
            if es.len() == 0 {
                assert(tm =~= Seq::<TokenModel>::empty());
                assert(st.toks[k + 1 + 0].token == TokenModel::RightBrace);
                assert(es =~= Seq::<(Seq<char>, JsonModel)>::empty());
                assert(eats(st, k + 1, TokenModel::RightBrace) == Ok::<bool, crate::error::JsonError>(true));
                assert(p_object(st, k + 1) == Ok::<(JsonModel, int), crate::error::JsonError>((v, k + 2)));
            } else {
                lemma_tokens_members_front(es);
                assert(st.toks[k + 1 + 0].token == (tm + seq![TokenModel::RightBrace])[0]);
                assert(es.subrange(0, es.len() as int) =~= es);
                lemma_parse_members(st, k + 1, es, 0);
                assert(es.subrange(0, 0) =~= Seq::<(Seq<char>, JsonModel)>::empty());
            }
        },
        _ => {},
    }
}

#[verifier::spinoff_prover]
proof fn lemma_parse_items(st: Stream, k: int, items: Seq<JsonModel>, m: int)
    requires
        0 <= m < items.len(),
        forall|t: int| 0 <= t < items.len() ==> model_wf(#[trigger] items[t]),
        toks_at(st, k, tokens_items(items.subrange(m, items.len() as int)) + seq![TokenModel::RightBracket]),
    ensures
        p_items(st, k, items.subrange(0, m)) == Ok::<(JsonModel, int), crate::error::JsonError>(
            (JsonModel::Array(items), k + tokens_items(items.subrange(m, items.len() as int)).len() + 1),
        ),
    decreases items, items.len() - m,
{
    let rest = items.subrange(m, items.len() as int);
    lemma_tokens_items_front(rest);
    assert(rest[0] == items[m]);
    let tv = tokens(items[m]);
    let tail = if rest.len() > 1 {
        seq![TokenModel::Comma] + tokens_items(rest.drop_first())
    } else {
        Seq::<TokenModel>::empty()
    };
    assert(tokens_items(rest) + seq![TokenModel::RightBracket] =~= tv + (tail + seq![TokenModel::RightBracket]));
    lemma_toks_at_split(st, k, tv, tail + seq![TokenModel::RightBracket]);
    assert(decreases_to!(items => items[m]));
    lemma_parse_value(st, k, items[m]);
    let k1 = k + tv.len();
    lemma_tokens_first(items[m]);
    let acc2 = items.subrange(0, m).push(items[m]);
    assert(acc2 =~= items.subrange(0, m + 1));
    if m + 1 < items.len() {
        assert(rest.drop_first() =~= items.subrange(m + 1, items.len() as int));
        let next = items.subrange(m + 1, items.len() as int);
        assert(tail + seq![TokenModel::RightBracket] =~= seq![TokenModel::Comma] + (tokens_items(next) + seq![TokenModel::RightBracket]));
        lemma_toks_at_split(st, k1, seq![TokenModel::Comma], tokens_items(next) + seq![TokenModel::RightBracket]);
        assert(st.toks[k1 + 0].token == TokenModel::Comma);
        lemma_tokens_items_front(next);
        assert(next[0] == items[m + 1]);
        lemma_tokens_first(items[m + 1]);
        assert(st.toks[k1 + 1 + 0].token == (tokens_items(next) + seq![TokenModel::RightBracket])[0]);
        lemma_parse_items(st, k1 + 1, items, m + 1);
    } else {
        assert(tail + seq![TokenModel::RightBracket] =~= seq![TokenModel::RightBracket]);
        assert(st.toks[k1 + 0].token == TokenModel::RightBracket);
        assert(acc2 =~= items);
    }
}

#[verifier::spinoff_prover]
proof fn lemma_parse_members(st: Stream, k: int, es: Seq<(Seq<char>, JsonModel)>, m: int)
    requires
        0 <= m < es.len(),
        keys_sorted(es),
        forall|t: int| 0 <= t < es.len() ==> model_wf(#[trigger] es[t].1),
        toks_at(st, k, tokens_members(es.subrange(m, es.len() as int)) + seq![TokenModel::RightBrace]),
    ensures
        p_members(st, k, es.subrange(0, m)) == Ok::<(JsonModel, int), crate::error::JsonError>(
            (JsonModel::Object(es), k + tokens_members(es.subrange(m, es.len() as int)).len() + 1),
        ),
    decreases es, es.len() - m,
{
    let rest = es.subrange(m, es.len() as int);
    lemma_tokens_members_front(rest);
    assert(rest[0] == es[m]);
    let key = es[m].0;
    let v = es[m].1;
    let head = seq![TokenModel::Str(key), TokenModel::Colon];
    let tv = tokens(v);
    let tail = if rest.len() > 1 {
        seq![TokenModel::Comma] + tokens_members(rest.drop_first())
    } else {
        Seq::<TokenModel>::empty()
    };
    assert(tokens_members(rest) + seq![TokenModel::RightBrace] =~= head + (tv + (tail + seq![TokenModel::RightBrace])));
    lemma_toks_at_split(st, k, head, tv + (tail + seq![TokenModel::RightBrace]));
    assert(st.toks[k + 0].token == TokenModel::Str(key));
    assert(st.toks[k + 1].token == TokenModel::Colon);
    assert(p_key(st, k) == Ok::<Seq<char>, crate::error::JsonError>(key));
    lemma_toks_at_split(st, k + 2, tv, tail + seq![TokenModel::RightBrace]);
    assert(decreases_to!(es => es[m]));
    assert(decreases_to!(es[m] => es[m].1));
    lemma_parse_value(st, k + 2, v);
    let k3 = k + 2 + tv.len();
    lemma_with_member_next(es, m);
    let acc2 = es.subrange(0, m + 1);
    if m + 1 < es.len() {
        assert(rest.drop_first() =~= es.subrange(m + 1, es.len() as int));
        let next = es.subrange(m + 1, es.len() as int);
        assert(tail + seq![TokenModel::RightBrace] =~= seq![TokenModel::Comma] + (tokens_members(next) + seq![TokenModel::RightBrace]));
        lemma_toks_at_split(st, k3, seq![TokenModel::Comma], tokens_members(next) + seq![TokenModel::RightBrace]);
        assert(st.toks[k3 + 0].token == TokenModel::Comma);
        lemma_tokens_members_front(next);
        assert(st.toks[k3 + 1 + 0].token == (tokens_members(next) + seq![TokenModel::RightBrace])[0]);
        lemma_parse_members(st, k3 + 1, es, m + 1);
    } else {
        assert(tail + seq![TokenModel::RightBrace] =~= seq![TokenModel::RightBrace]);
        assert(st.toks[k3 + 0].token == TokenModel::RightBrace);
        assert(acc2 =~= es);
    }
}

/// Writing a well-formed document as compact text and reading that text
/// back gives the same document, when each number's exponent stays within
/// the limit that literals are read with.
#[verifier::spinoff_prover]
pub proof fn law_roundtrip(v: JsonModel)
    requires
        model_wf(v),
        numbers_in_range(v),
    ensures
        parse_text(compact(v)) == Ok::<JsonModel, crate::error::JsonError>(v),
{
    let s = compact(v);
    assert(s.subrange(0, s.len() as int) =~= s);
    lemma_lex_compact(s, 0, v);
    lemma_lexes_lex_all(s, 0, s.len() as int, tokens(v));
    assert(lex_all(s, s.len() as int).0 =~= Seq::<SpannedModel>::empty());
    let st = stream_of(s);
    assert forall|t: int| 0 <= t < tokens(v).len() implies (#[trigger] st.toks[0 + t]).token == tokens(v)[t] by {
        assert(st.toks[0 + t] == lex_all(s, 0).0[t]);
    }
    lemma_parse_value(st, 0, v);
}

// ----- reading back the indented text -----

/// Whitespace from `i` up to `j`.
pub open spec fn ws_run(s: Seq<char>, i: int, j: int) -> bool {
    0 <= i <= j <= s.len() && forall|t: int| i <= t < j ==> is_whitespace(#[trigger] s[t])
}

proof fn lemma_skip_ws_run(s: Seq<char>, i: int, j: int)
    requires
        ws_run(s, i, j),
    ensures
        skip_ws(s, i) == skip_ws(s, j),
    decreases j - i,
{
    if i < j {
        lemma_skip_ws_run(s, i + 1, j);
    }
}

/// Tokens read after whitespace are read from before it.
proof fn lemma_lexes_ws(s: Seq<char>, i: int, i2: int, j: int, ks: Seq<TokenModel>)
    requires
        ws_run(s, i, i2),
        lexes(s, i2, j, ks),
        ks.len() > 0,
    ensures
        lexes(s, i, j, ks),
{
    lemma_skip_ws_run(s, i, i2);
    assert(lex_token(s, i) == lex_token(s, i2));
}

/// A line break and an indentation held at `p`.
proof fn lemma_ws_text(s: Seq<char>, p: int, w: Seq<char>)
    requires
        holds_at(s, p, w),
        forall|t: int| 0 <= t < w.len() ==> w[t] == ' ' || w[t] == '\n',
    ensures
        ws_run(s, p, p + w.len()),
{
    assert forall|t: int| p <= t < p + w.len() implies is_whitespace(#[trigger] s[t]) by {
        lemma_holds_at_index(s, p, w, t - p);
        assert(is_whitespace(' ') && is_whitespace('\n'));
    }
}

proof fn lemma_break_indent(level: nat)
    ensures
        forall|t: int| 0 <= t < (seq!['\n'] + indentation(level)).len() ==> (seq!['\n'] + indentation(level))[t] == ' ' || (seq!['\n'] + indentation(level))[t] == '\n',
{
}

#[verifier::spinoff_prover]
proof fn lemma_lex_pretty(s: Seq<char>, i: int, v: JsonModel, level: nat)
    requires
        model_wf(v),
        numbers_in_range(v),
        holds_at(s, i, pretty(v, level)),
        ends_value(s, i + pretty(v, level).len()),
    ensures
        lexes(s, i, i + pretty(v, level).len(), tokens(v)),
    decreases v, 0int,
{
    let c = pretty(v, level);
    match v {
        JsonModel::Array(items) => {
            if items.len() == 0 {
                assert(c == seq!['[', ']']);
                lemma_holds_at_index(s, i, c, 0);
                lemma_holds_at_index(s, i, c, 1);
                lemma_lex_punct(s, i);
                lemma_lexes_one(s, i, i + 1, SpannedModel { token: TokenModel::LeftBracket, position: pos_at(s, i) });
                lemma_lex_punct(s, i + 1);
                lemma_lexes_one(s, i + 1, i + 2, SpannedModel { token: TokenModel::RightBracket, position: pos_at(s, i + 1) });
                assert(tokens_items(items) =~= Seq::<TokenModel>::empty());
                lemma_lexes_concat(s, i, i + 1, i + 2, seq![TokenModel::LeftBracket], seq![TokenModel::RightBracket]);
                assert(tokens(v) =~= seq![TokenModel::LeftBracket] + seq![TokenModel::RightBracket]);
            } else {
                lemma_lex_pretty_array(s, i, items, level);
            }
        },
        JsonModel::Object(es) => {
            if es.len() == 0 {
                assert(c == seq!['{', '}']);
                lemma_holds_at_index(s, i, c, 0);
                lemma_holds_at_index(s, i, c, 1);
                lemma_lex_punct(s, i);
                lemma_lexes_one(s, i, i + 1, SpannedModel { token: TokenModel::LeftBrace, position: pos_at(s, i) });
                lemma_lex_punct(s, i + 1);
                lemma_lexes_one(s, i + 1, i + 2, SpannedModel { token: TokenModel::RightBrace, position: pos_at(s, i + 1) });
                assert(tokens_members(es) =~= Seq::<TokenModel>::empty());
                lemma_lexes_concat(s, i, i + 1, i + 2, seq![TokenModel::LeftBrace], seq![TokenModel::RightBrace]);
                assert(tokens(v) =~= seq![TokenModel::LeftBrace] + seq![TokenModel::RightBrace]);
            } else {
                lemma_lex_pretty_object(s, i, es, level);
            }
        },
        _ => {
            assert(c == compact(v));
            lemma_lex_compact(s, i, v);
        },
    }
}

#[verifier::rlimit(30)]
proof fn lemma_lex_pretty_array(s: Seq<char>, i: int, items: Seq<JsonModel>, level: nat)
    requires
        items.len() > 0,
        model_wf(JsonModel::Array(items)),
        numbers_in_range(JsonModel::Array(items)),
        holds_at(s, i, pretty(JsonModel::Array(items), level)),
        ends_value(s, i + pretty(JsonModel::Array(items), level).len()),
    ensures
        lexes(s, i, i + pretty(JsonModel::Array(items), level).len(), tokens(JsonModel::Array(items))),
    decreases items, items.len() + 1,
{
    let v = JsonModel::Array(items);
    let c = pretty(v, level);
        let inner = pretty_items(items, level);
        let close = seq!['\n'] + indentation(level);
        assert(c == seq!['['] + inner + close + seq![']']);
        lemma_holds_at_concat(s, i, seq!['['] + inner + close, seq![']']);
        lemma_holds_at_concat(s, i, seq!['['] + inner, close);
        lemma_holds_at_concat(s, i, seq!['['], inner);
        lemma_holds_at_index(s, i, seq!['['], 0);
        let e = i + 1 + inner.len();
        let r = e + close.len();
        lemma_holds_at_index(s, r, seq![']'], 0);
        lemma_holds_at_index(s, e, close, 0);
        lemma_lex_punct(s, i);
        lemma_lexes_one(s, i, i + 1, SpannedModel { token: TokenModel::LeftBracket, position: pos_at(s, i) });
        lemma_lex_punct(s, r);
        lemma_lexes_one(s, r, r + 1, SpannedModel { token: TokenModel::RightBracket, position: pos_at(s, r) });
        lemma_break_indent(level);
        lemma_ws_text(s, e, close);
        lemma_lexes_ws(s, e, r, r + 1, seq![TokenModel::RightBracket]);
        assert(items.subrange(0, items.len() as int) =~= items);
        lemma_lex_pretty_items(s, i + 1, items, level, items.len() as int);
        lemma_lexes_concat(s, i, i + 1, e, seq![TokenModel::LeftBracket], tokens_items(items));
        lemma_lexes_concat(s, i, e, r + 1, seq![TokenModel::LeftBracket] + tokens_items(items), seq![TokenModel::RightBracket]);
}

#[verifier::rlimit(30)]
proof fn lemma_lex_pretty_object(s: Seq<char>, i: int, es: Seq<(Seq<char>, JsonModel)>, level: nat)
    requires
        es.len() > 0,
        model_wf(JsonModel::Object(es)),
        numbers_in_range(JsonModel::Object(es)),
        holds_at(s, i, pretty(JsonModel::Object(es), level)),
        ends_value(s, i + pretty(JsonModel::Object(es), level).len()),
    ensures
        lexes(s, i, i + pretty(JsonModel::Object(es), level).len(), tokens(JsonModel::Object(es))),
    decreases es, es.len() + 1,
{
    let v = JsonModel::Object(es);
    let c = pretty(v, level);
        let inner = pretty_members(es, level);
        let close = seq!['\n'] + indentation(level);
        assert(c == seq!['{'] + inner + close + seq!['}']);
        lemma_holds_at_concat(s, i, seq!['{'] + inner + close, seq!['}']);
        lemma_holds_at_concat(s, i, seq!['{'] + inner, close);
        lemma_holds_at_concat(s, i, seq!['{'], inner);
        lemma_holds_at_index(s, i, seq!['{'], 0);
        let e = i + 1 + inner.len();
        let r = e + close.len();
        lemma_holds_at_index(s, r, seq!['}'], 0);
        lemma_holds_at_index(s, e, close, 0);
        lemma_lex_punct(s, i);
        lemma_lexes_one(s, i, i + 1, SpannedModel { token: TokenModel::LeftBrace, position: pos_at(s, i) });
        lemma_lex_punct(s, r);
        lemma_lexes_one(s, r, r + 1, SpannedModel { token: TokenModel::RightBrace, position: pos_at(s, r) });
        lemma_break_indent(level);
        lemma_ws_text(s, e, close);
        lemma_lexes_ws(s, e, r, r + 1, seq![TokenModel::RightBrace]);
        assert(es.subrange(0, es.len() as int) =~= es);
        lemma_lex_pretty_members(s, i + 1, es, level, es.len() as int);
        lemma_lexes_concat(s, i, i + 1, e, seq![TokenModel::LeftBrace], tokens_members(es));
        lemma_lexes_concat(s, i, e, r + 1, seq![TokenModel::LeftBrace] + tokens_members(es), seq![TokenModel::RightBrace]);
}

#[verifier::spinoff_prover]
proof fn lemma_lex_pretty_items(s: Seq<char>, i: int, items: Seq<JsonModel>, level: nat, n: int)
    requires
        0 <= n <= items.len(),
        forall|t: int| 0 <= t < items.len() ==> model_wf(#[trigger] items[t]),
        forall|t: int| 0 <= t < items.len() ==> numbers_in_range(#[trigger] items[t]),
        holds_at(s, i, pretty_items(items.subrange(0, n), level)),
        ends_value(s, i + pretty_items(items.subrange(0, n), level).len()),
    ensures
        lexes(s, i, i + pretty_items(items.subrange(0, n), level).len(), tokens_items(items.subrange(0, n))),
    decreases items, n,
{
    let pre = items.subrange(0, n);
    if n == 0 {
        assert(pretty_items(pre, level) =~= Seq::<char>::empty());
        assert(tokens_items(pre) =~= Seq::<TokenModel>::empty());
    } else {
        let init = items.subrange(0, n - 1);
        assert(pre.subrange(0, n - 1) =~= init);
        assert(pre[n - 1] == items[n - 1]);
        let lead = seq!['\n'] + indentation(level + 1);
        let body = pretty(items[n - 1], level + 1);
        assert(decreases_to!(items => items[n - 1]));
        let start = if n == 1 {
            i
        } else {
            i + pretty_items(init, level).len() + 1
        };
        let head_tokens = if n == 1 {
            Seq::<TokenModel>::empty()
        } else {
            tokens_items(init) + seq![TokenModel::Comma]
        };
        if n == 1 {
            assert(pretty_items(pre, level) =~= lead + body);
            assert(tokens_items(pre) =~= tokens(items[0]));
        } else {
            let pi = pretty_items(init, level);
            assert(pretty_items(pre, level) =~= pi + seq![','] + (lead + body));
            assert(tokens_items(pre) =~= head_tokens + tokens(items[n - 1]));
            lemma_holds_at_concat(s, i, pi + seq![','], lead + body);
            lemma_holds_at_concat(s, i, pi, seq![',']);
            lemma_holds_at_index(s, i + pi.len(), seq![','], 0);
            lemma_lex_pretty_items(s, i, items, level, n - 1);
            let p = i + pi.len();
            lemma_lex_punct(s, p);
            lemma_lexes_one(s, p, p + 1, SpannedModel { token: TokenModel::Comma, position: pos_at(s, p) });
            lemma_lexes_concat(s, i, p, p + 1, tokens_items(init), seq![TokenModel::Comma]);
        }
        lemma_holds_at_concat(s, start, lead, body);
        lemma_break_indent(level + 1);
        lemma_ws_text(s, start, lead);
        let b = start + lead.len();
        lemma_lex_pretty(s, b, items[n - 1], level + 1);
        lemma_tokens_first(items[n - 1]);
        lemma_lexes_ws(s, start, b, b + body.len(), tokens(items[n - 1]));
        if n > 1 {
            lemma_lexes_concat(s, i, start, b + body.len(), head_tokens, tokens(items[n - 1]));
        }
    }
}

/// One member of the indented text of an object, with the line break and
/// indentation before it.
#[verifier::rlimit(30)]
proof fn lemma_lex_pretty_member(s: Seq<char>, start: int, es: Seq<(Seq<char>, JsonModel)>, m: int, level: nat)
    requires
        0 <= m < es.len(),
        model_wf(es[m].1),
        numbers_in_range(es[m].1),
        holds_at(s, start, seq!['\n'] + indentation(level + 1) + quoted(es[m].0) + seq![':', ' '] + pretty(es[m].1, level + 1)),
        ends_value(s, start + (seq!['\n'] + indentation(level + 1) + quoted(es[m].0) + seq![':', ' '] + pretty(es[m].1, level + 1)).len()),
    ensures
        lexes(
            s,
            start,
            start + (seq!['\n'] + indentation(level + 1) + quoted(es[m].0) + seq![':', ' '] + pretty(es[m].1, level + 1)).len(),
            seq![TokenModel::Str(es[m].0), TokenModel::Colon] + tokens(es[m].1),
        ),
    decreases es, 0int,
{
    let k = es[m].0;
    let v = es[m].1;
    let lead = seq!['\n'] + indentation(level + 1);
    let body = pretty(v, level + 1);
    let member_tokens = seq![TokenModel::Str(k), TokenModel::Colon] + tokens(v);
    assert(decreases_to!(es => es[m]));
    assert(decreases_to!(es[m] => es[m].1));
    lemma_holds_at_concat(s, start, lead + quoted(k) + seq![':', ' '], body);
    lemma_holds_at_concat(s, start, lead + quoted(k), seq![':', ' ']);
    lemma_holds_at_concat(s, start, lead, quoted(k));
    lemma_break_indent(level + 1);
    lemma_ws_text(s, start, lead);
    let q = start + lead.len();
    lemma_lex_string(s, q, k);
    let c = q + quoted(k).len();
    lemma_lexes_one(s, q, c, SpannedModel { token: TokenModel::Str(k), position: pos_at(s, q) });
    lemma_holds_at_index(s, c, seq![':', ' '], 0);
    lemma_holds_at_index(s, c, seq![':', ' '], 1);
    lemma_lex_punct(s, c);
    lemma_lexes_one(s, c, c + 1, SpannedModel { token: TokenModel::Colon, position: pos_at(s, c) });
    lemma_lex_pretty(s, c + 2, v, level + 1);
    lemma_tokens_first(v);
    assert(is_whitespace(' '));
    lemma_lexes_ws(s, c + 1, c + 2, c + 2 + body.len(), tokens(v));
    lemma_lexes_concat(s, q, c, c + 1, seq![TokenModel::Str(k)], seq![TokenModel::Colon]);
    assert(seq![TokenModel::Str(k)] + seq![TokenModel::Colon] =~= seq![TokenModel::Str(k), TokenModel::Colon]);
    lemma_lexes_concat(s, q, c + 1, c + 2 + body.len(), seq![TokenModel::Str(k), TokenModel::Colon], tokens(v));
    lemma_lexes_ws(s, start, q, c + 2 + body.len(), member_tokens);
}

#[verifier::spinoff_prover]
proof fn lemma_lex_pretty_members(s: Seq<char>, i: int, es: Seq<(Seq<char>, JsonModel)>, level: nat, n: int)
    requires
        0 <= n <= es.len(),
        forall|t: int| 0 <= t < es.len() ==> model_wf(#[trigger] es[t].1),
        forall|t: int| 0 <= t < es.len() ==> numbers_in_range(#[trigger] es[t].1),
        holds_at(s, i, pretty_members(es.subrange(0, n), level)),
        ends_value(s, i + pretty_members(es.subrange(0, n), level).len()),
    ensures
        lexes(s, i, i + pretty_members(es.subrange(0, n), level).len(), tokens_members(es.subrange(0, n))),
    decreases es, n,
{
    let pre = es.subrange(0, n);
    if n == 0 {
        assert(pretty_members(pre, level) =~= Seq::<char>::empty());
        assert(tokens_members(pre) =~= Seq::<TokenModel>::empty());
    } else {
        let init = es.subrange(0, n - 1);
        assert(pre.subrange(0, n - 1) =~= init);
        assert(pre[n - 1] == es[n - 1]);
        let k = es[n - 1].0;
        let v = es[n - 1].1;
        let lead = seq!['\n'] + indentation(level + 1);
        let body = pretty(v, level + 1);
        let member_text = lead + quoted(k) + seq![':', ' '] + body;
        let member_tokens = seq![TokenModel::Str(k), TokenModel::Colon] + tokens(v);
        assert(decreases_to!(es => es[n - 1]));
        assert(decreases_to!(es[n - 1] => es[n - 1].1));
        let start = if n == 1 {
            i
        } else {
            i + pretty_members(init, level).len() + 1
        };
        let head_tokens = if n == 1 {
            Seq::<TokenModel>::empty()
        } else {
            tokens_members(init) + seq![TokenModel::Comma]
        };
        if n == 1 {
            assert(pretty_members(pre, level) =~= member_text);
            assert(tokens_members(pre) =~= member_tokens);
        } else {
            let pm = pretty_members(init, level);
            assert(pretty_members(pre, level) =~= pm + seq![','] + member_text);
            assert(tokens_members(pre) =~= head_tokens + member_tokens);
            lemma_holds_at_concat(s, i, pm + seq![','], member_text);
            lemma_holds_at_concat(s, i, pm, seq![',']);
            lemma_holds_at_index(s, i + pm.len(), seq![','], 0);
            lemma_lex_pretty_members(s, i, es, level, n - 1);
            let p = i + pm.len();
            lemma_lex_punct(s, p);
            lemma_lexes_one(s, p, p + 1, SpannedModel { token: TokenModel::Comma, position: pos_at(s, p) });
            lemma_lexes_concat(s, i, p, p + 1, tokens_members(init), seq![TokenModel::Comma]);
        }
        assert(decreases_to!(es => es[n - 1]));
        lemma_lex_pretty_member(s, start, es, n - 1, level);
        if n > 1 {
            lemma_lexes_concat(s, i, start, start + member_text.len(), head_tokens, member_tokens);
        }
    }
}

/// Writing a well-formed document as indented text and reading that text
/// back gives the same document, when each number's exponent stays within
/// the limit that literals are read with.
#[verifier::spinoff_prover]
pub proof fn law_pretty_roundtrip(v: JsonModel)
    requires
        model_wf(v),
        numbers_in_range(v),
    ensures
        parse_text(pretty(v, 0)) == Ok::<JsonModel, crate::error::JsonError>(v),
{
    let s = pretty(v, 0);
    assert(s.subrange(0, s.len() as int) =~= s);
    lemma_lex_pretty(s, 0, v, 0);
    lemma_lexes_lex_all(s, 0, s.len() as int, tokens(v));
    assert(lex_all(s, s.len() as int).0 =~= Seq::<SpannedModel>::empty());
    let st = stream_of(s);
    assert forall|t: int| 0 <= t < tokens(v).len() implies (#[trigger] st.toks[0 + t]).token == tokens(v)[t] by {
        assert(st.toks[0 + t] == lex_all(s, 0).0[t]);
    }
    lemma_parse_value(st, 0, v);
}

} // verus!
