use vstd::prelude::*;
use crate::text::{digit_char, push_digit};

verus! {

/// Saturation bound for the magnitude of an exponent written in a number literal.
pub const EXPONENT_LIMIT: i128 = 1_000_000_000_000_000_000i128;

/// The mathematical content of a JSON number: `±digits × 10^exponent`,
/// where `digits` are decimal digits, most significant first.
pub struct NumberModel {
    pub negative: bool,
    pub digits: Seq<u8>,
    pub exponent: int,
}

/// All entries are decimal digit values.
pub open spec fn all_digits(ds: Seq<u8>) -> bool {
    forall|i: int| 0 <= i < ds.len() ==> #[trigger] ds[i] < 10
}

/// The natural number written by the digits `ds`, most significant first.
pub open spec fn dval(ds: Seq<u8>) -> nat
    decreases ds.len(),
{
    if ds.len() == 0 {
        0
    } else {
        10 * dval(ds.drop_last()) + ds.last() as nat
    }
}

/// The number of zero entries at the front of `ds`.
pub open spec fn leading_zeros(ds: Seq<u8>) -> nat
    decreases ds.len(),
{
    if ds.len() == 0 {
        0
    } else if ds[0] == 0 {
        1 + leading_zeros(ds.drop_first())
    } else {
        0
    }
}

/// The number of zero entries at the back of `ds`.
pub open spec fn trailing_zeros(ds: Seq<u8>) -> nat
    decreases ds.len(),
{
    if ds.len() == 0 {
        0
    } else if ds.last() == 0 {
        1 + trailing_zeros(ds.drop_last())
    } else {
        0
    }
}

impl NumberModel {
    pub open spec fn zero() -> NumberModel {
        NumberModel { negative: false, digits: Seq::empty(), exponent: 0 }
    }

    /// The canonical form: no leading or trailing zero digits, and zero
    /// written with no digits, no sign and exponent 0.
    pub open spec fn wf(self) -> bool {
        &&& all_digits(self.digits)
        &&& self.digits.len() == 0 ==> !self.negative && self.exponent == 0
        &&& self.digits.len() > 0 ==> self.digits[0] != 0 && self.digits.last() != 0
    }
}

/// The canonical form of `±dval(all) × 10^exponent`.
pub open spec fn normalize(negative: bool, all: Seq<u8>, exponent: int) -> NumberModel {
    let body = all.skip(leading_zeros(all) as int);
    let tz = trailing_zeros(body);
    if body.len() == 0 {
        NumberModel::zero()
    } else {
        NumberModel {
            negative,
            digits: body.take(body.len() - tz),
            exponent: exponent + tz,
        }
    }
}

/// The number written in a literal with sign `negative`, integer and
/// fraction digits `all` (of which the last `frac_len` are the fraction)
/// and a (saturated) exponent value `exp`.
pub open spec fn number_from_parts(negative: bool, all: Seq<u8>, frac_len: int, exp: int) -> NumberModel {
    normalize(negative, all, exp - frac_len)
}

/// The exponent value of a literal's exponent digits, saturated at `EXPONENT_LIMIT`.
pub open spec fn saturated(ds: Seq<u8>) -> int {
    if dval(ds) > EXPONENT_LIMIT {
        EXPONENT_LIMIT as int
    } else {
        dval(ds) as int
    }
}

/// `n` zero characters.
pub open spec fn zeros(n: nat) -> Seq<char> {
    Seq::new(n, |i: int| '0')
}

/// The characters of a digit sequence.
pub open spec fn digit_text(ds: Seq<u8>) -> Seq<char> {
    ds.map_values(|d: u8| digit_char(d as int))
}

/// The decimal digits of `n`, most significant first; zero has the single digit 0.
pub open spec fn nat_digits(n: nat) -> Seq<u8>
    decreases n,
{
    if n < 10 {
        seq![n as u8]
    } else {
        nat_digits(n / 10).push((n % 10) as u8)
    }
}

/// The decimal text of an integer, with a leading `-` when negative.
pub open spec fn int_text(i: int) -> Seq<char> {
    if i < 0 {
        seq!['-'] + digit_text(nat_digits((-i) as nat))
    } else {
        digit_text(nat_digits(i as nat))
    }
}

/// Widest run of zeros written out in plain notation.
pub open spec fn plain_limit() -> int {
    400
}

/// The text of a number without its sign.
pub open spec fn magnitude_text(m: NumberModel) -> Seq<char> {
    let n = m.digits.len() as int;
    let e = m.exponent;
    let d = digit_text(m.digits);
    if n == 0 {
        seq!['0']
    } else if 0 <= e <= plain_limit() {
        d + zeros(e as nat)
    } else if -n < e < 0 {
        d.take(n + e) + seq!['.'] + d.skip(n + e)
    } else if -(n + plain_limit()) <= e <= -n {
        seq!['0', '.'] + zeros((-e - n) as nat) + d
    } else if n == 1 {
        d + seq!['e'] + int_text(e)
    } else {
        d.take(1) + seq!['.'] + d.skip(1) + seq!['e'] + int_text(e + n - 1)
    }
}

/// The JSON text of a number: plain decimal notation, or scientific
/// notation when plain notation would need more than `plain_limit()` zeros.
pub open spec fn render(m: NumberModel) -> Seq<char> {
    if m.negative {
        seq!['-'] + magnitude_text(m)
    } else {
        magnitude_text(m)
    }
}


/// The largest exponent magnitude a `JsonNumber` carries.
pub open spec fn exponent_bound() -> int {
    0x10000000000000000000000000
}

/// A JSON number, kept exactly as written in decimal (in canonical form).
#[derive(Debug)]
pub struct JsonNumber {
    negative: bool,
    digits: Vec<u8>,
    exponent: i128,
}

impl JsonNumber {
    pub closed spec fn view(&self) -> NumberModel {
        NumberModel { negative: self.negative, digits: self.digits@, exponent: self.exponent as int }
    }

    #[verifier::type_invariant]
    closed spec fn inv(self) -> bool {
        &&& self@.wf()
        &&& -exponent_bound() <= self.exponent <= exponent_bound()
    }

    /// The number `±dval(all) × 10^exponent`, in canonical form.
    pub fn from_digits(negative: bool, all: &Vec<u8>, exponent: i128) -> (r: JsonNumber)
        requires
            all_digits(all@),
            -exponent_bound() / 2 <= exponent <= exponent_bound() / 2,
        ensures
            r@ == normalize(negative, all@, exponent as int),
    {
        let len = all.len();
        let mut lz: usize = 0;
        while lz < len && all[lz] == 0
            invariant
                lz <= len == all@.len(),
                forall|j: int| 0 <= j < lz ==> all@[j] == 0,
            decreases len - lz,
        {
            lz = lz + 1;
        }
        proof {
            lemma_leading_zeros(all@, lz as int);
        }
        let mut end: usize = len;
        while end > lz && all[end - 1] == 0
            invariant
                lz <= end <= len == all@.len(),
                forall|j: int| end <= j < len ==> all@[j] == 0,
            decreases end - lz,
        {
            end = end - 1;
        }
        let ghost body = all@.skip(lz as int);
        proof {
            lemma_trailing_zeros(body, (len - end) as int);
        }
        if lz == end {
            return JsonNumber { negative: false, digits: Vec::new(), exponent: 0 };
        }
        let mut digits: Vec<u8> = Vec::new();
        let mut i: usize = lz;
        while i < end
            invariant
                lz <= i <= end <= len == all@.len(),
                digits@ == all@.subrange(lz as int, i as int),
            decreases end - i,
        {
            digits.push(all[i]);
            i = i + 1;
        }
        assert(digits@ == body.take(body.len() - (len - end)));
        let tz = (len - end) as i128;
        JsonNumber { negative, digits, exponent: exponent + tz }
    }

    /// The integer `v`.
    pub fn from_i64(v: i64) -> (r: JsonNumber)
        ensures
            r@ == normalize(v < 0, nat_digits(abs_i64(v)), 0),
    {
        JsonNumber::from_scaled(v, 0)
    }

    /// The number `mantissa × 10^exponent`.
    pub fn from_scaled(mantissa: i64, exponent: i32) -> (r: JsonNumber)
        ensures
            r@ == normalize(mantissa < 0, nat_digits(abs_i64(mantissa)), exponent as int),
    {
        let magnitude: u64 = if mantissa < 0 {
            (-(mantissa + 1)) as u64 + 1
        } else {
            mantissa as u64
        };
        assert(magnitude == abs_i64(mantissa));
        let ds = digits_of(magnitude);
        JsonNumber::from_digits(mantissa < 0, &ds, exponent as i128)
    }

    /// A copy of this number.
    pub fn duplicate(&self) -> (r: JsonNumber)
        ensures
            r@ == self@,
    {
        proof {
            use_type_invariant(self);
        }
        let mut digits: Vec<u8> = Vec::new();
        let mut i: usize = 0;
        while i < self.digits.len()
            invariant
                i <= self.digits@.len(),
                digits@ == self.digits@.take(i as int),
            decreases self.digits@.len() - i,
        {
            digits.push(self.digits[i]);
            i = i + 1;
        }
        assert(digits@ == self.digits@);
        JsonNumber { negative: self.negative, digits, exponent: self.exponent }
    }

    /// Whether two numbers are equal.
    pub fn same_as(&self, other: &JsonNumber) -> (r: bool)
        ensures
            r == (self@ == other@),
    {
        if self.negative != other.negative || self.exponent != other.exponent
            || self.digits.len() != other.digits.len() {
            return false;
        }
        let mut i: usize = 0;
        while i < self.digits.len()
            invariant
                i <= self.digits@.len() == other.digits@.len(),
                forall|j: int| 0 <= j < i ==> self.digits@[j] == other.digits@[j],
            decreases self.digits@.len() - i,
        {
            if self.digits[i] != other.digits[i] {
                return false;
            }
            i = i + 1;
        }
        assert(self.digits@ == other.digits@);
        true
    }

    /// Whether the number is below zero.
    pub fn is_negative(&self) -> (r: bool)
        ensures
            r == self@.negative,
    {
        self.negative
    }

    /// The decimal digits of the number, most significant first, with no
    /// zero at either end (none for zero).
    pub fn digits(&self) -> (r: &Vec<u8>)
        ensures
            r@ == self@.digits,
    {
        &self.digits
    }

    /// The power of ten that the digits are scaled by.
    pub fn exponent(&self) -> (r: i128)
        ensures
            r == self@.exponent,
    {
        self.exponent
    }

    /// Appends the JSON text of this number.
    pub fn write_to(&self, out: &mut String)
        ensures
            final(out)@ == old(out)@ + render(self@),
    {
        proof {
            use_type_invariant(self);
        }
        let ghost start = out@;
        if self.negative {
            out.push('-');
        }
        write_magnitude(out, &self.digits, self.exponent);
        assert(out@ =~= start + render(self@));
    }
}

pub open spec fn unsigned_model(ds: Seq<u8>, e: int) -> NumberModel {
    NumberModel { negative: false, digits: ds, exponent: e }
}

/// Appends the text of `±ds × 10^e` without its sign.
fn write_magnitude(out: &mut String, ds: &Vec<u8>, e: i128)
    requires
        unsigned_model(ds@, e as int).wf(),
        -exponent_bound() <= e <= exponent_bound(),
    ensures
        final(out)@ == old(out)@ + magnitude_text(unsigned_model(ds@, e as int)),
{
    let ghost start = out@;
    let ghost d = digit_text(ds@);
    let n = ds.len();
    let ni = n as i128;
    proof {
        lemma_digit_text_subrange(ds@, 0, n as int);
        assert(ds@.subrange(0, n as int) == ds@);
    }
    if n == 0 {
        out.push('0');
        assert(out@ =~= start + seq!['0']);
    } else if 0 <= e && e <= 400 {
        push_digit_run(out, ds, 0, n);
        push_zeros(out, e as usize);
        assert(out@ =~= start + (d + zeros(e as nat)));
    } else if e < 0 && -e < ni {
        let k = (ni + e) as usize;
        push_digit_run(out, ds, 0, k);
        out.push('.');
        push_digit_run(out, ds, k, n);
        proof {
            lemma_digit_text_subrange(ds@, 0, k as int);
            lemma_digit_text_subrange(ds@, k as int, n as int);
            assert(d.take(k as int) == d.subrange(0, k as int));
            assert(d.skip(k as int) == d.subrange(k as int, n as int));
        }
        assert(out@ =~= start + (d.take(k as int) + seq!['.'] + d.skip(k as int)));
    } else if e < 0 && -e - ni <= 400 {
        out.push('0');
        out.push('.');
        push_zeros(out, (-e - ni) as usize);
        push_digit_run(out, ds, 0, n);
        assert(out@ =~= start + (seq!['0', '.'] + zeros((-e - ni) as nat) + d));
    } else if n == 1 {
        push_digit_run(out, ds, 0, 1);
        out.push('e');
        push_int(out, e);
        assert(out@ =~= start + (d + seq!['e'] + int_text(e as int)));
    } else {
        push_digit_run(out, ds, 0, 1);
        out.push('.');
        push_digit_run(out, ds, 1, n);
        out.push('e');
        push_int(out, e + ni - 1);
        proof {
            lemma_digit_text_subrange(ds@, 0, 1);
            lemma_digit_text_subrange(ds@, 1, n as int);
            assert(d.take(1) == d.subrange(0, 1));
            assert(d.skip(1) == d.subrange(1, n as int));
        }
        assert(out@ =~= start + (d.take(1) + seq!['.'] + d.skip(1) + seq!['e'] + int_text(
            e + ni - 1,
        )));
    }
}

pub open spec fn abs_i64(v: i64) -> nat {
    if v < 0 {
        (-v) as nat
    } else {
        v as nat
    }
}

impl Clone for JsonNumber {
    fn clone(&self) -> (r: Self)
        ensures
            r@ == self@,
    {
        self.duplicate()
    }
}

impl PartialEq for JsonNumber {
    fn eq(&self, other: &Self) -> (r: bool) {
        self.same_as(other)
    }
}

impl vstd::std_specs::cmp::PartialEqSpecImpl for JsonNumber {
    open spec fn obeys_eq_spec() -> bool {
        true
    }

    open spec fn eq_spec(&self, other: &Self) -> bool {
        self@ == other@
    }
}

/// `leading_zeros` counts the zero prefix.
pub proof fn lemma_leading_zeros(ds: Seq<u8>, i: int)
    requires
        0 <= i <= ds.len(),
        forall|j: int| 0 <= j < i ==> ds[j] == 0,
        i == ds.len() || ds[i] != 0,
    ensures
        leading_zeros(ds) == i,
    decreases i,
{
    if i > 0 {
        lemma_leading_zeros(ds.drop_first(), i - 1);
    }
}

/// `trailing_zeros` counts the zero suffix.
pub proof fn lemma_trailing_zeros(ds: Seq<u8>, i: int)
    requires
        0 <= i <= ds.len(),
        forall|j: int| ds.len() - i <= j < ds.len() ==> ds[j] == 0,
        i == ds.len() || ds[ds.len() - 1 - i] != 0,
    ensures
        trailing_zeros(ds) == i,
    decreases i,
{
    if i > 0 {
        lemma_trailing_zeros(ds.drop_last(), i - 1);
    }
}

/// The digit text of a subrange is the subrange of the digit text.
pub proof fn lemma_digit_text_subrange(ds: Seq<u8>, i: int, j: int)
    requires
        0 <= i <= j <= ds.len(),
    ensures
        digit_text(ds.subrange(i, j)) == digit_text(ds).subrange(i, j),
        digit_text(ds).len() == ds.len(),
{
    assert(digit_text(ds.subrange(i, j)) =~= digit_text(ds).subrange(i, j));
}

/// Appends the text of the digits `ds[from..to]`.
fn push_digit_run(out: &mut String, ds: &Vec<u8>, from: usize, to: usize)
    requires
        from <= to <= ds@.len(),
        all_digits(ds@),
    ensures
        final(out)@ == old(out)@ + digit_text(ds@.subrange(from as int, to as int)),
{
    let ghost start = out@;
    let mut i = from;
    while i < to
        invariant
            from <= i <= to <= ds@.len(),
            all_digits(ds@),
            out@ == start + digit_text(ds@.subrange(from as int, i as int)),
        decreases to - i,
    {
        push_digit(out, ds[i]);
        i = i + 1;
        assert(digit_text(ds@.subrange(from as int, i as int)) =~= digit_text(
            ds@.subrange(from as int, i - 1),
        ).push(digit_char(ds@[i - 1] as int)));
    }
}

/// Appends `n` zero characters.
fn push_zeros(out: &mut String, n: usize)
    ensures
        final(out)@ == old(out)@ + zeros(n as nat),
{
    let ghost start = out@;
    let mut i: usize = 0;
    while i < n
        invariant
            i <= n,
            out@ == start + zeros(i as nat),
        decreases n - i,
    {
        out.push('0');
        i = i + 1;
        assert(zeros(i as nat) =~= zeros((i - 1) as nat).push('0'));
    }
}

/// Appends the decimal digits of `n`.
pub(crate) fn push_nat(out: &mut String, n: u128)
    ensures
        final(out)@ == old(out)@ + digit_text(nat_digits(n as nat)),
    decreases n,
{
    if n >= 10 {
        push_nat(out, n / 10);
        push_digit(out, (n % 10) as u8);
        assert(digit_text(nat_digits(n as nat)) =~= digit_text(nat_digits((n / 10) as nat)).push(
            digit_char((n % 10) as int),
        ));
    } else {
        push_digit(out, n as u8);
        assert(digit_text(nat_digits(n as nat)) =~= seq![digit_char(n as int)]);
    }
}

/// Appends the decimal text of `v`.
fn push_int(out: &mut String, v: i128)
    requires
        v > i128::MIN,
    ensures
        final(out)@ == old(out)@ + int_text(v as int),
{
    if v < 0 {
        out.push('-');
        push_nat(out, (-v) as u128);
    } else {
        push_nat(out, v as u128);
    }
}

/// The decimal digits of `n`.
pub fn digits_of(n: u64) -> (r: Vec<u8>)
    ensures
        r@ == nat_digits(n as nat),
        all_digits(r@),
    decreases n,
{
    if n >= 10 {
        let mut r = digits_of(n / 10);
        r.push((n % 10) as u8);
        r
    } else {
        let mut r: Vec<u8> = Vec::new();
        r.push(n as u8);
        assert(r@ =~= seq![n as u8]);
        r
    }
}

} // verus!
