use vstd::prelude::*;

verus! {

/// Numbers are fixed-point decimals: a `Num(n)` stands for `n / SCALE`.
pub const SCALE: i64 = 1_000_000;

/// The largest integer part that a number can have.
pub const MAX_WHOLE: u64 = 9_223_372_036_854;

/// The ways in which a run fails. Every failure ends the whole run.
#[derive(PartialEq, Eq, Structural, Debug, Clone, Copy)]
pub enum LogoError {
    /// An unclosed list, group or procedure body, or an expression with no value.
    ParseError,
    /// An unbound variable, or a call of a command that no table knows.
    NameError,
    /// An operation on a value of the wrong kind.
    TypeError,
    /// A call with another number of arguments than its signature.
    ArityError,
    /// A number that leaves the representable range, a division by zero, or
    /// a random choice from nothing.
    RangeError,
    /// Calls or expressions nested deeper than the interpreter allows.
    DepthError,
    /// A statement that produced a value that nothing consumes.
    UnusedValue,
}

/// A runtime value.
pub enum Value {
    Str(String),
    Num(i64),
    List(Vec<String>),
    Void,
}

/// What a value holds, as mathematical data.
pub enum Datum {
    Str(Seq<char>),
    Num(int),
    List(Seq<Seq<char>>),
    Void,
}

pub open spec fn texts(v: Seq<String>) -> Seq<Seq<char>> {
    v.map_values(|s: String| s@)
}

impl View for Value {
    type V = Datum;

    open spec fn view(&self) -> Datum {
        match self {
            Value::Str(s) => Datum::Str(s@),
            Value::Num(n) => Datum::Num(*n as int),
            Value::List(l) => Datum::List(texts(l@)),
            Value::Void => Datum::Void,
        }
    }
}

// ---------------------------------------------------------------- numbers

pub open spec fn scale() -> int {
    SCALE as int
}

/// A number that a `Num` can hold: the range of `i64` without its least value,
/// so that every number can be negated.
pub open spec fn fits(n: int) -> bool {
    -(i64::MAX as int) <= n <= i64::MAX as int
}

pub open spec fn is_digit(c: char) -> bool {
    '0' <= c <= '9'
}

pub open spec fn digit_of(c: char) -> int {
    c as int - '0' as int
}

pub open spec fn all_digits(s: Seq<char>) -> bool {
    forall|i: int| 0 <= i < s.len() ==> is_digit(#[trigger] s[i])
}

/// The value of a string of decimal digits.
pub open spec fn digits_value(s: Seq<char>) -> int
    decreases s.len(),
{
    if s.len() == 0 {
        0
    } else {
        10 * digits_value(s.drop_last()) + digit_of(s.last())
    }
}

/// How many decimal digits `s` starts with.
pub open spec fn lead_digits(s: Seq<char>) -> nat
    decreases s.len(),
{
    if s.len() == 0 || !is_digit(s[0]) {
        0
    } else {
        1 + lead_digits(s.drop_first())
    }
}

/// The fraction digits of a number, padded with zeros to six places.
pub open spec fn padded_fraction(f: Seq<char>) -> Seq<char> {
    f + Seq::new((6 - f.len()) as nat, |i: int| '0')
}

/// The scaled value of a number written without a sign: digits, optionally
/// followed by a point and one to six digits.
pub open spec fn unsigned_number(s: Seq<char>) -> Option<int> {
    let k = lead_digits(s) as int;
    let tail = s.skip(k);
    if k == 0 {
        None
    } else if tail.len() != 0 && !(tail[0] == '.' && 2 <= tail.len() <= 7 && all_digits(
        tail.drop_first(),
    )) {
        None
    } else {
        let frac = if tail.len() == 0 {
            0
        } else {
            digits_value(padded_fraction(tail.drop_first()))
        };
        let v = digits_value(s.take(k)) * scale() + frac;
        if v <= i64::MAX as int {
            Some(v)
        } else {
            None
        }
    }
}

/// The scaled value of a number token: an optional `-`, digits, and an
/// optional fraction of one to six digits.
pub open spec fn number_of(s: Seq<char>) -> Option<int> {
    if s.len() > 0 && s[0] == '-' {
        match unsigned_number(s.drop_first()) {
            Some(v) => Some(-v),
            None => None,
        }
    } else {
        unsigned_number(s)
    }
}

proof fn lemma_digits_mono(s: Seq<char>, j: int)
    requires
        0 <= j <= s.len(),
        all_digits(s),
    ensures
        digits_value(s.take(j)) <= digits_value(s),
        0 <= digits_value(s.take(j)),
    decreases s.len(),
{
    if j < s.len() {
        let t = s.drop_last();
        assert(t.take(j) =~= s.take(j));
        assert(is_digit(s[s.len() - 1]));
        lemma_digits_mono(t, j);
    } else {
        assert(s.take(j) =~= s);
        lemma_digits_nonneg(s);
    }
}

proof fn lemma_digits_nonneg(s: Seq<char>)
    requires
        all_digits(s),
    ensures
        0 <= digits_value(s),
    decreases s.len(),
{
    if s.len() > 0 {
        assert(is_digit(s[s.len() - 1]));
        lemma_digits_nonneg(s.drop_last());
    }
}

proof fn lemma_lead_digits(s: Seq<char>, i: int)
    requires
        0 <= i <= s.len(),
        forall|j: int| 0 <= j < i ==> is_digit(#[trigger] s[j]),
        i == s.len() || !is_digit(s[i]),
    ensures
        lead_digits(s) == i,
    decreases i,
{
    if i > 0 {
        let t = s.drop_first();
        assert forall|j: int| 0 <= j < i - 1 implies is_digit(#[trigger] t[j]) by {
            assert(t[j] == s[j + 1]);
        }
        lemma_lead_digits(t, i - 1);
    }
}

/// Reads a number token; `None` where the token is not a number or its value
/// is out of range.
pub fn parse_number(s: &str) -> (r: Option<i64>)
    ensures
        match r {
            Some(n) => number_of(s@) == Some(n as int),
            None => number_of(s@) is None,
        },
{
    let len = s.unicode_len();
    if len > 0 && s.get_char(0) == '-' {
        let r = parse_unsigned(s, 1);
        assert(s@.skip(1) =~= s@.drop_first());
        match r {
            Some(v) => Some(-v),
            None => None,
        }
    } else {
        let r = parse_unsigned(s, 0);
        assert(s@.skip(0) =~= s@);
        r
    }
}

fn parse_unsigned(s: &str, start: usize) -> (r: Option<i64>)
    requires
        start <= s@.len(),
    ensures
        match r {
            Some(n) => unsigned_number(s@.skip(start as int)) == Some(n as int) && 0 <= n,
            None => unsigned_number(s@.skip(start as int)) is None,
        },
{
    let ghost u = s@.skip(start as int);
    let len = s.unicode_len();
    let mut i: usize = start;
    let mut whole: u64 = 0;
    while i < len && '0' <= s.get_char(i) && s.get_char(i) <= '9'
        invariant
            start <= i <= len,
            len == s@.len(),
            u == s@.skip(start as int),
            forall|j: int| 0 <= j < i - start ==> is_digit(#[trigger] u[j]),
            whole as int == digits_value(u.take(i - start)),
            whole <= MAX_WHOLE,
        decreases len - i,
    {
        let c = s.get_char(i);
        let d = (c as u32 - '0' as u32) as u64;
        proof {
            let k = i - start;
            assert(u.take(k + 1).drop_last() =~= u.take(k));
            assert(u.take(k + 1).last() == c);
        }
        if whole > (MAX_WHOLE - d) / 10 {
            proof {
                let k = i - start;
                assert(digits_value(u.take(k + 1)) > MAX_WHOLE);
                let n = lead_digits(u) as int;
                assert(forall|j: int| 0 <= j < k + 1 ==> is_digit(#[trigger] u[j]));
                lemma_lead_mono(u, k + 1);
                assert(all_digits(u.take(n)));
                lemma_digits_mono(u.take(n), k + 1);
                assert(u.take(n).take(k + 1) =~= u.take(k + 1));
                assert(scale() == 1_000_000);
                assert(digits_value(u.take(n)) * scale() > i64::MAX as int);
                lemma_frac_nonneg(u);
            }
            return None;
        }
        whole = whole * 10 + d;
        i = i + 1;
    }
    let k = i - start;
    proof {
        lemma_lead_digits(u, k as int);
    }
    if k == 0 {
        return None;
    }
    let mut frac: u64 = 0;
    if i < len {
        let flen = len - i - 1;
        if s.get_char(i) != '.' || flen < 1 || flen > 6 {
            return None;
        }
        proof {
            reveal_with_fuel(p10, 1);
            assert(u[k as int] == s@[i as int]);
        }
        let ghost f = u.skip(k as int + 1);
        let ghost pf = padded_fraction(f);
        let mut j: usize = 0;
        while j < 6
            invariant
                i < len,
                flen == len - i - 1,
                1 <= flen <= 6,
                len == s@.len(),
                u == s@.skip(start as int),
                k == i - start,
                f == u.skip(k as int + 1),
                pf == padded_fraction(f),
                u[k as int] == '.',
                lead_digits(u) == k,
                j <= 6,
                frac as int == digits_value(pf.take(j as int)),
                all_digits(pf.take(j as int)),
                frac < p10(j as int),
                p10(j as int) <= 1_000_000,
            decreases 6 - j,
        {
            let d: u64 = if j < flen {
                let c = s.get_char(i + 1 + j);
                if c < '0' || c > '9' {
                    proof {
                        assert(u.skip(k as int)[0] == '.');
                        assert(u.skip(k as int).drop_first()[j as int] == c);
                        assert(!is_digit(c));
                    }
                    return None;
                }
                (c as u32 - '0' as u32) as u64
            } else {
                0
            };
            proof {
                assert(pf.take(j + 1).drop_last() =~= pf.take(j as int));
                if j < flen {
                    assert(pf[j as int] == f[j as int]);
                } else {
                    assert(pf[j as int] == '0');
                }
                assert(digit_of(pf[j as int]) == d);
                assert(all_digits(pf.take(j + 1)));
                lemma_p10_small(j + 1);
            }
            frac = frac * 10 + d;
            j = j + 1;
        }
        proof {
            assert(pf.take(6) =~= pf);
            assert(u.skip(k as int)[0] == '.');
            assert(u.skip(k as int).drop_first() =~= f);
            assert forall|m: int| 0 <= m < f.len() implies is_digit(#[trigger] f[m]) by {
                assert(pf[m] == f[m]);
            }
        }
    }
    proof {
        assert(u.take(k as int) =~= s@.subrange(start as int, i as int));
        lemma_digits_nonneg(u.take(k as int));
    }
    let total: u64 = whole * 1_000_000 + frac;
    if total > i64::MAX as u64 {
        return None;
    }
    Some(total as i64)
}

/// Ten to the power `e`.
pub open spec fn p10(e: int) -> int
    decreases e,
{
    if e <= 0 {
        1
    } else {
        10 * p10(e - 1)
    }
}

proof fn lemma_p10_small(e: int)
    requires
        0 <= e <= 6,
    ensures
        p10(e) <= 1_000_000,
        p10(e) == 10 * p10(e - 1) || e == 0,
{
    reveal_with_fuel(p10, 7);
}

proof fn lemma_lead_mono(u: Seq<char>, m: int)
    requires
        0 <= m <= u.len(),
        forall|j: int| 0 <= j < m ==> is_digit(#[trigger] u[j]),
    ensures
        m <= lead_digits(u),
        lead_digits(u) <= u.len(),
        forall|j: int| 0 <= j < lead_digits(u) ==> is_digit(#[trigger] u[j]),
    decreases u.len(),
{
    if u.len() > 0 && is_digit(u[0]) {
        let t = u.drop_first();
        if m > 0 {
            assert forall|j: int| 0 <= j < m - 1 implies is_digit(#[trigger] t[j]) by {
                assert(t[j] == u[j + 1]);
            }
            lemma_lead_mono(t, m - 1);
        } else {
            lemma_lead_mono(t, 0);
        }
        assert forall|j: int| 0 <= j < lead_digits(u) implies is_digit(#[trigger] u[j]) by {
            if j > 0 {
                assert(u[j] == t[j - 1]);
            }
        }
    }
}

proof fn lemma_frac_nonneg(u: Seq<char>)
    ensures
        ({
            let k = lead_digits(u) as int;
            let tail = u.skip(k as int);
            (tail.len() != 0 && tail[0] == '.' && 2 <= tail.len() <= 7 && all_digits(
                tail.drop_first(),
            )) ==> 0 <= digits_value(padded_fraction(tail.drop_first()))
        }),
{
    let k = lead_digits(u) as int;
    let tail = u.skip(k as int);
    if tail.len() != 0 && tail[0] == '.' && 2 <= tail.len() <= 7 && all_digits(tail.drop_first()) {
        let pf = padded_fraction(tail.drop_first());
        assert forall|m: int| 0 <= m < pf.len() implies is_digit(#[trigger] pf[m]) by {
            if m < tail.drop_first().len() {
                assert(pf[m] == tail.drop_first()[m]);
            } else {
                assert(pf[m] == '0');
            }
        }
        lemma_digits_nonneg(pf);
    }
}

// ------------------------------------------------------------ arithmetic

pub open spec fn abs(a: int) -> int {
    if a < 0 {
        -a
    } else {
        a
    }
}

/// Division that rounds toward zero.
pub open spec fn tdiv(a: int, b: int) -> int {
    let q = abs(a) / abs(b);
    if (a < 0) == (b < 0) {
        q
    } else {
        -q
    }
}

pub open spec fn num_result(n: int) -> Result<Datum, LogoError> {
    if fits(n) {
        Ok(Datum::Num(n))
    } else {
        Err(LogoError::RangeError)
    }
}

/// `x - y`, defined on two numbers.
pub open spec fn sub_spec(x: Datum, y: Datum) -> Result<Datum, LogoError> {
    match (x, y) {
        (Datum::Num(a), Datum::Num(b)) => num_result(a - b),
        _ => Err(LogoError::TypeError),
    }
}

/// `x * y`, defined on two numbers; the product is cut to six decimals.
pub open spec fn mul_spec(x: Datum, y: Datum) -> Result<Datum, LogoError> {
    match (x, y) {
        (Datum::Num(a), Datum::Num(b)) => num_result(tdiv(a * b, scale())),
        _ => Err(LogoError::TypeError),
    }
}

/// `x / y`, defined on two numbers with `y` not zero; the quotient is cut to
/// six decimals.
pub open spec fn div_spec(x: Datum, y: Datum) -> Result<Datum, LogoError> {
    match (x, y) {
        (Datum::Num(a), Datum::Num(b)) => if b == 0 {
            Err(LogoError::RangeError)
        } else {
            num_result(tdiv(a * scale(), b))
        },
        _ => Err(LogoError::TypeError),
    }
}

/// The number that stands for a truth value: one or zero.
pub open spec fn flag(b: bool) -> int {
    if b {
        scale()
    } else {
        0
    }
}

/// `x < y`, defined on two numbers; the result is one or zero.
pub open spec fn less_spec(x: Datum, y: Datum) -> Result<Datum, LogoError> {
    match (x, y) {
        (Datum::Num(a), Datum::Num(b)) => Ok(Datum::Num(flag(a < b))),
        _ => Err(LogoError::TypeError),
    }
}

/// `r` is the value, or the error, that `s` describes.
pub open spec fn gives(r: Result<Value, LogoError>, s: Result<Datum, LogoError>) -> bool {
    match r {
        Ok(v) => s == Ok::<Datum, LogoError>(v@),
        Err(e) => s == Err::<Datum, LogoError>(e),
    }
}

fn scaled_quotient(p: i128, d: i128) -> (r: Result<Value, LogoError>)
    requires
        d > 0,
        -0x4000_0000_0000_0000_0000_0000_0000_0000 <= p <= 0x4000_0000_0000_0000_0000_0000_0000_0000,
        d <= 0x8000_0000_0000_0000,
    ensures
        gives(r, num_result(tdiv(p as int, d as int))),
{
    let m: u128 = if p < 0 {
        (-p) as u128
    } else {
        p as u128
    };
    let q: u128 = m / (d as u128);
    if q > i64::MAX as u128 {
        return Err(LogoError::RangeError);
    }
    let n: i64 = if p < 0 {
        -(q as i64)
    } else {
        q as i64
    };
    Ok(Value::Num(n))
}

fn magnitude(a: i64) -> (r: i128)
    ensures
        r as int == abs(a as int),
        0 <= r <= 0x8000_0000_0000_0000,
{
    if a < 0 {
        -(a as i128)
    } else {
        a as i128
    }
}

impl Value {
    /// The difference of two numbers.
    pub fn sub(self, rhs: Value) -> (r: Result<Value, LogoError>)
        ensures
            gives(r, sub_spec(self@, rhs@)),
    {
        match (self, rhs) {
            (Value::Num(a), Value::Num(b)) => {
                let d: i128 = a as i128 - b as i128;
                if d < -(i64::MAX as i128) || d > i64::MAX as i128 {
                    Err(LogoError::RangeError)
                } else {
                    Ok(Value::Num(d as i64))
                }
            },
            _ => Err(LogoError::TypeError),
        }
    }

    /// The product of two numbers.
    pub fn mul(self, rhs: Value) -> (r: Result<Value, LogoError>)
        ensures
            gives(r, mul_spec(self@, rhs@)),
    {
        match (self, rhs) {
            (Value::Num(a), Value::Num(b)) => {
                let ma = magnitude(a);
                let mb = magnitude(b);
                proof {
                    assert(0 <= ma * mb <= 0x4000_0000_0000_0000_0000_0000_0000_0000) by (nonlinear_arith)
                        requires
                            0 <= ma <= 0x8000_0000_0000_0000,
                            0 <= mb <= 0x8000_0000_0000_0000,
                    ;
                    assert(abs(a as int) * abs(b as int) == abs((a as int) * (b as int))) by (nonlinear_arith);
                }
                let mp: i128 = ma * mb;
                let p: i128 = if (a < 0) != (b < 0) {
                    -mp
                } else {
                    mp
                };
                proof {
                    assert(p == (a as int) * (b as int)) by (nonlinear_arith)
                        requires
                            mp == abs(a as int) * abs(b as int),
                            p == (if (a < 0) != (b < 0) {
                                -mp
                            } else {
                                mp as int
                            }),
                    ;
                }
                scaled_quotient(p, 1_000_000)
            },
            _ => Err(LogoError::TypeError),
        }
    }

    /// The quotient of two numbers.
    pub fn div(self, rhs: Value) -> (r: Result<Value, LogoError>)
        ensures
            gives(r, div_spec(self@, rhs@)),
    {
        match (self, rhs) {
            (Value::Num(a), Value::Num(b)) => {
                if b == 0 {
                    return Err(LogoError::RangeError);
                }
                let n: i128 = a as i128 * 1_000_000;
                let mb = magnitude(b);
                let n2: i128 = if b < 0 {
                    -n
                } else {
                    n
                };
                let r = scaled_quotient(n2, mb);
                proof {
                    assert(tdiv(n2 as int, mb as int) == tdiv((a as int) * scale(), b as int));
                }
                r
            },
            _ => Err(LogoError::TypeError),
        }
    }

    /// One where `self < rhs`, else zero; defined on two numbers.
    pub fn less(self, rhs: Value) -> (r: Result<Value, LogoError>)
        ensures
            gives(r, less_spec(self@, rhs@)),
    {
        match (self, rhs) {
            (Value::Num(a), Value::Num(b)) => Ok(Value::from_bool(a < b)),
            _ => Err(LogoError::TypeError),
        }
    }
}

// ------------------------------------------------------------------- text

pub open spec fn digit_char(d: int) -> char {
    ('0' as int + d) as char
}

/// The decimal digits of `n`.
pub open spec fn nat_text(n: nat) -> Seq<char>
    decreases n,
{
    if n < 10 {
        seq![digit_char(n as int)]
    } else {
        nat_text(n / 10).push(digit_char((n % 10) as int))
    }
}

/// The last `w` decimal digits of `n`, with leading zeros.
pub open spec fn width_text(n: nat, w: nat) -> Seq<char>
    decreases w,
{
    if w == 0 {
        seq![]
    } else {
        width_text(n / 10, (w - 1) as nat).push(digit_char((n % 10) as int))
    }
}

pub open spec fn trim_zeros(s: Seq<char>) -> Seq<char>
    decreases s.len(),
{
    if s.len() > 0 && s.last() == '0' {
        trim_zeros(s.drop_last())
    } else {
        s
    }
}

/// How a number is written: its sign, its whole part, and its fraction
/// without trailing zeros, if it has one.
pub open spec fn number_text(n: int) -> Seq<char> {
    let m = abs(n);
    let w = m / scale();
    let f = m % scale();
    let sign = if n < 0 {
        seq!['-']
    } else {
        seq![]
    };
    let frac = if f == 0 {
        seq![]
    } else {
        seq!['.'] + trim_zeros(width_text(f as nat, 6))
    };
    sign + nat_text(w as nat) + frac
}

/// Words joined by single spaces.
pub open spec fn join_words(items: Seq<Seq<char>>) -> Seq<char>
    decreases items.len(),
{
    if items.len() == 0 {
        seq![]
    } else if items.len() == 1 {
        items[0]
    } else {
        join_words(items.drop_last()) + seq![' '] + items.last()
    }
}

/// The text of a value: a string as it is, a number in decimal, a list as
/// `[ a b ]`, and `Void`.
pub open spec fn text_of(d: Datum) -> Seq<char> {
    match d {
        Datum::Str(s) => s,
        Datum::Num(n) => number_text(n),
        Datum::List(l) => seq!['[', ' '] + join_words(l) + seq![' ', ']'],
        Datum::Void => seq!['V', 'o', 'i', 'd'],
    }
}

fn digit(d: u64) -> (c: char)
    requires
        d < 10,
    ensures
        c == digit_char(d as int),
{
    match d {
        0 => '0',
        1 => '1',
        2 => '2',
        3 => '3',
        4 => '4',
        5 => '5',
        6 => '6',
        7 => '7',
        8 => '8',
        _ => '9',
    }
}

fn push_nat_text(n: u64, out: &mut Vec<char>)
    ensures
        final(out)@ == old(out)@ + nat_text(n as nat),
    decreases n,
{
    if n >= 10 {
        push_nat_text(n / 10, out);
    }
    out.push(digit(n % 10));
    proof {
        if n >= 10 {
            assert(final(out)@ =~= old(out)@ + nat_text(n as nat));
        } else {
            assert(final(out)@ =~= old(out)@ + nat_text(n as nat));
        }
    }
}

fn push_width_text(n: u64, w: u64, out: &mut Vec<char>)
    ensures
        final(out)@ == old(out)@ + width_text(n as nat, w as nat),
    decreases w,
{
    if w > 0 {
        push_width_text(n / 10, w - 1, out);
        out.push(digit(n % 10));
        assert(final(out)@ =~= old(out)@ + width_text(n as nat, w as nat));
    } else {
        assert(final(out)@ =~= old(out)@ + width_text(n as nat, w as nat));
    }
}

fn push_number_text(n: i64, out: &mut Vec<char>)
    ensures
        final(out)@ == old(out)@ + number_text(n as int),
{
    let m: u64 = if n < 0 {
        (-(n as i128)) as u64
    } else {
        n as u64
    };
    let w = m / 1_000_000;
    let f = m % 1_000_000;
    if n < 0 {
        out.push('-');
    }
    push_nat_text(w, out);
    let ghost before = out@;
    if f != 0 {
        out.push('.');
        let floor = out.len();
        let ghost with_dot = out@;
        push_width_text(f, 6, out);
        let ghost full = out@;
        assert(out@.skip(with_dot.len() as int) =~= width_text(f as nat, 6));
        while out.len() > 0 && out[out.len() - 1] == '0' && out.len() > floor
            invariant
                floor == with_dot.len(),
                with_dot.len() <= out@.len() <= full.len(),
                out@ == full.take(out@.len() as int),
                full == with_dot + width_text(f as nat, 6),
                with_dot == before.push('.'),
                trim_zeros(out@.skip(with_dot.len() as int)) == trim_zeros(width_text(f as nat, 6)),
            decreases out@.len(),
        {
            proof {
                let t = out@.skip(with_dot.len() as int);
                assert(t.drop_last() =~= out@.drop_last().skip(with_dot.len() as int));
                assert(t.last() == '0');
            }
            out.pop();
        }
        proof {
            let t = out@.skip(with_dot.len() as int);
            if out@.len() == with_dot.len() {
                assert(t.len() == 0);
                reveal_with_fuel(p10, 7);
                lemma_width_nonzero(f as nat, 6);
            }
            assert(trim_zeros(t) == t);
            assert(out@ =~= with_dot + t);
        }
    }
    proof {
        assert(out@ =~= old(out)@ + number_text(n as int));
    }
}

/// A nonzero number has a nonzero digit among its last six, where it is
/// below a million; so trimming zeros leaves something.
proof fn lemma_width_nonzero(f: nat, w: nat)
    requires
        0 < f < p10(w as int),
    ensures
        trim_zeros(width_text(f, w)).len() > 0,
    decreases w,
{
    let s = width_text(f, w);
    if w == 0 {
        assert(p10(0) == 1);
    } else {
        assert(s.drop_last() == width_text(f / 10, (w - 1) as nat));
        if f % 10 != 0 {
            assert(s.last() != '0');
        } else {
            assert(f / 10 > 0);
            assert(f / 10 < p10(w - 1));
            lemma_width_nonzero(f / 10, (w - 1) as nat);
        }
    }
}

fn push_str(out: &mut Vec<char>, s: &str)
    ensures
        final(out)@ == old(out)@ + s@,
{
    let len = s.unicode_len();
    let mut i: usize = 0;
    while i < len
        invariant
            len == s@.len(),
            i <= len,
            out@ == old(out)@ + s@.take(i as int),
        decreases len - i,
    {
        out.push(s.get_char(i));
        i = i + 1;
        assert(out@ =~= old(out)@ + s@.take(i as int));
    }
    assert(s@.take(len as int) =~= s@);
}

/// Relies on `String`'s `FromIterator<&char>` (through `Iterator::collect`):
/// the string holds the chars in their order.
#[verifier::external_body]
pub(crate) fn string_of_chars(cs: &Vec<char>) -> (r: String)
    ensures
        r@ == cs@,
{
    cs.iter().collect()
}

impl Value {
    /// The value that stands for a truth value.
    pub fn from_bool(b: bool) -> (r: Value)
        ensures
            r@ == Datum::Num(flag(b)),
    {
        Value::Num(if b { SCALE } else { 0 })
    }

    /// A value equal to this one.
    pub fn duplicate(&self) -> (r: Value)
        ensures
            r@ == self@,
    {
        match self {
            Value::Str(s) => Value::Str(s.clone()),
            Value::Num(n) => Value::Num(*n),
            Value::List(l) => Value::List(copy_strings(l)),
            Value::Void => Value::Void,
        }
    }

    /// The text of this value.
    pub fn text(&self) -> (r: String)
        ensures
            r@ == text_of(self@),
    {
        let mut out: Vec<char> = Vec::new();
        match self {
            Value::Str(s) => {
                push_str(&mut out, s.as_str());
            },
            Value::Num(n) => {
                push_number_text(*n, &mut out);
            },
            Value::List(l) => {
                out.push('[');
                out.push(' ');
                let ghost start = out@;
                let ghost items = texts(l@);
                let mut i: usize = 0;
                while i < l.len()
                    invariant
                        i <= l@.len(),
                        items == texts(l@),
                        out@ == start + join_words(items.take(i as int)),
                    decreases l@.len() - i,
                {
                    if i > 0 {
                        out.push(' ');
                    }
                    push_str(&mut out, l[i].as_str());
                    proof {
                        let t = items.take(i + 1);
                        assert(t.drop_last() =~= items.take(i as int));
                        assert(t.last() == l@[i as int]@);
                        if i == 0 {
                            assert(join_words(items.take(0)) =~= seq![]);
                        }
                    }
                    i = i + 1;
                    assert(out@ =~= start + join_words(items.take(i as int)));
                }
                assert(items.take(i as int) =~= items);
                out.push(' ');
                out.push(']');
            },
            Value::Void => {
                out.push('V');
                out.push('o');
                out.push('i');
                out.push('d');
            },
        }
        assert(out@ =~= text_of(self@));
        string_of_chars(&out)
    }

    /// The number that this value holds; a string is read as a number token.
    pub fn to_number(&self) -> (r: Result<i64, LogoError>)
        ensures
            match r {
                Ok(n) => number_value(self@) == Ok::<int, LogoError>(n as int),
                Err(e) => number_value(self@) == Err::<int, LogoError>(e),
            },
    {
        match self {
            Value::Str(s) => match parse_number(s.as_str()) {
                Some(n) => Ok(n),
                None => Err(LogoError::TypeError),
            },
            Value::Num(n) => Ok(*n),
            _ => Err(LogoError::TypeError),
        }
    }

    /// The truth value of this value: a number is true where it is not zero.
    pub fn to_bool(&self) -> (r: Result<bool, LogoError>)
        ensures
            r == bool_value(self@),
    {
        match self.to_number() {
            Ok(n) => Ok(n != 0),
            Err(e) => Err(e),
        }
    }

    /// The words of a list.
    pub fn into_list(self) -> (r: Result<Vec<String>, LogoError>)
        ensures
            match r {
                Ok(l) => self@ == Datum::List(texts(l@)),
                Err(e) => e == LogoError::TypeError && !(self@ is List),
            },
    {
        match self {
            Value::List(l) => Ok(l),
            _ => Err(LogoError::TypeError),
        }
    }
}

/// The number that a value stands for, where it stands for one.
pub open spec fn number_value(d: Datum) -> Result<int, LogoError> {
    match d {
        Datum::Str(s) => match number_of(s) {
            Some(n) => Ok(n),
            None => Err(LogoError::TypeError),
        },
        Datum::Num(n) => Ok(n),
        _ => Err(LogoError::TypeError),
    }
}

/// The truth value that a value stands for: a number other than zero is true.
pub open spec fn bool_value(d: Datum) -> Result<bool, LogoError> {
    match number_value(d) {
        Ok(n) => Ok(n != 0),
        Err(e) => Err(e),
    }
}

/// A copy of a list of strings.
pub fn copy_strings(v: &Vec<String>) -> (r: Vec<String>)
    ensures
        r@ == v@,
{
    let mut r: Vec<String> = Vec::new();
    let mut i: usize = 0;
    while i < v.len()
        invariant
            i <= v@.len(),
            r@ == v@.take(i as int),
        decreases v@.len() - i,
    {
        r.push(v[i].clone());
        i = i + 1;
        assert(r@ =~= v@.take(i as int));
    }
    assert(v@.take(i as int) =~= v@);
    r
}

} // verus!
