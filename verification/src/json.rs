//! The dynamically-typed JSON value model.
//!
//! Values are held as a tagged union: null, boolean, number, string, array,
//! object. Object entries keep the order in which they were supplied; the
//! comparison logic walks them in that order. Numbers are held in a canonical
//! decimal form so that numeric equality coincides with structural equality.

use vstd::prelude::*;

verus! {

/// A JSON number in decimal scientific form: the value is
/// `(-1)^neg * mantissa * 10^exp`.
///
/// A number is canonical when a zero mantissa forces `neg == false` and
/// `exp == 0`, and a non-zero mantissa is never divisible by ten. Two
/// canonical numbers denote the same numeric value exactly when they are
/// structurally equal, so the comparator's structural equality on numbers
/// is comparison by numeric value, not by textual form.
#[derive(Clone, Copy, PartialEq, Eq, Structural, Debug)]
pub struct JsonNumber {
    pub neg: bool,
    pub mantissa: u64,
    pub exp: i64,
}

/// A dynamically-typed JSON value.
#[derive(Debug)]
pub enum JsonValue {
    Null,
    Bool(bool),
    Number(JsonNumber),
    Str(String),
    Array(Vec<JsonValue>),
    Object(Vec<(String, JsonValue)>),
}

impl JsonNumber {
    /// A number is canonical when zero is represented one way only and a
    /// non-zero mantissa carries no trailing decimal zeros.
    pub open spec fn is_canonical(self) -> bool {
        if self.mantissa == 0 {
            !self.neg && self.exp == 0
        } else {
            self.mantissa % 10 != 0
        }
    }

    /// The canonical form of `(-1)^neg * mantissa * 10^exp`.
    pub open spec fn spec_canonicalize(neg: bool, mantissa: u64, exp: int) -> JsonNumber
        decreases mantissa,
    {
        if mantissa == 0 {
            JsonNumber { neg: false, mantissa: 0, exp: 0 }
        } else if mantissa % 10 == 0 {
            Self::spec_canonicalize(neg, mantissa / 10, exp + 1)
        } else {
            JsonNumber { neg, mantissa, exp: exp as i64 }
        }
    }

    /// Builds the canonical number denoting `(-1)^neg * mantissa * 10^exp`.
    ///
    /// Stripping one trailing zero raises the exponent by one; a 64-bit
    /// mantissa has at most twenty decimal digits, so a small headroom on
    /// the exponent is all the construction needs.
    pub fn new(neg: bool, mantissa: u64, exp: i64) -> (r: JsonNumber)
        requires
            exp <= i64::MAX - 20,
        ensures
            r == Self::spec_canonicalize(neg, mantissa, exp as int),
            r.is_canonical(),
            r.same_value(JsonNumber { neg, mantissa, exp }),
    {
        let mut m: u64 = mantissa;
        let mut e: i64 = exp;
        proof {
            Self::lemma_canonicalize_canonical(neg, mantissa, exp as int);
            Self::lemma_digit_count_u64(mantissa);
            Self::lemma_canonicalize_same_value(neg, mantissa, exp as int);
            vstd::arithmetic::power::lemma_pow0(10);
        }
        while m != 0 && m % 10 == 0
            invariant
                exp <= e,
                exp <= i64::MAX - 20,
                e <= i64::MAX - 1,
                mantissa as int == m as int * vstd::arithmetic::power::pow(10, (e - exp) as nat),
                m != 0 ==> vstd::arithmetic::power::pow(10, (e - exp) as nat) <= mantissa as int,
                Self::spec_canonicalize(neg, m, e as int) == Self::spec_canonicalize(
                    neg,
                    mantissa,
                    exp as int,
                ),
            decreases m,
        {
            proof {
                Self::lemma_strip_zero(neg, mantissa, exp as int, m, e as int);
            }
            m = m / 10;
            e = e + 1;
        }
        if m == 0 {
            JsonNumber { neg: false, mantissa: 0, exp: 0 }
        } else {
            JsonNumber { neg, mantissa: m, exp: e }
        }
    }

    /// One stripping step: dividing a mantissa that ends in zero by ten and
    /// raising the exponent keeps the denoted value, keeps the power-of-ten
    /// accounting exact, and cannot push the exponent past its headroom.
    proof fn lemma_strip_zero(neg: bool, mantissa: u64, exp: int, m: u64, e: int)
        requires
            exp <= e,
            e <= i64::MAX - 1,
            exp <= i64::MAX - 20,
            m != 0,
            m % 10 == 0,
            mantissa as int == m as int * vstd::arithmetic::power::pow(10, (e - exp) as nat),
            vstd::arithmetic::power::pow(10, (e - exp) as nat) <= mantissa as int,
        ensures
            mantissa as int == (m / 10) as int * vstd::arithmetic::power::pow(
                10,
                (e + 1 - exp) as nat,
            ),
            vstd::arithmetic::power::pow(10, (e + 1 - exp) as nat) <= mantissa as int,
            e + 1 <= i64::MAX - 1,
            Self::spec_canonicalize(neg, m, e) == Self::spec_canonicalize(neg, m / 10, e + 1),
    {
        let k = (e - exp) as nat;
        let p = vstd::arithmetic::power::pow(10, k);
        let p1 = vstd::arithmetic::power::pow(10, (k + 1) as nat);
        assert(p1 == 10 * p) by {
            vstd::arithmetic::power::lemma_pow_adds(10, k, 1);
            vstd::arithmetic::power::lemma_pow1(10);
        }
        assert(m as int == 10 * (m as int / 10));
        assert(m as int / 10 == (m / 10) as int);
        assert((m as int) * p == ((m / 10) as int) * p1) by (nonlinear_arith)
            requires
                m as int == 10 * (m as int / 10),
                p1 == 10 * p,
                m as int / 10 == (m / 10) as int,
        ;
        vstd::arithmetic::power::lemma_pow_positive(10, (k + 1) as nat);
        if m / 10 != 0 {
            vstd::arithmetic::mul::lemma_mul_inequality(1, (m / 10) as int, p1);
            assert(p1 <= mantissa as int);
            if k + 1 >= 20 {
                if k + 1 > 20 {
                    vstd::arithmetic::power::lemma_pow_strictly_increases(10, 20, (k + 1) as nat);
                }
                Self::lemma_pow10_consts();
                assert(mantissa as int >= 100000000000000000000);
                assert(false);
            }
            assert(e + 1 - exp <= 19);
        } else {
            assert(m as int == 10 * (m as int / 10));
            assert(m == 0);
            assert(false);
        }
    }

    /// The small powers of ten the proofs compare against; the twentieth
    /// exceeds any 64-bit mantissa.
    proof fn lemma_pow10_consts()
        ensures
            vstd::arithmetic::power::pow(10, 18) == 1000000000000000000,
            vstd::arithmetic::power::pow(10, 19) == 10000000000000000000,
            vstd::arithmetic::power::pow(10, 20) == 100000000000000000000,
    {
        reveal_with_fuel(vstd::arithmetic::power::pow, 21);
    }

    /// The canonical form is indeed canonical.
    pub proof fn lemma_canonicalize_canonical(neg: bool, mantissa: u64, exp: int)
        ensures
            Self::spec_canonicalize(neg, mantissa, exp).is_canonical(),
        decreases mantissa,
    {
        if mantissa != 0 && mantissa % 10 == 0 {
            Self::lemma_canonicalize_canonical(neg, mantissa / 10, exp + 1);
        }
    }

    /// The mantissa with its sign applied.
    pub open spec fn signed_mantissa(self) -> int {
        if self.neg {
            -(self.mantissa as int)
        } else {
            self.mantissa as int
        }
    }

    /// Whether two decimal forms denote the same numeric value: brought to
    /// the lower of the two exponents, their signed mantissas coincide.
    pub open spec fn same_value(self, other: JsonNumber) -> bool {
        if self.exp >= other.exp {
            self.signed_mantissa() * vstd::arithmetic::power::pow(
                10,
                (self.exp - other.exp) as nat,
            ) == other.signed_mantissa()
        } else {
            self.signed_mantissa() == other.signed_mantissa() * vstd::arithmetic::power::pow(
                10,
                (other.exp - self.exp) as nat,
            )
        }
    }

    /// How many decimal digits a natural number takes.
    pub open spec fn digit_count(m: nat) -> nat
        decreases m,
    {
        if m < 10 {
            1
        } else {
            1 + Self::digit_count(m / 10)
        }
    }

    /// A number below ten to the `d` takes at most `d` digits.
    proof fn lemma_digit_count_bound(m: nat, d: nat)
        requires
            d >= 1,
            m < vstd::arithmetic::power::pow(10, d),
        ensures
            Self::digit_count(m) <= d,
        decreases d,
    {
        if m >= 10 {
            if d == 1 {
                vstd::arithmetic::power::lemma_pow1(10);
                assert(false);
            }
            assert(vstd::arithmetic::power::pow(10, d) == 10 * vstd::arithmetic::power::pow(
                10,
                (d - 1) as nat,
            )) by {
                vstd::arithmetic::power::lemma_pow_adds(10, (d - 1) as nat, 1);
                vstd::arithmetic::power::lemma_pow1(10);
            }
            assert(10 * (m / 10) <= m);
            assert(m / 10 < vstd::arithmetic::power::pow(10, (d - 1) as nat));
            Self::lemma_digit_count_bound(m / 10, (d - 1) as nat);
        }
    }

    /// A 64-bit mantissa takes at most twenty digits.
    proof fn lemma_digit_count_u64(m: u64)
        ensures
            Self::digit_count(m as nat) <= 20,
    {
        Self::lemma_pow10_consts();
        Self::lemma_digit_count_bound(m as nat, 20);
    }

    /// Law: canonicalizing keeps the denoted value.
    pub proof fn lemma_canonicalize_same_value(neg: bool, mantissa: u64, exp: int)
        requires
            i64::MIN <= exp,
            exp + Self::digit_count(mantissa as nat) <= i64::MAX,
        ensures
            Self::spec_canonicalize(neg, mantissa, exp).same_value(
                JsonNumber { neg, mantissa, exp: exp as i64 },
            ),
        decreases mantissa,
    {
        vstd::arithmetic::power::lemma_pow0(10);
        let orig = JsonNumber { neg, mantissa, exp: exp as i64 };
        let c = Self::spec_canonicalize(neg, mantissa, exp);
        if mantissa == 0 {
            assert(c.signed_mantissa() == 0 && orig.signed_mantissa() == 0);
            if c.exp >= orig.exp {
                assert(0 * vstd::arithmetic::power::pow(10, (c.exp - orig.exp) as nat) == 0)
                    by (nonlinear_arith);
            } else {
                assert(0 * vstd::arithmetic::power::pow(10, (orig.exp - c.exp) as nat) == 0)
                    by (nonlinear_arith);
            }
        } else if mantissa % 10 == 0 {
            Self::lemma_canonicalize_same_value(neg, mantissa / 10, exp + 1);
            let half = JsonNumber { neg, mantissa: mantissa / 10, exp: (exp + 1) as i64 };
            Self::lemma_canonicalize_grows_exp(neg, mantissa / 10, exp + 1);
            assert(c.exp >= half.exp);
            let k = (c.exp - half.exp) as nat;
            let p = vstd::arithmetic::power::pow(10, k);
            let p1 = vstd::arithmetic::power::pow(10, (k + 1) as nat);
            assert(p1 == 10 * p) by {
                vstd::arithmetic::power::lemma_pow_adds(10, k, 1);
                vstd::arithmetic::power::lemma_pow1(10);
            }
            assert(mantissa as int == 10 * (mantissa as int / 10));
            assert(c.signed_mantissa() * p == half.signed_mantissa());
            let hs = half.signed_mantissa();
            let os = orig.signed_mantissa();
            assert(hs * 10 == os) by (nonlinear_arith)
                requires
                    mantissa as int == 10 * (mantissa as int / 10),
                    hs == (if neg {
                        -(mantissa as int / 10)
                    } else {
                        mantissa as int / 10
                    }),
                    os == (if neg {
                        -(mantissa as int)
                    } else {
                        mantissa as int
                    }),
            ;
            assert(c.signed_mantissa() * p1 == os) by (nonlinear_arith)
                requires
                    c.signed_mantissa() * p == hs,
                    hs * 10 == os,
                    p1 == 10 * p,
            ;
            assert(c.exp - orig.exp == k + 1);
        } else {
            assert(c == orig);
            assert(c.signed_mantissa() * 1 == orig.signed_mantissa());
        }
    }

    /// A non-zero mantissa's canonical exponent never sinks below the
    /// given one.
    proof fn lemma_canonicalize_grows_exp(neg: bool, mantissa: u64, exp: int)
        requires
            mantissa != 0,
            i64::MIN <= exp,
            exp + Self::digit_count(mantissa as nat) <= i64::MAX,
        ensures
            Self::spec_canonicalize(neg, mantissa, exp).exp >= exp,
        decreases mantissa,
    {
        if mantissa % 10 == 0 {
            Self::lemma_canonicalize_grows_exp(neg, mantissa / 10, exp + 1);
        }
    }

    /// Law: on canonical numbers, structural equality is numeric equality —
    /// two canonical forms are equal exactly when they denote the same
    /// value. Equality on numbers therefore compares the decoded numeric
    /// value, not a textual form.
    pub proof fn lemma_canonical_eq_iff_same_value(a: JsonNumber, b: JsonNumber)
        requires
            a.is_canonical(),
            b.is_canonical(),
        ensures
            a == b <==> a.same_value(b),
    {
        vstd::arithmetic::power::lemma_pow0(10);
        if a == b {
            assert(a.signed_mantissa() * 1 == b.signed_mantissa());
        } else if a.same_value(b) {
            if a.exp >= b.exp {
                Self::lemma_same_value_canonical_eq(a, b);
            } else {
                Self::lemma_same_value_canonical_eq(b, a);
            }
            assert(false);
        }
    }

    /// The one-sided core of the equality law: a canonical pair with the
    /// higher exponent on the left and coinciding values must be equal.
    proof fn lemma_same_value_canonical_eq(a: JsonNumber, b: JsonNumber)
        requires
            a.is_canonical(),
            b.is_canonical(),
            a.exp >= b.exp,
            a.signed_mantissa() * vstd::arithmetic::power::pow(10, (a.exp - b.exp) as nat)
                == b.signed_mantissa(),
        ensures
            a == b,
    {
        let k = (a.exp - b.exp) as nat;
        let p = vstd::arithmetic::power::pow(10, k);
        vstd::arithmetic::power::lemma_pow_positive(10, k);
        vstd::arithmetic::power::lemma_pow0(10);
        if a.mantissa == 0 {
            assert(a.signed_mantissa() == 0);
            assert(0 * p == 0) by (nonlinear_arith);
            assert(b.signed_mantissa() == 0);
            assert(b.mantissa == 0);
        } else if k == 0 {
            assert(a.signed_mantissa() == b.signed_mantissa());
            if a.neg != b.neg {
                if a.neg {
                    assert(-(a.mantissa as int) == b.mantissa as int);
                    assert(a.mantissa == 0);
                } else {
                    assert(a.mantissa as int == -(b.mantissa as int));
                    assert(a.mantissa == 0);
                }
                assert(false);
            }
            assert(a.mantissa == b.mantissa && a.exp == b.exp && a.neg == b.neg);
        } else {
            let p1 = vstd::arithmetic::power::pow(10, (k - 1) as nat);
            assert(p == 10 * p1) by {
                vstd::arithmetic::power::lemma_pow_adds(10, (k - 1) as nat, 1);
                vstd::arithmetic::power::lemma_pow1(10);
            }
            vstd::arithmetic::power::lemma_pow_positive(10, (k - 1) as nat);
            let sa = a.signed_mantissa();
            let sb = b.signed_mantissa();
            assert(sb == (sa * p1) * 10) by (nonlinear_arith)
                requires
                    sa * p == sb,
                    p == 10 * p1,
            ;
            vstd::arithmetic::div_mod::lemma_mod_multiples_basic(sa * p1, 10);
            assert(sb % 10 == 0);
            if b.neg {
                assert((-(b.mantissa as int)) % 10 == 0);
                assert(b.mantissa as int % 10 == 0) by (nonlinear_arith)
                    requires
                        (-(b.mantissa as int)) % 10 == 0,
                ;
            }
            assert(b.mantissa % 10 == 0);
            assert(b.mantissa == 0);
            assert(sa * p == 0);
            assert(sa == 0) by (nonlinear_arith)
                requires
                    sa * p == 0,
                    p > 0,
            ;
            assert(false);
        }
    }
}

/// The elements of an array value; anything else contributes none.
pub open spec fn elems_of(d: JsonValue) -> Seq<JsonValue> {
    match d {
        JsonValue::Array(ds) => ds@,
        _ => Seq::empty(),
    }
}

/// The entries of an object value; anything else contributes none.
pub open spec fn entries_of(d: JsonValue) -> Seq<(String, JsonValue)> {
    match d {
        JsonValue::Object(es) => es@,
        _ => Seq::empty(),
    }
}

/// First entry whose key matches, walking entries in order; null when the
/// key is absent. Looking a key up in a non-object also yields null, which
/// the comparison rules read as a missing value.
pub open spec fn lookup_entries(es: Seq<(String, JsonValue)>, k: Seq<char>) -> JsonValue
    decreases es.len(),
{
    if es.len() == 0 {
        JsonValue::Null
    } else if es[0].0@ == k {
        es[0].1
    } else {
        lookup_entries(es.drop_first(), k)
    }
}

/// Key lookup on a value: object entries searched in order, null otherwise.
pub open spec fn lookup(d: JsonValue, k: Seq<char>) -> JsonValue {
    lookup_entries(entries_of(d), k)
}

/// The value model's invariant: every number held anywhere in the value
/// is canonical, as `JsonNumber::new` builds them. Under it, equality of
/// numbers during comparison is equality of denoted numeric values, not
/// of textual forms.
pub open spec fn well_formed(v: JsonValue) -> bool
    decreases v,
{
    match v {
        JsonValue::Number(n) => n.is_canonical(),
        JsonValue::Array(xs) => well_formed_seq(xs@),
        JsonValue::Object(es) => well_formed_entries(es@),
        _ => true,
    }
}

/// Every element is well formed.
pub open spec fn well_formed_seq(xs: Seq<JsonValue>) -> bool
    decreases xs,
{
    xs.len() == 0 || (well_formed(xs[0]) && well_formed_seq(xs.drop_first()))
}

/// Every entry's value is well formed.
pub open spec fn well_formed_entries(es: Seq<(String, JsonValue)>) -> bool
    decreases es,
{
    es.len() == 0 || (well_formed(es[0].1) && well_formed_entries(es.drop_first()))
}

/// The decimal digit characters.
pub open spec fn digit_char(d: int) -> char {
    if d == 0 {
        '0'
    } else if d == 1 {
        '1'
    } else if d == 2 {
        '2'
    } else if d == 3 {
        '3'
    } else if d == 4 {
        '4'
    } else if d == 5 {
        '5'
    } else if d == 6 {
        '6'
    } else if d == 7 {
        '7'
    } else if d == 8 {
        '8'
    } else {
        '9'
    }
}

/// Decimal digits of a natural number, most significant first.
pub open spec fn dec_of(n: nat) -> Seq<char>
    decreases n,
{
    if n < 10 {
        seq![digit_char(n as int)]
    } else {
        dec_of(n / 10) + seq![digit_char((n % 10) as int)]
    }
}

/// One decimal digit as text.
fn digit_str(d: u64) -> (s: &'static str)
    requires
        d < 10,
    ensures
        s@ == seq![digit_char(d as int)],
{
    proof {
        reveal_strlit("0");
        reveal_strlit("1");
        reveal_strlit("2");
        reveal_strlit("3");
        reveal_strlit("4");
        reveal_strlit("5");
        reveal_strlit("6");
        reveal_strlit("7");
        reveal_strlit("8");
        reveal_strlit("9");
    }
    let s: &'static str = if d == 0 {
        "0"
    } else if d == 1 {
        "1"
    } else if d == 2 {
        "2"
    } else if d == 3 {
        "3"
    } else if d == 4 {
        "4"
    } else if d == 5 {
        "5"
    } else if d == 6 {
        "6"
    } else if d == 7 {
        "7"
    } else if d == 8 {
        "8"
    } else {
        "9"
    };
    proof {
        assert(s@ =~= seq![digit_char(d as int)]);
    }
    s
}

/// Renders a natural number in decimal.
pub fn dec_str(n: u64) -> (s: String)
    ensures
        s@ == dec_of(n as nat),
    decreases n,
{
    if n < 10 {
        String::from_str(digit_str(n))
    } else {
        let mut s = dec_str(n / 10);
        s.append(digit_str(n % 10));
        s
    }
}

/// Text of a number: an optional minus sign, the mantissa digits, and a
/// ten's exponent where one is needed.
pub open spec fn spec_render_number(n: JsonNumber) -> Seq<char> {
    let mant = if n.neg {
        "-"@ + dec_of(n.mantissa as nat)
    } else {
        dec_of(n.mantissa as nat)
    };
    if n.exp == 0 {
        mant
    } else if n.exp > 0 {
        mant + "e"@ + dec_of(n.exp as nat)
    } else {
        mant + "e-"@ + dec_of((-(n.exp as int)) as nat)
    }
}

/// Text naming a value in a diagnostic: scalars are written out, composite
/// values are named by their kind.
pub open spec fn spec_render(v: JsonValue) -> Seq<char> {
    match v {
        JsonValue::Null => "null"@,
        JsonValue::Bool(b) => if b {
            "true"@
        } else {
            "false"@
        },
        JsonValue::Number(n) => spec_render_number(n),
        JsonValue::Str(s) => "'"@ + s@ + "'"@,
        JsonValue::Array(_) => "(array)"@,
        JsonValue::Object(_) => "(object)"@,
    }
}

/// Renders a number as text.
pub fn render_number(n: &JsonNumber) -> (s: String)
    ensures
        s@ == spec_render_number(*n),
{
    let mut s = if n.neg {
        let mut t = String::from_str("-");
        t.append(dec_str(n.mantissa).as_str());
        t
    } else {
        dec_str(n.mantissa)
    };
    if n.exp > 0 {
        s.append("e");
        s.append(dec_str(n.exp as u64).as_str());
    } else if n.exp < 0 {
        s.append("e-");
        let mag: u64 = if n.exp == i64::MIN {
            9223372036854775808u64
        } else {
            (-n.exp) as u64
        };
        assert(mag as nat == (-(n.exp as int)) as nat);
        s.append(dec_str(mag).as_str());
    }
    s
}

/// Renders the diagnostic text naming a value.
pub fn render(v: &JsonValue) -> (s: String)
    ensures
        s@ == spec_render(*v),
{
    match v {
        JsonValue::Null => String::from_str("null"),
        JsonValue::Bool(b) => {
            if *b {
                String::from_str("true")
            } else {
                String::from_str("false")
            }
        },
        JsonValue::Number(n) => render_number(n),
        JsonValue::Str(s) => {
            let mut t = String::from_str("'");
            t.append(s.as_str());
            t.append("'");
            t
        },
        JsonValue::Array(_) => String::from_str("(array)"),
        JsonValue::Object(_) => String::from_str("(object)"),
    }
}

/// A decimal digit byte.
pub open spec fn is_digit(b: u8) -> bool {
    48 <= b <= 57
}

/// Where the run of digit bytes starting at `i` ends.
pub open spec fn digits_end(s: Seq<u8>, i: int) -> int
    decreases s.len() - i,
{
    if 0 <= i < s.len() && is_digit(s[i]) {
        digits_end(s, i + 1)
    } else {
        i
    }
}

/// The numeric value of a run of digit bytes, most significant first.
pub open spec fn digits_val(s: Seq<u8>) -> int
    decreases s.len(),
{
    if s.len() == 0 {
        0
    } else {
        digits_val(s.drop_last()) * 10 + (s.last() - 48)
    }
}

/// Whether the literal opens with a minus sign.
pub open spec fn dec_sign(s: Seq<u8>) -> bool {
    s.len() > 0 && s[0] == 45
}

/// Where the integer digits start.
pub open spec fn dec_int_start(s: Seq<u8>) -> int {
    if dec_sign(s) {
        1
    } else {
        0
    }
}

/// Where the integer digits end.
pub open spec fn dec_int_end(s: Seq<u8>) -> int {
    digits_end(s, dec_int_start(s))
}

/// Whether a fraction part follows the integer digits.
pub open spec fn dec_has_frac(s: Seq<u8>) -> bool {
    dec_int_end(s) < s.len() && s[dec_int_end(s)] == 46
}

/// Where the fraction digits end.
pub open spec fn dec_frac_end(s: Seq<u8>) -> int {
    if dec_has_frac(s) {
        digits_end(s, dec_int_end(s) + 1)
    } else {
        dec_int_end(s)
    }
}

/// The significant digits of the literal: integer digits, then fraction
/// digits.
pub open spec fn dec_mant_digits(s: Seq<u8>) -> Seq<u8> {
    s.subrange(dec_int_start(s), dec_int_end(s)) + (if dec_has_frac(s) {
        s.subrange(dec_int_end(s) + 1, dec_frac_end(s))
    } else {
        Seq::empty()
    })
}

/// Whether an exponent part follows.
pub open spec fn dec_has_exp(s: Seq<u8>) -> bool {
    dec_frac_end(s) < s.len() && (s[dec_frac_end(s)] == 101 || s[dec_frac_end(s)] == 69)
}

/// Whether the exponent carries a minus sign.
pub open spec fn dec_exp_sign_neg(s: Seq<u8>) -> bool {
    dec_has_exp(s) && dec_frac_end(s) + 1 < s.len() && s[dec_frac_end(s) + 1] == 45
}

/// Where the exponent digits start.
pub open spec fn dec_exp_digits_start(s: Seq<u8>) -> int {
    if dec_has_exp(s) {
        if dec_frac_end(s) + 1 < s.len() && (s[dec_frac_end(s) + 1] == 45 || s[dec_frac_end(s) + 1]
            == 43) {
            dec_frac_end(s) + 2
        } else {
            dec_frac_end(s) + 1
        }
    } else {
        dec_frac_end(s)
    }
}

/// Where the exponent digits end.
pub open spec fn dec_exp_end(s: Seq<u8>) -> int {
    digits_end(s, dec_exp_digits_start(s))
}

/// The exponent digits.
pub open spec fn dec_exp_digits(s: Seq<u8>) -> Seq<u8> {
    s.subrange(dec_exp_digits_start(s), dec_exp_end(s))
}

/// A decimal literal the machine width admits: an optional minus sign, at
/// least one integer digit, an optional fraction and an optional exponent
/// each with at least one digit, nothing after — with at most nineteen
/// significant digits and at most eighteen exponent digits.
pub open spec fn is_decimal(s: Seq<u8>) -> bool {
    &&& dec_int_end(s) > dec_int_start(s)
    &&& (dec_has_frac(s) ==> dec_frac_end(s) > dec_int_end(s) + 1)
    &&& (dec_has_exp(s) ==> dec_exp_end(s) > dec_exp_digits_start(s))
    &&& (if dec_has_exp(s) {
        dec_exp_end(s)
    } else {
        dec_frac_end(s)
    }) == s.len()
    &&& dec_mant_digits(s).len() <= 19
    &&& dec_exp_digits(s).len() <= 18
}

/// The ten's exponent the literal denotes: the written exponent, less one
/// for each fraction digit.
pub open spec fn dec_exp_value(s: Seq<u8>) -> int {
    (if dec_has_exp(s) {
        if dec_exp_sign_neg(s) {
            -digits_val(dec_exp_digits(s))
        } else {
            digits_val(dec_exp_digits(s))
        }
    } else {
        0
    }) - (if dec_has_frac(s) {
        dec_frac_end(s) - (dec_int_end(s) + 1)
    } else {
        0
    })
}

/// A digit run's value is non-negative and below ten to its length.
proof fn lemma_digits_val_bound(s: Seq<u8>)
    requires
        forall|k: int| 0 <= k < s.len() ==> is_digit(#[trigger] s[k]),
    ensures
        0 <= digits_val(s),
        digits_val(s) < vstd::arithmetic::power::pow(10, s.len()),
    decreases s.len(),
{
    vstd::arithmetic::power::lemma_pow0(10);
    if s.len() != 0 {
        let head = s.drop_last();
        assert(forall|k: int| 0 <= k < head.len() ==> is_digit(#[trigger] head[k]));
        lemma_digits_val_bound(head);
        assert(vstd::arithmetic::power::pow(10, s.len()) == 10 * vstd::arithmetic::power::pow(
            10,
            head.len(),
        )) by {
            vstd::arithmetic::power::lemma_pow_adds(10, head.len(), 1);
            vstd::arithmetic::power::lemma_pow1(10);
        }
    }
}

/// Scans to the end of the digit run starting at `i`.
fn digit_run_end(s: &Vec<u8>, i: usize) -> (r: usize)
    requires
        i <= s@.len(),
    ensures
        r as int == digits_end(s@, i as int),
        i <= r <= s@.len(),
        forall|k: int| i <= k < r ==> is_digit(#[trigger] s@[k]),
{
    let mut j = i;
    while j < s.len() && 48 <= s[j] && s[j] <= 57
        invariant
            i <= j <= s@.len(),
            digits_end(s@, i as int) == digits_end(s@, j as int),
            forall|k: int| i <= k < j ==> is_digit(#[trigger] s@[k]),
        decreases s@.len() - j,
    {
        j += 1;
    }
    j
}

/// Reads the digits in `s[a..b)` onto an already-read prefix of digits.
fn digits_accum(s: &Vec<u8>, a: usize, b: usize, init: u64, Ghost(prefix): Ghost<Seq<u8>>) -> (r:
    u64)
    requires
        a <= b <= s@.len(),
        forall|k: int| a <= k < b ==> is_digit(#[trigger] s@[k]),
        forall|k: int| 0 <= k < prefix.len() ==> is_digit(#[trigger] prefix[k]),
        init as int == digits_val(prefix),
        prefix.len() + (b - a) <= 19,
    ensures
        r as int == digits_val(prefix + s@.subrange(a as int, b as int)),
{
    let mut acc = init;
    let mut j = a;
    proof {
        assert(prefix + s@.subrange(a as int, a as int) =~= prefix);
        lemma_digits_val_bound(prefix);
    }
    while j < b
        invariant
            a <= j <= b,
            b <= s@.len(),
            prefix.len() + (b - a) <= 19,
            forall|k: int| a <= k < b ==> is_digit(#[trigger] s@[k]),
            forall|k: int| 0 <= k < prefix.len() ==> is_digit(#[trigger] prefix[k]),
            acc as int == digits_val(prefix + s@.subrange(a as int, j as int)),
            (acc as int) < vstd::arithmetic::power::pow(10, (prefix.len() + j - a) as nat),
        decreases b - j,
    {
        proof {
            let cur = prefix + s@.subrange(a as int, j as int);
            let next = prefix + s@.subrange(a as int, (j + 1) as int);
            assert(next.drop_last() =~= cur);
            assert(next.last() == s@[j as int]);
            let w = (prefix.len() + j - a) as nat;
            assert(vstd::arithmetic::power::pow(10, (w + 1) as nat) == 10
                * vstd::arithmetic::power::pow(10, w)) by {
                vstd::arithmetic::power::lemma_pow_adds(10, w, 1);
                vstd::arithmetic::power::lemma_pow1(10);
            }
            if w + 1 < 19 {
                vstd::arithmetic::power::lemma_pow_strictly_increases(10, (w + 1) as nat, 19);
            }
            JsonNumber::lemma_pow10_consts();
        }
        acc = acc * 10 + (s[j] - 48) as u64;
        j += 1;
    }
    acc
}

/// Reads a decimal literal — an optional minus sign, digits, an optional
/// fraction, an optional exponent — into the canonical number it denotes.
/// Nothing is returned where the bytes are not such a literal, or where
/// its digits exceed what the machine width holds.
#[verifier::rlimit(60)]
pub fn parse_decimal(s: &Vec<u8>) -> (r: Option<JsonNumber>)
    ensures
        r is Some <==> is_decimal(s@),
        r matches Some(n) ==> n == JsonNumber::spec_canonicalize(
            dec_sign(s@),
            digits_val(dec_mant_digits(s@)) as u64,
            dec_exp_value(s@),
        ),
        r matches Some(n) ==> n.is_canonical(),
{
    let len = s.len();
    let neg = len > 0 && s[0] == 45;
    let int_start: usize = if neg {
        1
    } else {
        0
    };
    let int_end = digit_run_end(s, int_start);
    if int_end == int_start {
        return None;
    }
    let has_frac = int_end < len && s[int_end] == 46;
    let frac_end = if has_frac {
        digit_run_end(s, int_end + 1)
    } else {
        int_end
    };
    if has_frac && frac_end == int_end + 1 {
        return None;
    }
    let has_exp = frac_end < len && (s[frac_end] == 101 || s[frac_end] == 69);
    let exp_digits_start: usize = if has_exp {
        if frac_end + 1 < len && (s[frac_end + 1] == 45 || s[frac_end + 1] == 43) {
            frac_end + 2
        } else {
            frac_end + 1
        }
    } else {
        frac_end
    };
    let exp_end = if has_exp {
        digit_run_end(s, exp_digits_start)
    } else {
        frac_end
    };
    if has_exp && exp_end == exp_digits_start {
        return None;
    }
    if exp_end != len {
        return None;
    }
    let mant_len = (int_end - int_start) + (if has_frac {
        frac_end - (int_end + 1)
    } else {
        0
    });
    if mant_len > 19 {
        return None;
    }
    if has_exp && exp_end - exp_digits_start > 18 {
        return None;
    }
    proof {
        assert(dec_mant_digits(s@).len() == mant_len);
        assert(is_decimal(s@));
    }
    let int_part = digits_accum(s, int_start, int_end, 0, Ghost(Seq::empty()));
    proof {
        assert(Seq::<u8>::empty() + s@.subrange(int_start as int, int_end as int) =~= s@.subrange(
            int_start as int,
            int_end as int,
        ));
    }
    let mantissa = if has_frac {
        digits_accum(
            s,
            int_end + 1,
            frac_end,
            int_part,
            Ghost(s@.subrange(int_start as int, int_end as int)),
        )
    } else {
        int_part
    };
    proof {
        assert(mantissa as int == digits_val(dec_mant_digits(s@)));
    }
    let exp_mag: u64 = if has_exp {
        digits_accum(s, exp_digits_start, exp_end, 0, Ghost(Seq::empty()))
    } else {
        0
    };
    proof {
        if has_exp {
            assert(Seq::<u8>::empty() + s@.subrange(exp_digits_start as int, exp_end as int)
                =~= dec_exp_digits(s@));
            assert forall|k: int| 0 <= k < dec_exp_digits(s@).len() implies is_digit(
                #[trigger] dec_exp_digits(s@)[k],
            ) by {
                assert(dec_exp_digits(s@)[k] == s@[dec_exp_digits_start(s@) + k]);
            }
        } else {
            assert(dec_exp_digits(s@) =~= Seq::<u8>::empty());
        }
        assert(exp_mag as int == digits_val(dec_exp_digits(s@)));
        lemma_digits_val_bound(dec_exp_digits(s@));
        JsonNumber::lemma_pow10_consts();
        if dec_exp_digits(s@).len() < 18 {
            vstd::arithmetic::power::lemma_pow_strictly_increases(
                10,
                dec_exp_digits(s@).len(),
                18,
            );
        }
        assert((exp_mag as int) <= 1000000000000000000);
    }
    let exp_neg = has_exp && frac_end + 1 < len && s[frac_end + 1] == 45;
    let written_exp: i64 = if exp_neg {
        -(exp_mag as i64)
    } else {
        exp_mag as i64
    };
    let frac_len: i64 = if has_frac {
        (frac_end - (int_end + 1)) as i64
    } else {
        0
    };
    let exp: i64 = written_exp - frac_len;
    Some(JsonNumber::new(neg, mantissa, exp))
}

} // verus!
