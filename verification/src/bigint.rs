//! The signed arbitrary-precision integer: a base-10 magnitude stored
//! least-significant digit first together with a sign, kept in canonical
//! form by the public operations.

use vstd::prelude::*;
use vstd::arithmetic::power::{pow, lemma_pow_positive, lemma_pow_increases};
use crate::digits::{
    all_digits, seq_value, trimmed, is_canonical_seq, pow10, remove_trailing_zeros, pad_to, add_mag,
    sub_mag, cmp_mag_lt, mul_mag, lemma_value_snoc, lemma_value_bounds, lemma_value_ms_digit,
    lemma_trimmed_value, lemma_trimmed_shape, lemma_canonical_unique, lemma_trim_eq_iff_value_eq,
    lemma_pow10_step,
};

verus! {

/// The polarity of a value; zero is canonically `Positive`.
#[derive(Clone, Copy, Debug, PartialEq, Eq, Structural)]
pub enum Sign {
    Positive,
    Negative,
}

/// A signed integer of unbounded width: `sign * (digits[0] + digits[1]*10 + ...)`.
#[derive(Debug)]
pub struct BigInteger {
    digits: Vec<u8>,
    sign: Sign,
}

impl BigInteger {
    /// The stored digit sequence, least significant first.
    pub closed spec fn spec_digits(&self) -> Seq<u8> {
        self.digits@
    }

    /// The stored sign.
    pub closed spec fn spec_sign(&self) -> Sign {
        self.sign
    }

    /// The magnitude this value denotes.
    pub open spec fn abs_value(&self) -> int {
        seq_value(self.spec_digits())
    }

    /// The integer this value denotes.
    pub open spec fn as_int(&self) -> int {
        if self.spec_sign() == Sign::Negative {
            -self.abs_value()
        } else {
            self.abs_value()
        }
    }

    /// Basic validity: a nonempty sequence of single decimal digits.
    pub open spec fn valid(&self) -> bool {
        all_digits(self.spec_digits()) && self.spec_digits().len() >= 1
    }

    /// Canonical form: valid, no superfluous most-significant zeros, and
    /// zero carries the positive sign.
    pub open spec fn well_formed(&self) -> bool {
        &&& is_canonical_seq(self.spec_digits())
        &&& (self.abs_value() == 0 ==> self.spec_sign() == Sign::Positive)
    }

    /// What `==` means: the digit sequences agree once trailing zeros are
    /// ignored, and the signs agree unless the magnitude is zero.
    pub open spec fn spec_eq(&self, other: &BigInteger) -> bool {
        &&& trimmed(self.spec_digits()) == trimmed(other.spec_digits())
        &&& (self.spec_sign() == other.spec_sign() || trimmed(self.spec_digits()).len() == 0)
    }

    /// Wrap a digit sequence and a sign as they are given.
    pub fn new(digits: Vec<u8>, sign: Sign) -> (r: BigInteger)
        ensures
            r.spec_digits() == digits@,
            r.spec_sign() == sign,
    {
        BigInteger { digits, sign }
    }

    /// The canonical zero.
    pub fn zero() -> (r: BigInteger)
        ensures
            r.well_formed(),
            r.as_int() == 0,
    {
        let digits = vec![0u8];
        proof {
            assert(digits@ =~= seq![0u8]);
            assert(seq![0u8].skip(1) =~= Seq::<u8>::empty());
            assert(seq_value(Seq::<u8>::empty()) == 0);
            assert(seq_value(seq![0u8]) == 0);
            assert(seq_value(digits@) == 0);
        }
        let r = BigInteger { digits, sign: Sign::Positive };
        proof {
            assert(r.abs_value() == 0);
            assert(r.spec_sign() == Sign::Positive);
            assert(r.as_int() == 0);
        }
        r
    }

    /// The canonical one.
    pub fn one() -> (r: BigInteger)
        ensures
            r.well_formed(),
            r.as_int() == 1,
    {
        let digits = vec![1u8];
        proof {
            assert(digits@ =~= seq![1u8]);
            assert(seq![1u8].skip(1) =~= Seq::<u8>::empty());
            assert(seq_value(Seq::<u8>::empty()) == 0);
            assert(seq_value(digits@) == 1);
        }
        let r = BigInteger { digits, sign: Sign::Positive };
        proof {
            assert(r.abs_value() == 1);
            assert(r.as_int() == 1);
        }
        r
    }

    /// Normalize to canonical form: drop trailing zero digits, keep at
    /// least one digit, and give a zero magnitude the positive sign.
    /// An already-canonical value comes back identical.
    pub fn optimize_digits(self) -> (r: Self)
        requires
            all_digits(self.spec_digits()),
        ensures
            r.well_formed(),
            r.as_int() == self.as_int(),
            self.well_formed() ==> r.spec_digits() == self.spec_digits() && r.spec_sign()
                == self.spec_sign(),
    {
        let ghost orig = self;
        let BigInteger { digits, sign } = self;
        let ghost dv = digits@;
        let mut d = remove_trailing_zeros(digits);
        proof {
            lemma_trimmed_value(dv);
            lemma_trimmed_shape(dv);
        }
        if d.len() == 0 {
            d.push(0);
            proof {
                assert(d@ =~= seq![0u8]);
                assert(d@.skip(1) =~= Seq::<u8>::empty());
                assert(seq_value(Seq::<u8>::empty()) == 0);
                assert(seq_value(d@) == 0);
            }
        }
        let is_zero = d.len() == 1 && d[0] == 0;
        proof {
            if !is_zero && seq_value(d@) == 0 {
                // a nonzero-looking canonical sequence denotes a nonzero value
                if d@.len() == 1 {
                    assert(d@[0] != 0);
                    assert(seq_value(d@) == d@[0] + 10 * seq_value(d@.skip(1)));
                    assert(d@.skip(1) =~= Seq::<u8>::empty());
                } else {
                    assert(d@[d@.len() - 1] != 0);
                    lemma_value_ms_digit(d@);
                    lemma_pow_positive(10, (d@.len() - 1) as nat);
                }
                assert(false);
            }
        }
        let s = if is_zero {
            Sign::Positive
        } else {
            sign
        };
        let r = BigInteger { digits: d, sign: s };
        proof {
            assert(seq_value(d@) == seq_value(dv));
            assert(r.abs_value() == orig.abs_value());
            if is_zero {
                assert(seq_value(d@) == d@[0] + 10 * seq_value(d@.skip(1)));
                assert(d@.skip(1) =~= Seq::<u8>::empty());
                assert(seq_value(Seq::<u8>::empty()) == 0);
                assert(r.abs_value() == 0);
                assert(r.as_int() == 0 && orig.as_int() == 0);
            } else {
                assert(r.spec_sign() == orig.spec_sign());
                assert(r.as_int() == orig.as_int());
            }
            if orig.well_formed() {
                if seq_value(dv) == 0 {
                    // canonical zero is the single digit 0, which trims to
                    // empty and is rebuilt unchanged
                    if dv.len() >= 2 {
                        lemma_value_ms_digit(dv);
                        lemma_pow_positive(10, (dv.len() - 1) as nat);
                    } else if dv[0] != 0 {
                        assert(seq_value(dv) == dv[0] + 10 * seq_value(dv.skip(1)));
                        assert(dv.skip(1) =~= Seq::<u8>::empty());
                        assert(seq_value(Seq::<u8>::empty()) == 0);
                    }
                    assert(dv =~= seq![0u8]);
                    assert(trimmed(dv) =~= Seq::<u8>::empty());
                    assert(d@ =~= dv);
                } else {
                    assert(dv[dv.len() - 1] != 0 || dv.len() == 1);
                    if dv.len() == 1 && dv[dv.len() - 1] == 0 {
                        assert(seq_value(dv) == dv[0] + 10 * seq_value(dv.skip(1)));
                        assert(dv.skip(1) =~= Seq::<u8>::empty());
                        assert(seq_value(Seq::<u8>::empty()) == 0);
                        assert(false);
                    }
                    assert(trimmed(dv) == dv);
                    assert(d@ == dv);
                    assert(!is_zero);
                }
                assert(r.spec_digits() == orig.spec_digits());
                assert(r.spec_sign() == orig.spec_sign());
            }
        }
        r
    }

    /// Construct from a native signed integer: record the polarity, then
    /// extract decimal digits least significant first until the magnitude
    /// is exhausted, so that internal and trailing zero digits are kept.
    pub fn new_from_int(number: i128) -> (r: BigInteger)
        requires
            number != i128::MIN,
        ensures
            r.well_formed(),
            r.as_int() == number as int,
    {
        let sign = if number < 0 {
            Sign::Negative
        } else {
            Sign::Positive
        };
        let mut m: i128 = if number < 0 {
            -number
        } else {
            number
        };
        let ghost mag = m as int;
        let mut digits: Vec<u8> = Vec::new();
        proof {
            assert(pow10(0) == 1) by {
                reveal(pow);
            }
        }
        while m > 0
            invariant
                0 <= m,
                m <= mag,
                all_digits(digits@),
                seq_value(digits@) + pow10(digits@.len()) * (m as int) == mag,
                (digits@.len() > 0 && m == 0) ==> digits@[digits@.len() - 1] != 0,
            decreases m,
        {
            let d: u8 = (m % 10) as u8;
            let ghost dv = digits@;
            let ghost m0 = m as int;
            digits.push(d);
            m = m / 10;
            proof {
                lemma_value_snoc(dv, d);
                lemma_pow10_step(dv.len());
                let w = pow10(dv.len());
                assert(m0 == 10 * (m as int) + d);
                assert(w * m0 == (10 * w) * (m as int) + d * w) by (nonlinear_arith)
                    requires
                        m0 == 10 * (m as int) + d,
                ;
                assert(seq_value(digits@) + pow10(dv.len() + 1) * (m as int) == seq_value(dv) + d
                    * w + (10 * w) * (m as int));
                assert(seq_value(digits@) + pow10(dv.len() + 1) * (m as int) == mag);
                if m == 0 {
                    assert(m0 <= 9);
                    assert(d == m0);
                    assert(digits@[digits@.len() - 1] == d);
                }
            }
        }
        if digits.len() == 0 {
            digits.push(0);
            proof {
                assert(digits@ =~= seq![0u8]);
                assert(digits@.skip(1) =~= Seq::<u8>::empty());
                assert(seq_value(Seq::<u8>::empty()) == 0);
                assert(seq_value(digits@) == 0);
            }
        }
        let r = BigInteger { digits, sign };
        proof {
            assert(r.abs_value() == mag);
            if mag == 0 {
                assert(number == 0);
                assert(r.spec_sign() == Sign::Positive);
                assert(r.as_int() == 0);
            } else {
                assert(r.spec_digits().len() > 0);
                if number < 0 {
                    assert(r.as_int() == -mag);
                    assert(r.as_int() == number as int);
                }
            }
        }
        r
    }

    /// Addition over sign-magnitude pairs: magnitudes add when the signs
    /// agree and the common sign carries through; with opposite signs the
    /// smaller magnitude is subtracted from the larger, which donates its
    /// operand's sign. The result is canonical.
    pub fn add(self, other: BigInteger) -> (r: BigInteger)
        requires
            self.valid(),
            other.valid(),
        ensures
            r.well_formed(),
            r.as_int() == self.as_int() + other.as_int(),
    {
        let ghost ga = self;
        let ghost gb = other;
        let BigInteger { digits: d1, sign: s1 } = self;
        let BigInteger { digits: d2, sign: s2 } = other;
        let inter: BigInteger;
        if s1 == s2 {
            let mag = add_mag(&d1, &d2);
            inter = BigInteger { digits: mag, sign: s1 };
            proof {
                assert(inter.abs_value() == ga.abs_value() + gb.abs_value());
                assert(inter.as_int() == ga.as_int() + gb.as_int());
            }
        } else {
            let n = if d1.len() > d2.len() {
                d1.len()
            } else {
                d2.len()
            };
            let p1 = pad_to(d1, n);
            let p2 = pad_to(d2, n);
            if cmp_mag_lt(&p1, &p2) {
                let mag = sub_mag(&p2, &p1);
                inter = BigInteger { digits: mag, sign: s2 };
            } else {
                let mag = sub_mag(&p1, &p2);
                inter = BigInteger { digits: mag, sign: s1 };
            }
            proof {
                assert(inter.as_int() == ga.as_int() + gb.as_int());
            }
        }
        inter.optimize_digits()
    }

    /// Subtraction: adding the operand with its sign reversed.
    pub fn sub(self, other: BigInteger) -> (r: BigInteger)
        requires
            self.valid(),
            other.valid(),
        ensures
            r.well_formed(),
            r.as_int() == self.as_int() - other.as_int(),
    {
        let ghost gb = other;
        let BigInteger { digits: d2, sign: s2 } = other;
        let flipped_sign = match s2 {
            Sign::Positive => Sign::Negative,
            Sign::Negative => Sign::Positive,
        };
        let flipped = BigInteger { digits: d2, sign: flipped_sign };
        proof {
            assert(flipped.as_int() == -gb.as_int());
        }
        self.add(flipped)
    }

    /// Schoolbook multiplication of the magnitudes; the product is
    /// positive when the operand signs agree and negative otherwise,
    /// with a zero product canonicalized to positive.
    pub fn mul(self, other: BigInteger) -> (r: BigInteger)
        requires
            self.valid(),
            other.valid(),
        ensures
            r.well_formed(),
            r.as_int() == self.as_int() * other.as_int(),
    {
        let ghost ga = self;
        let ghost gb = other;
        let s = if self.sign == other.sign {
            Sign::Positive
        } else {
            Sign::Negative
        };
        let mag = mul_mag(&self.digits, &other.digits);
        let inter = BigInteger { digits: mag, sign: s };
        proof {
            let va = ga.abs_value();
            let vb = gb.abs_value();
            assert(inter.abs_value() == va * vb);
            if ga.spec_sign() == gb.spec_sign() {
                if ga.spec_sign() == Sign::Negative {
                    assert((-va) * (-vb) == va * vb) by (nonlinear_arith);
                }
            } else {
                if ga.spec_sign() == Sign::Negative {
                    assert((-va) * vb == -(va * vb)) by (nonlinear_arith);
                } else {
                    assert(va * (-vb) == -(va * vb)) by (nonlinear_arith);
                }
            }
            assert(inter.as_int() == ga.as_int() * gb.as_int());
        }
        inter.optimize_digits()
    }
}

/// The printable character of a single decimal digit.
pub open spec fn digit_char(d: int) -> char {
    ((48 + d) as u8) as char
}

/// The decimal rendering of a nonnegative integer, most significant
/// digit first, with no superfluous leading zeros.
pub open spec fn dec_digits(n: nat) -> Seq<char>
    decreases n,
{
    if n < 10 {
        seq![digit_char(n as int)]
    } else {
        dec_digits(n / 10).push(digit_char((n % 10) as int))
    }
}

/// The decimal rendering of an integer: a `-` before the magnitude of a
/// negative value, the magnitude's digits alone otherwise.
pub open spec fn spec_decimal(v: int) -> Seq<char> {
    if v < 0 {
        seq!['-'] + dec_digits((-v) as nat)
    } else {
        dec_digits(v as nat)
    }
}

/// The characters of a stored digit sequence, reversed into
/// most-significant-first reading order.
pub open spec fn render_digits(s: Seq<u8>) -> Seq<char> {
    Seq::new(s.len(), |i: int| digit_char(s[s.len() - 1 - i] as int))
}

/// A canonical digit sequence renders to exactly the decimal digits of
/// the value it denotes.
pub proof fn lemma_render_canonical(s: Seq<u8>)
    requires
        is_canonical_seq(s),
    ensures
        dec_digits(seq_value(s) as nat) == render_digits(s),
    decreases s.len(),
{
    lemma_value_bounds(s);
    let v = seq_value(s);
    if s.len() == 1 {
        assert(seq_value(s) == s[0] + 10 * seq_value(s.skip(1)));
        assert(s.skip(1) =~= Seq::<u8>::empty());
        assert(seq_value(Seq::<u8>::empty()) == 0);
        assert(v == s[0]);
        assert(v < 10);
        assert(render_digits(s) =~= seq![digit_char(s[0] as int)]);
    } else {
        let t = s.skip(1);
        assert(t[t.len() - 1] == s[s.len() - 1]);
        assert(is_canonical_seq(t));
        lemma_value_ms_digit(s);
        assert(pow10((s.len() - 1) as nat) >= pow10(1nat)) by {
            lemma_pow_increases(10, 1nat, (s.len() - 1) as nat);
        }
        assert(pow10(1nat) == 10) by {
            reveal_with_fuel(pow, 2);
        }
        assert(v >= 10);
        assert(v == s[0] + 10 * seq_value(t));
        lemma_value_bounds(t);
        vstd::arithmetic::div_mod::lemma_fundamental_div_mod_converse(
            v,
            10,
            seq_value(t),
            s[0] as int,
        );
        assert(v / 10 == seq_value(t));
        assert(v % 10 == s[0]);
        lemma_render_canonical(t);
        assert(dec_digits(v as nat) == dec_digits(seq_value(t) as nat).push(
            digit_char(s[0] as int),
        ));
        assert(render_digits(s) =~= render_digits(t).push(digit_char(s[0] as int))) by {
            assert forall|i: int| 0 <= i < s.len() - 1 implies render_digits(s)[i]
                == render_digits(t)[i] by {
                assert(s[s.len() - 1 - i] == t[t.len() - 1 - i]);
            }
            assert(render_digits(s)[s.len() - 1] == digit_char(s[0] as int));
        }
    }
}

/// Relies on String::push: it appends the given character to the end of
/// the string.
#[verifier::external_body]
fn push_char(s: &mut String, c: char)
    ensures
        final(s)@ == old(s)@.push(c),
{
    s.push(c);
}

impl BigInteger {
    /// The decimal string of this value: an empty or `-` sign token,
    /// then the digits in most-significant-first order.
    pub fn to_decimal_string(&self) -> (r: String)
        requires
            self.well_formed(),
        ensures
            r@ == spec_decimal(self.as_int()),
    {
        let mut out = String::new();
        let neg = match self.sign {
            Sign::Negative => true,
            Sign::Positive => false,
        };
        if neg {
            push_char(&mut out, '-');
            proof {
                assert(out@ =~= seq!['-']);
            }
        }
        let ghost prefix = out@;
        let ghost s = self.spec_digits();
        let n = self.digits.len();
        let mut j: usize = 0;
        proof {
            assert(out@ =~= prefix + render_digits(s).take(0));
        }
        while j < n
            invariant
                j <= n,
                n == self.digits@.len(),
                all_digits(self.digits@),
                s == self.digits@,
                out@ == prefix + render_digits(s).take(j as int),
            decreases n - j,
        {
            let d = self.digits[n - 1 - j];
            let ghost before = out@;
            push_char(&mut out, (d + 48) as char);
            proof {
                assert(d <= 9);
                assert(render_digits(s)[j as int] == digit_char(d as int));
                assert(out@ =~= prefix + render_digits(s).take(j + 1));
            }
            j = j + 1;
        }
        proof {
            assert(render_digits(s).take(n as int) =~= render_digits(s));
            lemma_render_canonical(s);
            lemma_value_bounds(s);
            if neg {
                if self.abs_value() == 0 {
                    assert(self.spec_sign() == Sign::Positive);
                    assert(false);
                }
                assert(self.as_int() < 0);
                assert((-self.as_int()) as nat == self.abs_value() as nat);
                assert(out@ == seq!['-'] + dec_digits(self.abs_value() as nat));
            } else {
                assert(self.as_int() >= 0);
                assert(prefix =~= Seq::<char>::empty());
                assert(out@ == prefix + render_digits(s));
                assert(prefix + render_digits(s) =~= render_digits(s));
            }
        }
        out
    }
}

impl PartialEq for BigInteger {
    /// Two values are equal when their digit sequences agree once
    /// trailing zeros are ignored, and the signs agree unless the
    /// magnitude is zero.
    fn eq(&self, other: &Self) -> (r: bool) {
        let n1 = crate::digits::trimmed_len(&self.digits);
        let n2 = crate::digits::trimmed_len(&other.digits);
        if n1 != n2 {
            proof {
                assert(trimmed(self.spec_digits()).len() != trimmed(other.spec_digits()).len());
            }
            return false;
        }
        let mut i: usize = 0;
        while i < n1
            invariant
                i <= n1,
                n1 == n2,
                n1 <= self.digits@.len(),
                n1 <= other.digits@.len(),
                trimmed(self.spec_digits()) == self.digits@.take(n1 as int),
                trimmed(other.spec_digits()) == other.digits@.take(n2 as int),
                forall|k: int| 0 <= k < i ==> self.digits@[k] == other.digits@[k],
            decreases n1 - i,
        {
            if self.digits[i] != other.digits[i] {
                proof {
                    assert(trimmed(self.spec_digits())[i as int] != trimmed(
                        other.spec_digits(),
                    )[i as int]);
                }
                return false;
            }
            i = i + 1;
        }
        proof {
            assert(self.digits@.take(n1 as int) =~= other.digits@.take(n2 as int));
        }
        if n1 == 0 {
            true
        } else {
            let same_sign = match (self.sign, other.sign) {
                (Sign::Positive, Sign::Positive) => true,
                (Sign::Negative, Sign::Negative) => true,
                _ => false,
            };
            same_sign
        }
    }
}

impl vstd::std_specs::cmp::PartialEqSpecImpl for BigInteger {
    open spec fn obeys_eq_spec() -> bool {
        true
    }

    open spec fn eq_spec(&self, other: &BigInteger) -> bool {
        self.spec_eq(other)
    }
}

/// Equality agrees with the denoted integer: two valid values compare
/// equal exactly when they denote the same integer. With the exact
/// contracts of `new_from_int`, `add`, `sub` and `mul`, this is what
/// makes those operators agree with native integer arithmetic.
pub proof fn lemma_eq_agrees_with_value(a: &BigInteger, b: &BigInteger)
    requires
        a.valid(),
        b.valid(),
    ensures
        a.spec_eq(b) <==> a.as_int() == b.as_int(),
{
    let da = a.spec_digits();
    let db = b.spec_digits();
    lemma_trim_eq_iff_value_eq(da, db);
    lemma_trimmed_value(da);
    lemma_trimmed_value(db);
    lemma_trimmed_shape(da);
    lemma_trimmed_shape(db);
    lemma_value_bounds(da);
    lemma_value_bounds(db);
    if trimmed(da).len() > 0 {
        lemma_value_ms_digit(trimmed(da));
        lemma_pow_positive(10, (trimmed(da).len() - 1) as nat);
    }
    if trimmed(db).len() > 0 {
        lemma_value_ms_digit(trimmed(db));
        lemma_pow_positive(10, (trimmed(db).len() - 1) as nat);
    }
}

/// Addition agrees with native arithmetic: when `x` and `y` denote the
/// integers `a` and `b`, any result of adding them compares equal to
/// any value constructed to denote `a + b`.
pub proof fn lemma_add_matches_native(
    a: int,
    b: int,
    x: &BigInteger,
    y: &BigInteger,
    sum: &BigInteger,
    c: &BigInteger,
)
    requires
        x.valid(),
        y.valid(),
        sum.valid(),
        c.valid(),
        x.as_int() == a,
        y.as_int() == b,
        sum.as_int() == x.as_int() + y.as_int(),
        c.as_int() == a + b,
    ensures
        sum.spec_eq(c),
{
    lemma_eq_agrees_with_value(sum, c);
}

/// Subtraction agrees with native arithmetic in the same way.
pub proof fn lemma_sub_matches_native(
    a: int,
    b: int,
    x: &BigInteger,
    y: &BigInteger,
    diff: &BigInteger,
    c: &BigInteger,
)
    requires
        x.valid(),
        y.valid(),
        diff.valid(),
        c.valid(),
        x.as_int() == a,
        y.as_int() == b,
        diff.as_int() == x.as_int() - y.as_int(),
        c.as_int() == a - b,
    ensures
        diff.spec_eq(c),
{
    lemma_eq_agrees_with_value(diff, c);
}

/// Multiplication agrees with native arithmetic in the same way.
pub proof fn lemma_mul_matches_native(
    a: int,
    b: int,
    x: &BigInteger,
    y: &BigInteger,
    product: &BigInteger,
    c: &BigInteger,
)
    requires
        x.valid(),
        y.valid(),
        product.valid(),
        c.valid(),
        x.as_int() == a,
        y.as_int() == b,
        product.as_int() == x.as_int() * y.as_int(),
        c.as_int() == a * b,
    ensures
        product.spec_eq(c),
{
    lemma_eq_agrees_with_value(product, c);
}

/// Canonical representations are unique: two well-formed values that
/// denote the same integer are identical in digits and sign.
pub proof fn lemma_well_formed_unique(a: &BigInteger, b: &BigInteger)
    requires
        a.well_formed(),
        b.well_formed(),
        a.as_int() == b.as_int(),
    ensures
        a.spec_digits() == b.spec_digits(),
        a.spec_sign() == b.spec_sign(),
{
    let da = a.spec_digits();
    let db = b.spec_digits();
    lemma_value_bounds(da);
    lemma_value_bounds(db);
    assert(a.abs_value() == b.abs_value());
    lemma_canonical_unique(da, db);
}

/// Adding a zero value changes nothing: any well-formed result whose
/// integer is `x + 0` is identical to well-formed `x`.
pub proof fn lemma_add_zero_identity(x: &BigInteger, z: &BigInteger, r: &BigInteger)
    requires
        x.well_formed(),
        z.as_int() == 0,
        r.well_formed(),
        r.as_int() == x.as_int() + z.as_int(),
    ensures
        r.spec_digits() == x.spec_digits(),
        r.spec_sign() == x.spec_sign(),
        r.spec_eq(x),
{
    lemma_well_formed_unique(r, x);
    lemma_eq_agrees_with_value(r, x);
}

/// Multiplying by a zero value yields zero: any well-formed result
/// whose integer is `x * 0` is identical to the canonical zero.
pub proof fn lemma_mul_zero(x: &BigInteger, z: &BigInteger, r: &BigInteger)
    requires
        x.valid(),
        z.well_formed(),
        z.as_int() == 0,
        r.well_formed(),
        r.as_int() == x.as_int() * z.as_int(),
    ensures
        r.spec_digits() == z.spec_digits(),
        r.spec_sign() == z.spec_sign(),
        r.spec_eq(z),
{
    vstd::arithmetic::mul::lemma_mul_basics(x.as_int());
    assert(r.as_int() == 0);
    lemma_well_formed_unique(r, z);
    lemma_eq_agrees_with_value(r, z);
}

/// Addition is commutative: the well-formed results of `a + b` and of
/// `b + a` are identical.
pub proof fn lemma_add_commutes(a: &BigInteger, b: &BigInteger, r1: &BigInteger, r2: &BigInteger)
    requires
        r1.well_formed(),
        r2.well_formed(),
        r1.as_int() == a.as_int() + b.as_int(),
        r2.as_int() == b.as_int() + a.as_int(),
    ensures
        r1.spec_digits() == r2.spec_digits(),
        r1.spec_sign() == r2.spec_sign(),
        r1.spec_eq(r2),
{
    lemma_well_formed_unique(r1, r2);
    lemma_eq_agrees_with_value(r1, r2);
}

/// Multiplication is commutative: the well-formed results of `a * b`
/// and of `b * a` are identical.
pub proof fn lemma_mul_commutes(a: &BigInteger, b: &BigInteger, r1: &BigInteger, r2: &BigInteger)
    requires
        r1.well_formed(),
        r2.well_formed(),
        r1.as_int() == a.as_int() * b.as_int(),
        r2.as_int() == b.as_int() * a.as_int(),
    ensures
        r1.spec_digits() == r2.spec_digits(),
        r1.spec_sign() == r2.spec_sign(),
        r1.spec_eq(r2),
{
    vstd::arithmetic::mul::lemma_mul_is_commutative(a.as_int(), b.as_int());
    lemma_well_formed_unique(r1, r2);
    lemma_eq_agrees_with_value(r1, r2);
}

} // verus!
