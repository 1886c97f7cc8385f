//! The digit-sequence layer: base-10 magnitudes stored least-significant
//! digit first, the value they denote, trimming of superfluous
//! most-significant zeros, and the carry/borrow algorithms on raw
//! magnitudes that the signed operations are built from.

use vstd::prelude::*;
use vstd::arithmetic::power::{pow, lemma_pow_adds, lemma_pow_positive};

verus! {

/// `10^e`, the weight of the digit at position `e`.
pub open spec fn pow10(e: nat) -> int {
    pow(10, e)
}

/// Is every element of `s` a single decimal digit?
pub open spec fn all_digits(s: Seq<u8>) -> bool {
    forall|i: int| 0 <= i < s.len() ==> #[trigger] s[i] <= 9
}

/// The magnitude denoted by a least-significant-first digit sequence:
/// `s[0] + s[1]*10 + s[2]*100 + ...`.
pub open spec fn seq_value(s: Seq<u8>) -> int
    decreases s.len(),
{
    if s.len() == 0 {
        0
    } else {
        s[0] + 10 * seq_value(s.skip(1))
    }
}

/// `s` with every trailing (most-significant) zero digit removed.
pub open spec fn trimmed(s: Seq<u8>) -> Seq<u8>
    decreases s.len(),
{
    if s.len() > 0 && s[s.len() - 1] == 0 {
        trimmed(s.drop_last())
    } else {
        s
    }
}

/// The canonical digit sequences: nonempty, all decimal digits, and no
/// trailing zero except in the single-digit representation of zero.
pub open spec fn is_canonical_seq(s: Seq<u8>) -> bool {
    &&& s.len() >= 1
    &&& all_digits(s)
    &&& (s.len() == 1 || s[s.len() - 1] != 0)
}

/// Appending a most-significant digit adds its weighted value.
pub proof fn lemma_value_snoc(s: Seq<u8>, d: u8)
    ensures
        seq_value(s.push(d)) == seq_value(s) + d * pow10(s.len()),
    decreases s.len(),
{
    if s.len() == 0 {
        assert(s.push(d) =~= seq![d]);
        assert(seq_value(seq![d].skip(1)) == 0) by {
            assert(seq![d].skip(1) =~= Seq::<u8>::empty());
        }
        assert(pow10(0) == 1) by {
            reveal(pow);
        }
    } else {
        assert(s.push(d).skip(1) =~= s.skip(1).push(d));
        lemma_value_snoc(s.skip(1), d);
        assert(pow10(s.len()) == 10 * pow10((s.len() - 1) as nat)) by {
            lemma_pow_adds(10, 1nat, (s.len() - 1) as nat);
            reveal(pow);
        }
        assert(seq_value(s.push(d)) == s[0] + 10 * (seq_value(s.skip(1)) + d * pow10(
            (s.len() - 1) as nat,
        )));
        assert(10 * (seq_value(s.skip(1)) + d * pow10((s.len() - 1) as nat)) == 10 * seq_value(
            s.skip(1),
        ) + d * (10 * pow10((s.len() - 1) as nat))) by (nonlinear_arith);
    }
}

/// A digit sequence denotes a nonnegative value below `10^len`.
pub proof fn lemma_value_bounds(s: Seq<u8>)
    requires
        all_digits(s),
    ensures
        0 <= seq_value(s) < pow10(s.len()),
    decreases s.len(),
{
    if s.len() == 0 {
        assert(pow10(0) == 1) by {
            reveal(pow);
        }
    } else {
        lemma_value_bounds(s.skip(1));
        assert(s[0] <= 9);
        assert(pow10(s.len()) == 10 * pow10((s.len() - 1) as nat)) by {
            lemma_pow_adds(10, 1nat, (s.len() - 1) as nat);
            reveal(pow);
        }
        assert(seq_value(s) == s[0] + 10 * seq_value(s.skip(1)));
        assert(10 * seq_value(s.skip(1)) <= 10 * (pow10((s.len() - 1) as nat) - 1))
            by (nonlinear_arith)
            requires
                seq_value(s.skip(1)) <= pow10((s.len() - 1) as nat) - 1,
        ;
    }
}

/// A sequence whose most-significant digit is nonzero denotes at least
/// the weight of that digit.
pub proof fn lemma_value_ms_digit(s: Seq<u8>)
    requires
        s.len() >= 1,
        all_digits(s),
        s[s.len() - 1] != 0,
    ensures
        seq_value(s) >= pow10((s.len() - 1) as nat),
{
    let front = s.drop_last();
    let d = s[s.len() - 1];
    assert(s =~= front.push(d));
    lemma_value_snoc(front, d);
    lemma_value_bounds(front);
    assert(d * pow10(front.len()) >= pow10(front.len())) by (nonlinear_arith)
        requires
            d >= 1,
            pow10(front.len()) > 0,
    ;
    lemma_pow_positive(10, front.len());
}

/// Trimming most-significant zeros does not change the denoted value.
pub proof fn lemma_trimmed_value(s: Seq<u8>)
    ensures
        seq_value(trimmed(s)) == seq_value(s),
    decreases s.len(),
{
    if s.len() > 0 && s[s.len() - 1] == 0 {
        lemma_trimmed_value(s.drop_last());
        assert(s =~= s.drop_last().push(s[s.len() - 1]));
        lemma_value_snoc(s.drop_last(), s[s.len() - 1]);
    }
}

/// The trimmed sequence is a prefix of its input with no trailing zero.
pub proof fn lemma_trimmed_shape(s: Seq<u8>)
    ensures
        trimmed(s).len() <= s.len(),
        trimmed(s) == s.take(trimmed(s).len() as int),
        trimmed(s).len() > 0 ==> trimmed(s)[trimmed(s).len() - 1] != 0,
        all_digits(s) ==> all_digits(trimmed(s)),
    decreases s.len(),
{
    if s.len() > 0 && s[s.len() - 1] == 0 {
        lemma_trimmed_shape(s.drop_last());
        assert(s.drop_last().take(trimmed(s).len() as int) =~= s.take(trimmed(s).len() as int));
    } else {
        assert(s.take(s.len() as int) =~= s);
    }
}

/// Splitting a sequence at `i` splits its value into the low `i` digits
/// plus the high digits weighted by `10^i`.
pub proof fn lemma_value_split(s: Seq<u8>, i: int)
    requires
        0 <= i <= s.len(),
    ensures
        seq_value(s) == seq_value(s.take(i)) + pow10(i as nat) * seq_value(s.skip(i)),
    decreases i,
{
    if i == 0 {
        assert(s.take(0) =~= Seq::<u8>::empty());
        assert(s.skip(0) =~= s);
        assert(pow10(0) == 1) by {
            reveal(pow);
        }
    } else {
        let t = s.skip(1);
        lemma_value_split(t, i - 1);
        assert(s.take(i).skip(1) =~= t.take(i - 1));
        assert(s.skip(i) =~= t.skip(i - 1));
        assert(seq_value(s.take(i)) == s[0] + 10 * seq_value(t.take(i - 1)));
        assert(pow10(i as nat) == 10 * pow10((i - 1) as nat)) by {
            lemma_pow_adds(10, 1nat, (i - 1) as nat);
            reveal(pow);
        }
        assert(seq_value(s) == s[0] + 10 * (seq_value(t.take(i - 1)) + pow10((i - 1) as nat)
            * seq_value(t.skip(i - 1))));
        assert(10 * (seq_value(t.take(i - 1)) + pow10((i - 1) as nat) * seq_value(t.skip(i - 1)))
            == 10 * seq_value(t.take(i - 1)) + (10 * pow10((i - 1) as nat)) * seq_value(
            t.skip(i - 1),
        )) by (nonlinear_arith);
    }
}

/// Two equal-length digit sequences that agree above position `j` are
/// ordered by their digits at `j` when those differ.
pub proof fn lemma_value_order_at(a: Seq<u8>, b: Seq<u8>, j: int)
    requires
        a.len() == b.len(),
        all_digits(a),
        all_digits(b),
        0 <= j < a.len(),
        a[j] < b[j],
        forall|k: int| j < k < a.len() ==> a[k] == b[k],
    ensures
        seq_value(a) < seq_value(b),
{
    lemma_value_split(a, j);
    lemma_value_split(b, j);
    assert(a.skip(j).skip(1) =~= b.skip(j).skip(1));
    assert(seq_value(a.skip(j)) == a[j] + 10 * seq_value(a.skip(j).skip(1)));
    assert(seq_value(b.skip(j)) == b[j] + 10 * seq_value(b.skip(j).skip(1)));
    lemma_value_bounds(a.take(j));
    lemma_value_bounds(b.take(j));
    assert(a.take(j).len() == j);
    assert(pow10(j as nat) * seq_value(b.skip(j)) - pow10(j as nat) * seq_value(a.skip(j))
        >= pow10(j as nat)) by (nonlinear_arith)
        requires
            seq_value(b.skip(j)) - seq_value(a.skip(j)) >= 1,
            pow10(j as nat) > 0,
    ;
    lemma_pow_positive(10, j as nat);
}

/// A canonical digit sequence is determined by the value it denotes.
pub proof fn lemma_canonical_unique(a: Seq<u8>, b: Seq<u8>)
    requires
        is_canonical_seq(a),
        is_canonical_seq(b),
        seq_value(a) == seq_value(b),
    ensures
        a == b,
    decreases a.len(),
{
    let v = seq_value(a);
    lemma_value_bounds(a);
    lemma_value_bounds(b);
    if v == 0 {
        if a.len() >= 2 {
            lemma_value_ms_digit(a);
            lemma_pow_positive(10, (a.len() - 1) as nat);
        }
        if b.len() >= 2 {
            lemma_value_ms_digit(b);
            lemma_pow_positive(10, (b.len() - 1) as nat);
        }
        assert(a =~= b);
    } else {
        // Heads agree: each is `v % 10`.
        vstd::arithmetic::div_mod::lemma_fundamental_div_mod_converse(
            v,
            10,
            seq_value(a.skip(1)),
            a[0] as int,
        );
        vstd::arithmetic::div_mod::lemma_fundamental_div_mod_converse(
            v,
            10,
            seq_value(b.skip(1)),
            b[0] as int,
        );
        assert(a[0] == b[0]);
        assert(seq_value(a.skip(1)) == seq_value(b.skip(1)));
        if a.len() == 1 && b.len() == 1 {
            assert(a =~= b);
        } else if a.len() == 1 {
            // `b` is longer, so its value reaches its top digit's weight,
            // which exceeds any single digit.
            lemma_value_ms_digit(b);
            assert(pow10((b.len() - 1) as nat) >= pow10(1nat)) by {
                if b.len() >= 3 {
                    vstd::arithmetic::power::lemma_pow_increases(10, 1nat, (b.len() - 1) as nat);
                }
            }
            assert(pow10(1nat) == 10) by {
                reveal(pow);
            }
        } else if b.len() == 1 {
            lemma_value_ms_digit(a);
            assert(pow10((a.len() - 1) as nat) >= pow10(1nat)) by {
                if a.len() >= 3 {
                    vstd::arithmetic::power::lemma_pow_increases(10, 1nat, (a.len() - 1) as nat);
                }
            }
            assert(pow10(1nat) == 10) by {
                reveal(pow);
            }
        } else {
            assert(a.skip(1)[a.skip(1).len() - 1] == a[a.len() - 1]);
            assert(b.skip(1)[b.skip(1).len() - 1] == b[b.len() - 1]);
            lemma_canonical_unique(a.skip(1), b.skip(1));
            assert(a.len() == b.len());
            assert forall|i: int| 0 <= i < a.len() implies a[i] == b[i] by {
                if i >= 1 {
                    assert(a.skip(1)[i - 1] == b.skip(1)[i - 1]);
                }
            }
            assert(a =~= b);
        }
    }
}

/// Trimmed digit sequences compare equal exactly when the values do:
/// the decimal representation without superfluous zeros is unique.
pub proof fn lemma_trim_eq_iff_value_eq(a: Seq<u8>, b: Seq<u8>)
    requires
        all_digits(a),
        all_digits(b),
    ensures
        trimmed(a) == trimmed(b) <==> seq_value(a) == seq_value(b),
{
    lemma_trimmed_value(a);
    lemma_trimmed_value(b);
    lemma_trimmed_shape(a);
    lemma_trimmed_shape(b);
    let ta = trimmed(a);
    let tb = trimmed(b);
    if seq_value(a) == seq_value(b) {
        if ta.len() == 0 {
            if tb.len() > 0 {
                lemma_value_ms_digit(tb);
                lemma_pow_positive(10, (tb.len() - 1) as nat);
            }
            assert(ta =~= tb);
        } else if tb.len() == 0 {
            lemma_value_ms_digit(ta);
            lemma_pow_positive(10, (ta.len() - 1) as nat);
        } else {
            lemma_canonical_unique(ta, tb);
        }
    }
}

/// One more digit position multiplies the weight by ten.
pub proof fn lemma_pow10_step(e: nat)
    ensures
        pow10(e + 1) == 10 * pow10(e),
{
    lemma_pow_adds(10, 1nat, e);
    reveal(pow);
    assert(pow(10, 1nat) == 10 * pow(10, 0nat));
}

/// The value of a one-digit-longer prefix grows by the new digit's weight.
pub proof fn lemma_value_take_step(s: Seq<u8>, i: int)
    requires
        0 <= i < s.len(),
    ensures
        seq_value(s.take(i + 1)) == seq_value(s.take(i)) + s[i] * pow10(i as nat),
{
    assert(s.take(i + 1) =~= s.take(i).push(s[i]));
    lemma_value_snoc(s.take(i), s[i]);
}

/// `vec` with every trailing (most-significant) zero digit removed.
pub fn remove_trailing_zeros(vec: Vec<u8>) -> (r: Vec<u8>)
    ensures
        r@ == trimmed(vec@),
{
    let mut v = vec;
    let ghost orig = v@;
    while v.len() > 0 && v[v.len() - 1] == 0
        invariant
            trimmed(v@) == trimmed(orig),
        decreases v.len(),
    {
        let ghost before = v@;
        v.pop();
        proof {
            assert(v@ =~= before.drop_last());
        }
    }
    v
}

/// The length of `v` without its trailing zeros, computed without
/// mutating `v`.
pub(crate) fn trimmed_len(v: &Vec<u8>) -> (n: usize)
    ensures
        n <= v@.len(),
        trimmed(v@) == v@.take(n as int),
        n > 0 ==> v@[n - 1] != 0,
{
    let mut n = v.len();
    proof {
        assert(v@.take(v@.len() as int) =~= v@);
    }
    while n > 0 && v[n - 1] == 0
        invariant
            n <= v@.len(),
            trimmed(v@) == trimmed(v@.take(n as int)),
        decreases n,
    {
        proof {
            assert(v@.take(n as int).drop_last() =~= v@.take(n - 1));
        }
        n = n - 1;
    }
    n
}

/// Pad a magnitude with most-significant zero digits up to length `n`
/// (an already-long-enough magnitude is returned unchanged).
pub fn pad_to(v: Vec<u8>, n: usize) -> (r: Vec<u8>)
    requires
        all_digits(v@),
    ensures
        all_digits(r@),
        seq_value(r@) == seq_value(v@),
        r@.len() == if v@.len() >= n {
            v@.len() as int
        } else {
            n as int
        },
{
    let mut v = v;
    let ghost orig = v@;
    while v.len() < n
        invariant
            all_digits(v@),
            seq_value(v@) == seq_value(orig),
            v@.len() >= orig.len(),
            v@.len() <= n || v@.len() == orig.len(),
        decreases n - v@.len(),
    {
        let ghost before = v@;
        v.push(0);
        proof {
            lemma_value_snoc(before, 0);
        }
    }
    v
}

/// Magnitude addition: elementwise digit sums with carry propagation,
/// the shorter operand taken as padded with zeros.
#[verifier::rlimit(50)]
pub fn add_mag(a: &Vec<u8>, b: &Vec<u8>) -> (r: Vec<u8>)
    requires
        all_digits(a@),
        all_digits(b@),
    ensures
        all_digits(r@),
        seq_value(r@) == seq_value(a@) + seq_value(b@),
        r@.len() >= a@.len(),
        r@.len() >= b@.len(),
{
    let n = if a.len() > b.len() {
        a.len()
    } else {
        b.len()
    };
    let mut r: Vec<u8> = Vec::new();
    let mut carry: u8 = 0;
    let mut i: usize = 0;
    proof {
        assert(pow10(0) == 1) by {
            reveal(pow);
        }
    }
    while i < n
        invariant
            i <= n,
            n >= a@.len(),
            n >= b@.len(),
            n == a@.len() || n == b@.len(),
            all_digits(a@),
            all_digits(b@),
            all_digits(r@),
            carry <= 1,
            r@.len() == i,
            seq_value(r@) + pow10(i as nat) * (carry as int) == seq_value(
                a@.take(if i <= a@.len() {
                    i as int
                } else {
                    a@.len() as int
                }),
            ) + seq_value(
                b@.take(if i <= b@.len() {
                    i as int
                } else {
                    b@.len() as int
                }),
            ),
        decreases n - i,
    {
        let da: u8 = if i < a.len() {
            a[i]
        } else {
            0
        };
        let db: u8 = if i < b.len() {
            b[i]
        } else {
            0
        };
        let s: u8 = da + db + carry;
        let d: u8 = if s >= 10 {
            s - 10
        } else {
            s
        };
        let c: u8 = if s >= 10 {
            1
        } else {
            0
        };
        let ghost rv = r@;
        let ghost ap = a@.take(if i <= a@.len() { i as int } else { a@.len() as int });
        let ghost bp = b@.take(if i <= b@.len() { i as int } else { b@.len() as int });
        r.push(d);
        proof {
            lemma_value_snoc(rv, d);
            lemma_pow10_step(i as nat);
            lemma_pow_positive(10, i as nat);
            let p = pow10(i as nat);
            let ap2 = a@.take(if i + 1 <= a@.len() { i + 1 } else { a@.len() as int });
            let bp2 = b@.take(if i + 1 <= b@.len() { i + 1 } else { b@.len() as int });
            if (i as int) < a@.len() {
                lemma_value_take_step(a@, i as int);
                assert(seq_value(ap2) == seq_value(ap) + da * p);
            } else {
                assert(ap2 =~= ap);
                assert(seq_value(ap2) == seq_value(ap) + da * p);
            }
            if (i as int) < b@.len() {
                lemma_value_take_step(b@, i as int);
                assert(seq_value(bp2) == seq_value(bp) + db * p);
            } else {
                assert(bp2 =~= bp);
                assert(seq_value(bp2) == seq_value(bp) + db * p);
            }
            assert(d + 10 * c == da + db + carry);
            assert(seq_value(r@) + pow10((i + 1) as nat) * (c as int) == seq_value(rv) + d * p + (10
                * p) * (c as int));
            assert(d * p + (10 * p) * (c as int) == (d + 10 * (c as int)) * p)
                by (nonlinear_arith);
            assert(((da + db + carry) as int) * p == da * p + db * p + p * (carry as int))
                by (nonlinear_arith);
            assert(seq_value(r@) + pow10((i + 1) as nat) * (c as int) == seq_value(rv) + p * (
            carry as int) + da * p + db * p);
            assert(seq_value(r@) + pow10((i + 1) as nat) * (c as int) == seq_value(ap2)
                + seq_value(bp2));
        }
        carry = c;
        i = i + 1;
    }
    proof {
        assert(a@.take(a@.len() as int) =~= a@);
        assert(b@.take(b@.len() as int) =~= b@);
    }
    if carry == 1 {
        let ghost rv = r@;
        r.push(1);
        proof {
            lemma_value_snoc(rv, 1);
        }
    }
    r
}

/// Is the magnitude of `a` strictly below that of `b`? Equal-length
/// sequences are compared from the most significant digit down.
pub fn cmp_mag_lt(a: &Vec<u8>, b: &Vec<u8>) -> (r: bool)
    requires
        a@.len() == b@.len(),
        all_digits(a@),
        all_digits(b@),
    ensures
        r == (seq_value(a@) < seq_value(b@)),
{
    let mut j = a.len();
    while j > 0
        invariant
            j <= a@.len(),
            a@.len() == b@.len(),
            all_digits(a@),
            all_digits(b@),
            forall|k: int| j <= k < a@.len() ==> a@[k] == b@[k],
        decreases j,
    {
        let x = a[j - 1];
        let y = b[j - 1];
        if x < y {
            proof {
                lemma_value_order_at(a@, b@, j - 1);
            }
            return true;
        }
        if x > y {
            proof {
                lemma_value_order_at(b@, a@, j - 1);
            }
            return false;
        }
        j = j - 1;
    }
    proof {
        assert(a@ =~= b@);
    }
    false
}

/// Magnitude subtraction with borrow propagation; the minuend must be
/// at least the subtrahend, and the operands equally long.
pub fn sub_mag(a: &Vec<u8>, b: &Vec<u8>) -> (r: Vec<u8>)
    requires
        a@.len() == b@.len(),
        all_digits(a@),
        all_digits(b@),
        seq_value(b@) <= seq_value(a@),
    ensures
        all_digits(r@),
        r@.len() == a@.len(),
        seq_value(r@) == seq_value(a@) - seq_value(b@),
{
    let n = a.len();
    let mut r: Vec<u8> = Vec::new();
    let mut borrow: u8 = 0;
    let mut i: usize = 0;
    proof {
        assert(pow10(0) == 1) by {
            reveal(pow);
        }
    }
    while i < n
        invariant
            i <= n,
            n == a@.len(),
            a@.len() == b@.len(),
            all_digits(a@),
            all_digits(b@),
            all_digits(r@),
            borrow <= 1,
            r@.len() == i,
            seq_value(r@) == seq_value(a@.take(i as int)) - seq_value(b@.take(i as int)) + pow10(
                i as nat,
            ) * (borrow as int),
        decreases n - i,
    {
        let x = a[i];
        let y = b[i];
        let d: u8 = if x >= y + borrow {
            x - y - borrow
        } else {
            x + 10 - y - borrow
        };
        let nb: u8 = if x >= y + borrow {
            0
        } else {
            1
        };
        let ghost rv = r@;
        r.push(d);
        proof {
            lemma_value_snoc(rv, d);
            lemma_pow10_step(i as nat);
            lemma_pow_positive(10, i as nat);
            lemma_value_take_step(a@, i as int);
            lemma_value_take_step(b@, i as int);
            let p = pow10(i as nat);
            assert(d == x - y - borrow + 10 * nb);
            assert((x - y - borrow + 10 * (nb as int)) * p == x * p - y * p - (borrow as int) * p
                + (10 * p) * (nb as int)) by (nonlinear_arith);
            assert(d * p == (x - y - borrow + 10 * (nb as int)) * p);
        }
        borrow = nb;
        i = i + 1;
    }
    proof {
        assert(a@.take(n as int) =~= a@);
        assert(b@.take(n as int) =~= b@);
        lemma_value_bounds(r@);
        if borrow == 1 {
            lemma_pow_positive(10, n as nat);
            assert(false);
        }
    }
    r
}

/// One row of schoolbook multiplication: a whole magnitude times a
/// single digit, with carry propagation (the carry can reach 8).
pub fn mul_digit(a: &Vec<u8>, d: u8) -> (r: Vec<u8>)
    requires
        all_digits(a@),
        d <= 9,
    ensures
        all_digits(r@),
        seq_value(r@) == seq_value(a@) * d,
{
    let mut r: Vec<u8> = Vec::new();
    let mut carry: u8 = 0;
    let mut i: usize = 0;
    proof {
        assert(pow10(0) == 1) by {
            reveal(pow);
        }
        assert(seq_value(a@.take(0)) * d == 0) by {
            assert(a@.take(0) =~= Seq::<u8>::empty());
        }
    }
    while i < a.len()
        invariant
            i <= a@.len(),
            all_digits(a@),
            d <= 9,
            carry <= 8,
            all_digits(r@),
            r@.len() == i,
            seq_value(r@) + pow10(i as nat) * (carry as int) == seq_value(a@.take(i as int)) * d,
        decreases a@.len() - i,
    {
        proof {
            assert(a@[i as int] <= 9);
            assert(a@[i as int] * d <= 81) by (nonlinear_arith)
                requires
                    a@[i as int] <= 9,
                    d <= 9,
            ;
        }
        let p: u8 = a[i] * d + carry;
        let dd: u8 = p % 10;
        let nc: u8 = p / 10;
        let ghost rv = r@;
        r.push(dd);
        proof {
            lemma_value_snoc(rv, dd);
            lemma_pow10_step(i as nat);
            lemma_value_take_step(a@, i as int);
            let w = pow10(i as nat);
            let x = a@[i as int] as int;
            let t = seq_value(a@.take(i as int));
            assert(p == x * d + carry);
            assert(dd + 10 * (nc as int) == p);
            assert(seq_value(r@) + pow10((i + 1) as nat) * (nc as int) == seq_value(rv) + dd * w + (
            10 * w) * (nc as int));
            assert(dd * w + (10 * w) * (nc as int) == ((dd + 10 * (nc as int)) as int) * w)
                by (nonlinear_arith);
            assert((x * d + carry) * w == (x * w) * d + w * (carry as int)) by (nonlinear_arith);
            assert(t * d + (x * w) * d == (t + x * w) * d) by (nonlinear_arith);
            assert(seq_value(a@.take(i + 1)) == t + x * w);
            assert(seq_value(r@) + pow10((i + 1) as nat) * (nc as int) == seq_value(rv) + ((dd + 10
                * (nc as int)) as int) * w);
            assert(seq_value(r@) + pow10((i + 1) as nat) * (nc as int) == seq_value(rv) + (x * d
                + carry) * w);
            assert(seq_value(rv) == t * d - w * (carry as int));
            assert(seq_value(r@) + pow10((i + 1) as nat) * (nc as int) == t * d + (x * w) * d);
            assert(seq_value(r@) + pow10((i + 1) as nat) * (nc as int) == seq_value(a@.take(i + 1))
                * d);
        }
        carry = nc;
        i = i + 1;
    }
    proof {
        assert(a@.take(a@.len() as int) =~= a@);
    }
    if carry > 0 {
        let ghost rv = r@;
        r.push(carry);
        proof {
            lemma_value_snoc(rv, carry);
            vstd::arithmetic::mul::lemma_mul_is_commutative(carry as int, pow10(rv.len()));
        }
    }
    r
}

/// Shift a magnitude `k` digit positions up by prepending `k` zero
/// digits: the value gains a factor of `10^k`.
pub fn shift_up(a: &Vec<u8>, k: usize) -> (r: Vec<u8>)
    requires
        all_digits(a@),
    ensures
        all_digits(r@),
        r@.len() == a@.len() + k,
        seq_value(r@) == pow10(k as nat) * seq_value(a@),
{
    let mut r: Vec<u8> = Vec::new();
    let mut i: usize = 0;
    while i < k
        invariant
            i <= k,
            all_digits(r@),
            r@.len() == i,
            seq_value(r@) == 0,
        decreases k - i,
    {
        let ghost rv = r@;
        r.push(0);
        proof {
            lemma_value_snoc(rv, 0);
        }
        i = i + 1;
    }
    let mut j: usize = 0;
    proof {
        assert(a@.take(0) =~= Seq::<u8>::empty());
        assert(pow10(k as nat) * seq_value(a@.take(0)) == 0) by (nonlinear_arith)
            requires
                seq_value(a@.take(0)) == 0,
        ;
    }
    while j < a.len()
        invariant
            j <= a@.len(),
            all_digits(a@),
            all_digits(r@),
            r@.len() == k + j,
            seq_value(r@) == pow10(k as nat) * seq_value(a@.take(j as int)),
        decreases a@.len() - j,
    {
        let ghost rv = r@;
        r.push(a[j]);
        proof {
            lemma_value_snoc(rv, a@[j as int]);
            lemma_pow_adds(10, k as nat, j as nat);
            lemma_value_take_step(a@, j as int);
            let w = pow10(k as nat);
            let aj = a@[j as int] as int;
            assert(seq_value(r@) == w * seq_value(a@.take(j as int)) + aj * (w * pow10(j as nat)));
            assert(aj * (w * pow10(j as nat)) == w * (aj * pow10(j as nat))) by (nonlinear_arith);
            assert(w * seq_value(a@.take(j as int)) + w * (aj * pow10(j as nat)) == w * (seq_value(
                a@.take(j as int),
            ) + aj * pow10(j as nat))) by (nonlinear_arith);
        }
        j = j + 1;
    }
    proof {
        assert(a@.take(a@.len() as int) =~= a@);
    }
    r
}

/// Schoolbook multiplication of magnitudes: one shifted partial product
/// per digit of `b`, folded into the accumulator as it is produced.
pub fn mul_mag(a: &Vec<u8>, b: &Vec<u8>) -> (r: Vec<u8>)
    requires
        all_digits(a@),
        all_digits(b@),
    ensures
        all_digits(r@),
        seq_value(r@) == seq_value(a@) * seq_value(b@),
{
    let mut acc: Vec<u8> = Vec::new();
    let mut i: usize = 0;
    proof {
        assert(b@.take(0) =~= Seq::<u8>::empty());
        assert(seq_value(a@) * seq_value(b@.take(0)) == 0) by (nonlinear_arith)
            requires
                seq_value(b@.take(0)) == 0,
        ;
    }
    while i < b.len()
        invariant
            i <= b@.len(),
            all_digits(a@),
            all_digits(b@),
            all_digits(acc@),
            seq_value(acc@) == seq_value(a@) * seq_value(b@.take(i as int)),
        decreases b@.len() - i,
    {
        proof {
            assert(b@[i as int] <= 9);
        }
        let row = mul_digit(a, b[i]);
        let shifted = shift_up(&row, i);
        let ghost accv = acc@;
        acc = add_mag(&acc, &shifted);
        proof {
            lemma_value_take_step(b@, i as int);
            let av = seq_value(a@);
            let bi = b@[i as int] as int;
            let w = pow10(i as nat);
            assert(seq_value(acc@) == av * seq_value(b@.take(i as int)) + w * (av * bi));
            assert(w * (av * bi) == av * (bi * w)) by (nonlinear_arith);
            assert(av * seq_value(b@.take(i as int)) + av * (bi * w) == av * (seq_value(
                b@.take(i as int),
            ) + bi * w)) by (nonlinear_arith);
        }
        i = i + 1;
    }
    proof {
        assert(b@.take(b@.len() as int) =~= b@);
    }
    acc
}

} // verus!
