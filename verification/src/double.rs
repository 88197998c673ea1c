//! IEEE-754 doubles and singles as their bits: finiteness, order, and keys that
//! sort as the numbers do.
use vstd::arithmetic::power2::{
    lemma_pow2_pos, lemma_pow2_strictly_increases, lemma_pow2_unfold, pow2,
};
use vstd::prelude::*;

use crate::text::{
    digit, digit_char, lemma_encode_injective, lemma_lex_at, lemma_lex_irreflexive, lex_lt,
};
use vstd::utf8::*;

verus! {

pub const SIGN: u64 = 0x8000_0000_0000_0000;

/// Neither infinite nor NaN.
pub open spec fn finite_double(bits: u64) -> bool {
    bits % SIGN < 0x7ff0_0000_0000_0000
}

pub open spec fn nan_double(bits: u64) -> bool {
    bits % SIGN > 0x7ff0_0000_0000_0000
}

/// Neither infinite nor NaN.
pub open spec fn finite_single(bits: u32) -> bool {
    bits % 0x8000_0000 < 0x7f80_0000
}

/// Positive or negative zero.
pub open spec fn zero_single(bits: u32) -> bool {
    bits % 0x8000_0000 == 0
}

/// Orders doubles that are not NaN by their numeric value: the two zeros
/// coincide, and every other value has its own place.
pub open spec fn numeric_order(bits: u64) -> int {
    if bits < SIGN {
        bits as int
    } else {
        SIGN - bits
    }
}

/// The total order on all doubles, in which negative zero precedes positive
/// zero.
pub open spec fn total_order(bits: u64) -> int {
    if bits < SIGN {
        bits as int
    } else {
        SIGN - bits - 1
    }
}

/// `a >= b` as doubles; false when either is NaN.
pub open spec fn double_ge(a: u64, b: u64) -> bool {
    !nan_double(a) && !nan_double(b) && numeric_order(a) >= numeric_order(b)
}

pub fn is_finite_double(bits: u64) -> (finite: bool)
    ensures
        finite == finite_double(bits),
{
    bits % SIGN < 0x7ff0_0000_0000_0000
}

pub fn is_finite_single(bits: u32) -> (finite: bool)
    ensures
        finite == finite_single(bits),
{
    bits % 0x8000_0000 < 0x7f80_0000
}

pub fn is_zero_single(bits: u32) -> (zero: bool)
    ensures
        zero == zero_single(bits),
{
    bits % 0x8000_0000 == 0
}

pub fn at_least(a: u64, b: u64) -> (result: bool)
    ensures
        result == double_ge(a, b),
{
    let nan = a % SIGN > 0x7ff0_0000_0000_0000 || b % SIGN > 0x7ff0_0000_0000_0000;
    if nan {
        return false;
    }
    if a < SIGN {
        if b < SIGN {
            a >= b
        } else {
            true
        }
    } else if b < SIGN {
        a == SIGN && b == 0
    } else {
        a <= b
    }
}

/// Whether `a` follows `b` in the total order.
pub fn total_greater(a: u64, b: u64) -> (greater: bool)
    ensures
        greater == (total_order(a) > total_order(b)),
{
    if a < SIGN {
        if b < SIGN {
            a > b
        } else {
            true
        }
    } else if b < SIGN {
        false
    } else {
        a < b
    }
}

// ---------------------------------------------------------------------------
// Sortable keys
// ---------------------------------------------------------------------------
/// An unsigned number that sorts as the doubles do, with one image for both
/// zeros.
pub open spec fn sortable(bits: u64) -> int {
    if bits % SIGN == 0 {
        SIGN as int
    } else if bits < SIGN {
        bits + SIGN
    } else {
        u64::MAX - bits
    }
}

/// `n` as `width` lower-case hexadecimal digits.
pub open spec fn hex_digits(n: nat, width: nat) -> Seq<char>
    decreases width,
{
    if width == 0 {
        Seq::empty()
    } else {
        hex_digits(n / 16, (width - 1) as nat).push(digit_char((n % 16) as int))
    }
}

pub open spec fn number_key_spec(bits: u64) -> Seq<char> {
    hex_digits(sortable(bits) as nat, 16)
}

/// Sixteen hexadecimal digits that sort as the doubles do.
pub fn number_key(bits: u64) -> (key: String)
    ensures
        key@ == number_key_spec(bits),
{
    let n: u64 = if bits % SIGN == 0 {
        SIGN
    } else if bits < SIGN {
        bits + SIGN
    } else {
        u64::MAX - bits
    };
    let mut key = String::new();
    push_hex_digits(&mut key, n, 16);
    assert(key@ =~= number_key_spec(bits));
    key
}

fn push_hex_digits(out: &mut String, n: u64, width: usize)
    ensures
        final(out)@ == old(out)@ + hex_digits(n as nat, width as nat),
    decreases width,
{
    if width > 0 {
        push_hex_digits(out, n / 16, width - 1);
        out.push(digit((n % 16) as u8));
        assert(out@ =~= old(out)@ + hex_digits(n as nat, width as nat));
    } else {
        assert(out@ =~= old(out)@ + hex_digits(n as nat, width as nat));
    }
}

pub proof fn lemma_hex_digits_shape(n: nat, width: nat)
    ensures
        hex_digits(n, width).len() == width,
        forall|i: int| 0 <= i < width ==> {
            let c = #[trigger] hex_digits(n, width)[i];
            '0' <= c <= '9' || 'a' <= c <= 'f'
        },
        is_ascii_chars(hex_digits(n, width)),
    decreases width,
{
    if width > 0 {
        lemma_hex_digits_shape(n / 16, (width - 1) as nat);
        assert forall|i: int| 0 <= i < width implies ({
            let c = #[trigger] hex_digits(n, width)[i];
            '0' <= c <= '9' || 'a' <= c <= 'f'
        }) by {
            if i < width - 1 {
                assert(hex_digits(n, width)[i] == hex_digits(n / 16, (width - 1) as nat)[i]);
            }
        }
    }
}

/// Digit strings of one width compare as the numbers they write.
pub proof fn lemma_hex_digits_order(a: nat, b: nat, width: nat)
    requires
        a < vstd::arithmetic::power::pow(16, width),
        b < vstd::arithmetic::power::pow(16, width),
    ensures
        lex_lt(encode_utf8(hex_digits(a, width)), encode_utf8(hex_digits(b, width))) == (a < b),
        (hex_digits(a, width) == hex_digits(b, width)) == (a == b),
    decreases width,
{
    broadcast use is_ascii_chars_encode_utf8;

    let x = hex_digits(a, width);
    let y = hex_digits(b, width);
    lemma_hex_digits_shape(a, width);
    lemma_hex_digits_shape(b, width);
    let ex = encode_utf8(x);
    let ey = encode_utf8(y);
    if width == 0 {
        vstd::arithmetic::power::lemma_pow0(16);
        assert(x =~= y);
        lemma_lex_irreflexive(ex);
    } else {
        let w = (width - 1) as nat;
        vstd::arithmetic::power::lemma_pow_positive(16, w);
        assert(vstd::arithmetic::power::pow(16, width) == 16 * vstd::arithmetic::power::pow(16, w))
            by {
            reveal(vstd::arithmetic::power::pow);
        }
        lemma_hex_digits_order(a / 16, b / 16, w);
        lemma_hex_digits_shape(a / 16, w);
        lemma_hex_digits_shape(b / 16, w);
        let px = hex_digits(a / 16, w);
        let py = hex_digits(b / 16, w);
        assert(x.drop_last() =~= px);
        assert(y.drop_last() =~= py);
        assert(ex.take(w as int) =~= encode_utf8(px));
        assert(ey.take(w as int) =~= encode_utf8(py));
        if a / 16 == b / 16 {
            assert(px == py);
            if a % 16 == b % 16 {
                assert(a == b);
                assert(x == y);
                lemma_lex_irreflexive(ex);
            } else {
                let da = digit_char((a % 16) as int);
                let db = digit_char((b % 16) as int);
                assert(x[w as int] == da && y[w as int] == db);
                assert(ex[w as int] == da as u8 && ey[w as int] == db as u8);
                assert((da as u8) < (db as u8) <==> a % 16 < b % 16);
                assert(ex[w as int] != ey[w as int]);
                lemma_lex_at(ex, ey, w as int);
                assert(a < b <==> a % 16 < b % 16);
            }
        } else {
            assert(px != py);
            assert(x != y) by {
                if x == y {
                    assert(px == py);
                }
            }
            lemma_encode_injective(px, py);
            lemma_lex_extend(encode_utf8(px), encode_utf8(py), ex, ey);
        }
    }
}

/// Extending two different strings of one length keeps their order.
pub proof fn lemma_lex_extend(a: Seq<u8>, b: Seq<u8>, x: Seq<u8>, y: Seq<u8>)
    requires
        a.len() == b.len(),
        a != b,
        a.is_prefix_of(x),
        b.is_prefix_of(y),
    ensures
        lex_lt(x, y) == lex_lt(a, b),
    decreases a.len(),
{
    if a.len() == 0 {
        assert(a =~= b);
    } else {
        assert(a[0] == x[0] && b[0] == y[0]);
        if a[0] == b[0] {
            assert(a.drop_first() != b.drop_first()) by {
                if a.drop_first() == b.drop_first() {
                    assert(a =~= seq![a[0]] + a.drop_first());
                    assert(b =~= seq![b[0]] + b.drop_first());
                }
            }
            assert(a.drop_first() =~= x.drop_first().take(a.len() - 1));
            assert(b.drop_first() =~= y.drop_first().take(b.len() - 1));
            lemma_lex_extend(a.drop_first(), b.drop_first(), x.drop_first(), y.drop_first());
        }
    }
}

/// Law: keys of doubles that are not NaN sort as the doubles do, and two such
/// doubles share a key exactly when they are numerically equal.
pub proof fn law_number_key_sorts(a: u64, b: u64)
    requires
        !nan_double(a),
        !nan_double(b),
    ensures
        lex_lt(encode_utf8(number_key_spec(a)), encode_utf8(number_key_spec(b))) == (numeric_order(a)
            < numeric_order(b)),
        (number_key_spec(a) == number_key_spec(b)) == (numeric_order(a) == numeric_order(b)),
{
    assert(vstd::arithmetic::power::pow(16, 16) == 18446744073709551616) by {
        reveal(vstd::arithmetic::power::pow);
        reveal_with_fuel(vstd::arithmetic::power::pow, 17);
    }
    lemma_hex_digits_order(sortable(a) as nat, sortable(b) as nat, 16);
}

// ---------------------------------------------------------------------------
// What the bits stand for
// ---------------------------------------------------------------------------
/// The magnitude of a double without its sign bit, in units of the smallest
/// positive double: 52 bits of fraction under an 11-bit exponent, with a hidden
/// leading bit unless the exponent is zero. Infinity gets the value that follows
/// the greatest finite one.
pub open spec fn magnitude(bits: nat) -> nat {
    let exponent = bits / 0x10_0000_0000_0000;
    let fraction = bits % 0x10_0000_0000_0000;
    if exponent == 0 {
        fraction
    } else {
        ((0x10_0000_0000_0000 + fraction) * pow2((exponent - 1) as nat)) as nat
    }
}

/// The number that a double that is not NaN stands for, in units of the smallest
/// positive double.
pub open spec fn double_value(bits: u64) -> int {
    if bits < 0x8000_0000_0000_0000 {
        magnitude(bits as nat) as int
    } else {
        -magnitude((bits - 0x8000_0000_0000_0000) as nat)
    }
}

proof fn lemma_magnitude_increases(a: nat, b: nat)
    requires
        a < b,
    ensures
        magnitude(a) < magnitude(b),
{
    let unit: nat = 0x10_0000_0000_0000;
    let (x, y) = (a / unit, b / unit);
    let (f, g) = (a % unit, b % unit);
    assert(x <= y);
    if x == y {
        assert(f < g);
        if x > 0 {
            let p = pow2((x - 1) as nat);
            lemma_pow2_pos((x - 1) as nat);
            assert((unit + f) * p < (unit + g) * p) by (nonlinear_arith)
                requires
                    f < g,
                    p > 0,
            ;
        }
    } else {
        let q = pow2((y - 1) as nat);
        lemma_pow2_pos((y - 1) as nat);
        assert((unit + g) * q >= unit * q) by (nonlinear_arith)
            requires
                g >= 0,
                q > 0,
        ;
        if x == 0 {
            assert(unit * q >= unit) by (nonlinear_arith)
                requires
                    q > 0,
            ;
        } else {
            let p = pow2((x - 1) as nat);
            lemma_pow2_pos((x - 1) as nat);
            lemma_pow2_unfold(x);
            if x < y - 1 {
                lemma_pow2_strictly_increases(x, (y - 1) as nat);
            }
            assert(q >= 2 * p);
            assert((unit + f) * p < unit * q) by (nonlinear_arith)
                requires
                    f < unit,
                    p > 0,
                    q >= 2 * p,
            ;
        }
    }
}

proof fn lemma_magnitudes(a: nat, b: nat)
    ensures
        (magnitude(a) < magnitude(b)) == (a < b),
        (magnitude(a) == magnitude(b)) == (a == b),
        (magnitude(a) == 0) == (a == 0),
{
    if a < b {
        lemma_magnitude_increases(a, b);
    }
    if b < a {
        lemma_magnitude_increases(b, a);
    }
    if a > 0 {
        lemma_magnitude_increases(0, a);
    }
}

/// Comparing doubles compares the numbers that they stand for. NaN, with all
/// exponent bits set and a fraction, is not ordered; infinity, without one,
/// exceeds every finite number.
pub proof fn law_doubles_compare_as_numbers(a: u64, b: u64)
    ensures
        nan_double(a) == (a % SIGN / 0x10_0000_0000_0000 == 0x7ff && a % 0x10_0000_0000_0000 != 0),
        finite_double(a) == (a % SIGN / 0x10_0000_0000_0000 != 0x7ff),
        SIGN == 0x8000_0000_0000_0000,
        double_ge(a, b) == (!nan_double(a) && !nan_double(b) && double_value(a) >= double_value(b)),
        numeric_order(a) > numeric_order(b) <==> double_value(a) > double_value(b),
        numeric_order(a) == numeric_order(b) <==> double_value(a) == double_value(b),
        finite_double(a) ==> double_value(a) < double_value(0x7ff0_0000_0000_0000),
{
    let x = (a % SIGN) as nat;
    let y = (b % SIGN) as nat;
    lemma_magnitudes(x, y);
    lemma_magnitudes(y, x);
    lemma_magnitudes(x, 0x7ff0_0000_0000_0000);
    assert(a < SIGN ==> x == a);
    assert(a >= SIGN ==> x == a - SIGN);
    assert(b < SIGN ==> y == b);
    assert(b >= SIGN ==> y == b - SIGN);
    assert(SIGN % 0x10_0000_0000_0000 == 0);
    assert(a % 0x10_0000_0000_0000 == x % 0x10_0000_0000_0000);
}

/// The total order ranks larger numbers higher; of equal numbers positive zero
/// ranks above negative zero, and there are no other equal numbers with different
/// bits. NaN with a clear sign bit ranks above everything else, NaN with a set
/// sign bit below.
pub proof fn law_total_order_ranks_numbers(a: u64, b: u64)
    ensures
        !nan_double(a) && !nan_double(b) ==> (total_order(a) > total_order(b) <==> double_value(a)
            > double_value(b) || (a == 0 && b == 0x8000_0000_0000_0000)),
        nan_double(a) && !nan_double(b) ==> (total_order(a) > total_order(b) <==> a
            < 0x8000_0000_0000_0000),
        !nan_double(a) && nan_double(b) ==> (total_order(a) > total_order(b) <==> b
            >= 0x8000_0000_0000_0000),
        nan_double(a) && nan_double(b) ==> (total_order(a) > total_order(b) <==> double_value(a)
            > double_value(b)),
        total_order(a) == total_order(b) <==> a == b,
{
    let x = (a % SIGN) as nat;
    let y = (b % SIGN) as nat;
    lemma_magnitudes(x, y);
    lemma_magnitudes(y, x);
    assert(a < SIGN ==> x == a);
    assert(a >= SIGN ==> x == a - SIGN);
    assert(b < SIGN ==> y == b);
    assert(b >= SIGN ==> y == b - SIGN);
}

/// A single is finite unless all its exponent bits are set, and zero if nothing
/// but its sign may be.
pub proof fn law_singles_classified(bits: u32)
    ensures
        finite_single(bits) == (bits % 0x8000_0000 / 0x80_0000 != 0xff),
        zero_single(bits) == (bits == 0 || bits == 0x8000_0000),
{
}

} // verus!
