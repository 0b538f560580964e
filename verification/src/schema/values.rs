//! What the numbers are that stand in JSON: the bits of a double have a value, and they are compared
//! and counted by it.

use vstd::arithmetic::div_mod::{
    lemma_fundamental_div_mod, lemma_mod_multiples_basic, lemma_mod_multiples_vanish, lemma_small_mod,
    lemma_truncate_middle,
};
use vstd::arithmetic::mul::{lemma_mul_is_associative, lemma_mul_is_commutative};
use vstd::arithmetic::power2::{
    lemma2_to64, lemma_pow2_adds, lemma_pow2_pos, lemma_pow2_strictly_increases, lemma_pow2_unfold,
    pow2,
};
use vstd::prelude::*;

use crate::schema::json::{
    as_count, exponent, is_finite, is_whole, mantissa, order_key, same_number, two_to, whole_value,
    NumberKind, NumberView,
};

verus! {

broadcast use vstd::seq::group_seq_axioms;

/// The value of bits that stand for a double without a sign, in units of the least one.
pub open spec fn units(k: nat) -> nat {
    let e = k / 0x10_0000_0000_0000;
    let m = k % 0x10_0000_0000_0000;
    if e == 0 {
        m
    } else {
        (0x10_0000_0000_0000 + m) * pow2((e - 1) as nat)
    }
}

/// The value of a double in units of the least one, of which a one has `pow2(1074)`.
pub open spec fn value(bits: u64) -> int {
    if bits < 0x8000_0000_0000_0000 {
        units(bits as nat) as int
    } else {
        -(units((bits - 0x8000_0000_0000_0000) as nat) as int)
    }
}

proof fn lemma_two_to(k: nat)
    ensures
        two_to(k) == pow2(k),
    decreases k,
{
    if k == 0 {
        lemma2_to64();
    } else {
        lemma_two_to((k - 1) as nat);
        lemma_pow2_unfold(k);
    }
}

proof fn lemma_next_is_more(k: nat)
    ensures
        units(k) < units(k + 1),
{
    let b: nat = 0x10_0000_0000_0000;
    let e = k / b;
    let m = k % b;
    lemma2_to64();
    if m + 1 < b {
        assert((k + 1) / b == e && (k + 1) % b == m + 1);
        if e > 0 {
            let p = pow2((e - 1) as nat);
            lemma_pow2_pos((e - 1) as nat);
            assert((b + m) * p < (b + m + 1) * p) by (nonlinear_arith)
                requires
                    p > 0,
            ;
        }
    } else {
        assert((k + 1) / b == e + 1 && (k + 1) % b == 0);
        let p = pow2(e);
        lemma_pow2_pos(e);
        if e > 0 {
            let q = pow2((e - 1) as nat);
            lemma_pow2_pos((e - 1) as nat);
            lemma_pow2_unfold(e);
            assert((b + m) * q < (b + 0) * p) by (nonlinear_arith)
                requires
                    p == 2 * q,
                    q > 0,
                    m + 1 == b,
            ;
        } else {
            assert(units(k + 1) == (b + 0) * p);
            assert((b + 0) * p >= b) by (nonlinear_arith)
                requires
                    p > 0,
                    b > 0,
            ;
        }
    }
}

proof fn lemma_more(a: nat, b: nat)
    requires
        a < b,
    ensures
        units(a) < units(b),
    decreases b - a,
{
    lemma_next_is_more((b - 1) as nat);
    if a < b - 1 {
        lemma_more(a, (b - 1) as nat);
    }
}

/// Doubles stand in the order of their values, and in the same place just where these are the same.
pub proof fn lemma_place_is_by_value(a: u64, b: u64)
    ensures
        order_key(a) < order_key(b) <==> value(a) < value(b),
        order_key(a) == order_key(b) <==> value(a) == value(b),
        order_key(a) >= 0 <==> value(a) >= 0,
{
    let half: u64 = 0x8000_0000_0000_0000;
    let x = if a < half {
        a as nat
    } else {
        (a - half) as nat
    };
    let y = if b < half {
        b as nat
    } else {
        (b - half) as nat
    };
    if x < y {
        lemma_more(x, y);
    }
    if y < x {
        lemma_more(y, x);
    }
    assert(units(0) == 0);
    if x > 0 {
        lemma_more(0, x);
    }
    if y > 0 {
        lemma_more(0, y);
    }
}

proof fn lemma_fields(bits: u64)
    ensures
        ({
            let half: u64 = 0x8000_0000_0000_0000;
            let k = if bits < half {
                bits as nat
            } else {
                (bits - half) as nat
            };
            &&& exponent(bits) == k / 0x10_0000_0000_0000
            &&& mantissa(bits) == k % 0x10_0000_0000_0000
            &&& 0 <= exponent(bits) < 2048
        }),
{
    let half: u64 = 0x8000_0000_0000_0000;
    if bits >= half {
        let k = bits - half;
        assert(bits % half == k);
        assert(bits as int == k + 0x800 * 0x10_0000_0000_0000);
        assert(bits as int % 0x10_0000_0000_0000 == k % 0x10_0000_0000_0000);
    } else {
        assert(bits % half == bits);
    }
}

proof fn lemma_below_one(e: int, m: int)
    requires
        1 <= e < 1075,
        0 <= m < 0x10_0000_0000_0000,
    ensures
        ({
            let x = 0x10_0000_0000_0000 + m;
            let q = pow2((1075 - e) as nat) as int;
            let p = pow2((e - 1) as nat) as int;
            &&& p > 0 && q > 0
            &&& p * q == pow2(1074)
            &&& (x * p) % (pow2(1074) as int) == p * (x % q)
            &&& (x * p) % (pow2(1074) as int) == 0 <==> x % q == 0
            &&& e < 1023 ==> x % q == x
            &&& e >= 1023 ==> x % q == m % q
        }),
{
    let b: int = 0x10_0000_0000_0000;
    let x = b + m;
    let q = pow2((1075 - e) as nat) as int;
    let p = pow2((e - 1) as nat) as int;
    lemma_pow2_pos((1075 - e) as nat);
    lemma_pow2_pos((e - 1) as nat);
    lemma_pow2_adds((e - 1) as nat, (1075 - e) as nat);
    lemma_truncate_middle(x, p, q);
    lemma_mul_is_commutative(x, p);
    assert(p * (x % q) == 0 <==> x % q == 0) by (nonlinear_arith)
        requires
            p > 0,
    ;
    lemma2_to64();
    if e < 1023 {
        assert(pow2(53) == 2 * pow2(52)) by {
            lemma_pow2_unfold(53);
        }
        assert(pow2(52) == b) by {
            vstd::arithmetic::power2::lemma2_to64_rest();
        }
        if 1075 - e > 53 {
            lemma_pow2_strictly_increases(53, (1075 - e) as nat);
        }
        lemma_small_mod(x as nat, q as nat);
    } else {
        let r = pow2((52 - (1075 - e)) as nat) as int;
        lemma_pow2_adds((1075 - e) as nat, (52 - (1075 - e)) as nat);
        assert(pow2(52) == b) by {
            vstd::arithmetic::power2::lemma2_to64_rest();
        }
        assert(b == q * r);
        lemma_mod_multiples_vanish(r, m, q);
    }
}

proof fn lemma_from_one_on(e: int, m: int)
    requires
        1075 <= e,
        0 <= m,
    ensures
        ({
            let x = 0x10_0000_0000_0000 + m;
            let r = pow2((e - 1075) as nat) as int;
            &&& x * pow2((e - 1) as nat) == (x * r) * pow2(1074)
            &&& (x * pow2((e - 1) as nat)) % (pow2(1074) as int) == 0
        }),
{
    let x = 0x10_0000_0000_0000 + m;
    let r = pow2((e - 1075) as nat) as int;
    lemma_pow2_adds((e - 1075) as nat, 1074);
    lemma_mul_is_associative(x, r, pow2(1074) as int);
    lemma_pow2_pos(1074);
    lemma_mod_multiples_basic(x * r, pow2(1074) as int);
}

/// A double without a sign is whole just where its value is a multiple of that of a one, and then it
/// counts how many.
proof fn lemma_whole_units(e: int, m: int)
    requires
        0 <= e,
        0 <= m < 0x10_0000_0000_0000,
    ensures
        ({
            let u = if e == 0 {
                m
            } else {
                (0x10_0000_0000_0000 + m) * pow2((e - 1) as nat)
            };
            let one = pow2(1074) as int;
            let whole = if e == 0 {
                m == 0
            } else if e < 1023 {
                false
            } else if e < 1075 {
                m % two_to((1075 - e) as nat) as int == 0
            } else {
                true
            };
            let count = if e == 0 {
                0
            } else if e < 1075 {
                (0x10_0000_0000_0000 + m) / two_to((1075 - e) as nat) as int
            } else {
                (0x10_0000_0000_0000 + m) * two_to((e - 1075) as nat)
            };
            &&& one > 0
            &&& whole <==> u % one == 0
            &&& whole ==> u == count * one
            &&& whole ==> count >= 0
        }),
{
    let one = pow2(1074) as int;
    lemma_pow2_pos(1074);
    let x = 0x10_0000_0000_0000 + m;
    if e == 0 {
        lemma2_to64();
        assert(pow2(52) == 0x10_0000_0000_0000) by {
            vstd::arithmetic::power2::lemma2_to64_rest();
        }
        lemma_pow2_strictly_increases(52, 1074);
        lemma_small_mod(m as nat, one as nat);
    } else if e < 1075 {
        lemma_below_one(e, m);
        lemma_two_to((1075 - e) as nat);
        let q = pow2((1075 - e) as nat) as int;
        let p = pow2((e - 1) as nat) as int;
        if x % q == 0 {
            lemma_fundamental_div_mod(x, q);
            let c = x / q;
            assert(x * p == c * (p * q)) by (nonlinear_arith)
                requires
                    x == q * c + 0,
            ;
            assert(c >= 0) by (nonlinear_arith)
                requires
                    c == x / q,
                    x >= 0,
                    q > 0,
            ;
        }
    } else {
        lemma_from_one_on(e, m);
        lemma_two_to((e - 1075) as nat);
        lemma_pow2_pos((e - 1075) as nat);
        let r = pow2((e - 1075) as nat) as int;
        assert(x * r >= 0) by (nonlinear_arith)
            requires
                x >= 0,
                r >= 0,
        ;
    }
}

proof fn lemma_opposite(u: int, one: int)
    requires
        one > 0,
        u >= 0,
    ensures
        (-u) % one == 0 <==> u % one == 0,
{
    lemma_fundamental_div_mod(u, one);
    lemma_fundamental_div_mod(-u, one);
    if u % one == 0 {
        let c = u / one;
        assert(-u == (-c) * one) by (nonlinear_arith)
            requires
                u == one * c + 0,
        ;
        lemma_mod_multiples_basic(-c, one);
    }
    if (-u) % one == 0 {
        let c = (-u) / one;
        assert(u == (-c) * one) by (nonlinear_arith)
            requires
                -u == one * c + 0,
        ;
        lemma_mod_multiples_basic(-c, one);
    }
}

/// A finite double is whole just where its value is a multiple of that of a one.
pub proof fn lemma_whole_is_by_value(bits: u64)
    requires
        is_finite(bits),
    ensures
        is_whole(bits) <==> value(bits) % (pow2(1074) as int) == 0,
{
    lemma_fields(bits);
    let e = exponent(bits);
    let m = mantissa(bits);
    lemma_whole_units(e, m);
    let half: u64 = 0x8000_0000_0000_0000;
    let k = if bits < half {
        bits as nat
    } else {
        (bits - half) as nat
    };
    lemma_opposite(units(k) as int, pow2(1074) as int);
}

/// A number that was not written as an integer counts as many as its value has ones, up to what a
/// `usize` can hold; one that is negative or has a fraction counts nothing.
pub proof fn lemma_count_is_by_value(n: NumberView, c: nat)
    requires
        !(n.kind is Unsigned),
        is_finite(n.bits),
    ensures
        value(n.bits) == c * pow2(1074) ==> as_count(n) == Some(
            if c <= usize::MAX {
                c
            } else {
                usize::MAX as nat
            },
        ),
        value(n.bits) < 0 || value(n.bits) % (pow2(1074) as int) != 0 ==> as_count(n) is None,
{
    let bits = n.bits;
    lemma_place_is_by_value(bits, bits);
    lemma_whole_is_by_value(bits);
    lemma_fields(bits);
    let e = exponent(bits);
    let m = mantissa(bits);
    lemma_whole_units(e, m);
    let one = pow2(1074) as int;
    if value(bits) == c * pow2(1074) {
        lemma_mod_multiples_basic(c as int, one);
        assert(c * one >= 0) by (nonlinear_arith)
            requires
                one > 0,
                c >= 0,
        ;
        let w = whole_value(bits) as int;
        let half: u64 = 0x8000_0000_0000_0000;
        let k = if bits < half {
            bits as nat
        } else {
            (bits - half) as nat
        };
        assert(units(k) == w * one);
        if bits >= half {
            assert(units(k) == 0 && c * one == 0);
        }
        assert(w * one == c * one);
        assert(w == c) by (nonlinear_arith)
            requires
                w * one == c * one,
                one > 0,
        ;
    }
}

/// A number that was written as an unsigned integer counts as many as it says.
pub proof fn lemma_written_count(n: NumberView, u: u64)
    requires
        n.kind == NumberKind::Unsigned(u),
    ensures
        as_count(n) == Some(
            if u <= usize::MAX {
                u as nat
            } else {
                usize::MAX as nat
            },
        ),
{
}

/// Two numbers that were written as integers are the same where the integers are, and two with a
/// fraction or an exponent where their values are.
pub proof fn lemma_same_by_value(a: NumberView, b: NumberView)
    ensures
        a.kind is Float && b.kind is Float ==> same_number(a, b) == (value(a.bits) == value(b.bits)),
        a.kind is Unsigned && b.kind is Unsigned ==> same_number(a, b) == (a.kind == b.kind),
        a.kind is Negative && b.kind is Negative ==> same_number(a, b) == (a.kind == b.kind),
        a.kind is Float != b.kind is Float ==> !same_number(a, b),
        a.kind is Unsigned != b.kind is Unsigned ==> !same_number(a, b),
{
    lemma_place_is_by_value(a.bits, b.bits);
}

} // verus!
