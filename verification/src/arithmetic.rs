//! What the machine's bit operations and its two loops compute, in numbers.
use crate::execute::complement;
use crate::execute::shift_left;
use crate::execute::shift_right_logical;
use crate::execute::RegisterContent;
use crate::meaning::accumulated;
use crate::meaning::divide_round;
use crate::meaning::divided;
use crate::meaning::multiplied;
use crate::meaning::multiply_round;
use vstd::prelude::*;

verus! {

/// Masking with zero clears a value.
pub proof fn lemma_mask_zero(x: RegisterContent)
    by (bit_vector)
    ensures
        x & 0 == 0,
{
}

/// Masking with the lowest value tells the sign.
pub proof fn lemma_sign_bit(x: RegisterContent)
    by (bit_vector)
    ensures
        (x & i16::MIN != 0) <==> x < 0,
{
}

/// The lowest bit of the complement is set where the value is even.
pub proof fn lemma_lowest_bit(x: RegisterContent)
    by (bit_vector)
    requires
        0 <= x,
    ensures
        (complement(x) & 1 != 0) <==> x % 2 == 0,
{
}

/// Moving a small value one bit up doubles it.
pub proof fn lemma_double(x: RegisterContent)
    by (bit_vector)
    requires
        0 <= x < 0x4000,
    ensures
        shift_left(x, 1) == 2 * x,
{
}

/// Moving a small value four bits up multiplies it by 16.
pub proof fn lemma_sixteenfold(x: RegisterContent)
    by (bit_vector)
    requires
        0 <= x < 0x800,
    ensures
        shift_left(x, 4) == 16 * x,
{
}

/// Moving a value that is not negative one bit down halves it.
pub proof fn lemma_halve(x: RegisterContent)
    by (bit_vector)
    requires
        0 <= x,
    ensures
        shift_right_logical(x, 1) == x / 2,
{
}

/// Four rounds of adding and shifting multiply by the multiplier's low four
/// bits, and the product wraps to the register's width.
proof fn lemma_shift_and_add(cand: RegisterContent, plier: RegisterContent)
    by (bit_vector)
    ensures
        ({
            let first = accumulated(0, cand, plier);
            let second = accumulated(first, shift_left(cand, 1), shift_right_logical(plier, 1));
            let third = accumulated(
                second,
                shift_left(shift_left(cand, 1), 1),
                shift_right_logical(shift_right_logical(plier, 1), 1),
            );
            let fourth = accumulated(
                third,
                shift_left(shift_left(shift_left(cand, 1), 1), 1),
                shift_right_logical(shift_right_logical(shift_right_logical(plier, 1), 1), 1),
            );
            fourth == cand.wrapping_mul(plier & 15)
        }),
{
}

/// The multiplication loop multiplies, whatever the registers hold: it
/// leaves in the result register the product of the multiplicand in register
/// 2 and the low four bits of the multiplier in register 1, wrapped to the
/// register's width.
pub proof fn lemma_multiplied_wraps(regs: Seq<RegisterContent>)
    requires
        regs.len() == 5,
    ensures
        multiplied(regs).len() == 5,
        multiplied(regs)[0] == 0,
        multiplied(regs)[3] == regs[2].wrapping_mul(regs[1] & 15),
{
    lemma_mask_zero(regs[3]);
    lemma_shift_and_add(regs[2], regs[1]);
    let r0 = seq![4i16, regs[1], regs[2], regs[3] & 0, regs[4]];
    let r1 = multiply_round(r0);
    let r2 = multiply_round(r1);
    let r3 = multiply_round(r2);
    let r4 = multiply_round(r3);
    assert(r1[3] == accumulated(0, regs[2], regs[1]));
    assert(r2[3] == accumulated(r1[3], r1[2], r1[1]));
    assert(r3[3] == accumulated(r2[3], r2[2], r2[1]));
    assert(r4[3] == accumulated(r3[3], r3[2], r3[1]));
}

/// Splitting a factor into its half and its lowest bit.
proof fn lemma_split_product(m: int, p: int, half: int, bit: int)
    by (nonlinear_arith)
    requires
        p == 2 * half + bit,
    ensures
        m * p == (2 * m) * half + m * bit,
{
}

/// One quotient bit: the same dividend with twice the quotient and half the
/// divisor.
proof fn lemma_split_quotient(q: int, d: int)
    by (nonlinear_arith)
    ensures
        q * (2 * d) == (2 * q) * d,
        q * (2 * d) == (2 * q + 1) * d - d,
{
}

/// A product of factors that are not negative is not negative, and not
/// below the one factor where the other is positive.
proof fn lemma_product_bounds(m: int, p: int)
    by (nonlinear_arith)
    requires
        0 <= m,
        0 <= p,
    ensures
        0 <= m * p,
        p >= 1 ==> m <= m * p,
{
}

/// One round of the multiplication loop in numbers: the multiplier loses its
/// lowest bit, the multiplicand doubles, and the result with what is still to
/// add stays the product.
proof fn lemma_multiply_round_value(regs: Seq<RegisterContent>)
    requires
        regs.len() == 5,
        i16::MIN < regs[0],
        0 <= regs[1],
        0 <= regs[2] < 0x4000,
        0 <= regs[3],
        regs[3] + regs[2] * regs[1] <= i16::MAX,
    ensures
        ({
            let next = multiply_round(regs);
            &&& next[0] == regs[0] - 1
            &&& next[1] == regs[1] / 2
            &&& next[2] == 2 * regs[2]
            &&& 0 <= next[3]
            &&& next[3] + next[2] * next[1] == regs[3] + regs[2] * regs[1]
        }),
{
    let p = regs[1] as int;
    let m = regs[2] as int;
    let acc = regs[3] as int;
    let next = multiply_round(regs);
    assert(next[3] == accumulated(regs[3], regs[2], regs[1]));
    lemma_lowest_bit(regs[1]);
    lemma_double(regs[2]);
    lemma_halve(regs[1]);
    lemma_split_product(m, p, p / 2, p % 2);
    lemma_product_bounds(m, p);
    assert(next[1] == p / 2);
    assert(next[2] == 2 * m);
    if p % 2 == 0 {
        assert(m * (p % 2) == 0) by (nonlinear_arith)
            requires
                p % 2 == 0,
        ;
        assert(next[3] == acc);
    } else {
        assert(m * (p % 2) == m) by (nonlinear_arith)
            requires
                p % 2 == 1,
        ;
        assert(next[3] == m + acc);
    }
}

/// The multiplication loop multiplies: with a multiplicand below 2048 in
/// register 2 and a multiplier below 16 in register 1 it leaves their product
/// in the result register, and nothing wraps on the way.
pub proof fn lemma_multiplied(regs: Seq<RegisterContent>)
    requires
        regs.len() == 5,
        0 <= regs[1] < 16,
        0 <= regs[2] < 2048,
    ensures
        multiplied(regs).len() == 5,
        multiplied(regs)[3] == regs[2] * regs[1],
{
    let p = regs[1] as int;
    let m = regs[2] as int;
    lemma_mask_zero(regs[3]);
    assert(m * p <= 2047 * 15) by (nonlinear_arith)
        requires
            0 <= m <= 2047,
            0 <= p <= 15,
    ;
    let r0 = seq![4i16, regs[1], regs[2], regs[3] & 0, regs[4]];
    lemma_multiply_round_value(r0);
    let r1 = multiply_round(r0);
    lemma_multiply_round_value(r1);
    let r2 = multiply_round(r1);
    lemma_multiply_round_value(r2);
    let r3 = multiply_round(r2);
    lemma_multiply_round_value(r3);
    let r4 = multiply_round(r3);
    assert(r4[1] == 0);
    assert(r4[2] * r4[1] == 0) by (nonlinear_arith)
        requires
            r4[1] == 0,
    ;
}

/// One round of the division loop in numbers: where the divisor goes into the
/// remainder it is taken away and a one enters the quotient, else a zero; the
/// divisor is halved.
proof fn lemma_divide_round_value(regs: Seq<RegisterContent>)
    requires
        regs.len() == 5,
        i16::MIN < regs[0],
        0 <= regs[1] < 0x2000,
        0 <= regs[2],
        0 <= regs[3],
    ensures
        ({
            let next = divide_round(regs);
            &&& next[0] == regs[0] - 1
            &&& next[1] == if regs[3] < regs[2] {
                2 * regs[1]
            } else {
                2 * regs[1] + 1
            }
            &&& next[2] == regs[2] / 2
            &&& next[3] == if regs[3] < regs[2] {
                regs[3] as int
            } else {
                regs[3] - regs[2]
            }
        }),
{
    let reduced = regs[3].wrapping_sub(regs[2]);
    assert(reduced == regs[3] - regs[2]);
    lemma_sign_bit(reduced);
    lemma_double(regs[1]);
    lemma_halve(regs[2]);
}

/// The division loop divides: with a divisor from 1 to 2047 in register 2 and
/// in the result register a dividend that is not negative and below 32 times
/// the divisor, it leaves the quotient in the result register.
pub proof fn lemma_divided(regs: Seq<RegisterContent>)
    requires
        regs.len() == 5,
        0 < regs[2] < 2048,
        0 <= regs[3] < 32 * regs[2],
    ensures
        divided(regs).len() == 5,
        divided(regs)[3] == regs[3] / regs[2],
{
    let d = regs[2] as int;
    let x = regs[3] as int;
    lemma_sixteenfold(regs[2]);
    let r0 = seq![5i16, 0i16, shift_left(regs[2], 4), regs[3], regs[4]];
    assert(x == r0[1] * (2 * r0[2]) + r0[3]) by (nonlinear_arith)
        requires
            r0[1] == 0,
            x == r0[3],
    ;
    lemma_divide_round_value(r0);
    lemma_split_quotient(r0[1] as int, r0[2] as int);
    let r1 = divide_round(r0);
    assert(x == r1[1] * (16 * d) + r1[3] && 0 <= r1[3] < 16 * d && 0 <= r1[1] < 2);
    lemma_divide_round_value(r1);
    lemma_split_quotient(r1[1] as int, r1[2] as int);
    let r2 = divide_round(r1);
    assert(x == r2[1] * (8 * d) + r2[3] && 0 <= r2[3] < 8 * d && 0 <= r2[1] < 4);
    lemma_divide_round_value(r2);
    lemma_split_quotient(r2[1] as int, r2[2] as int);
    let r3 = divide_round(r2);
    assert(x == r3[1] * (4 * d) + r3[3] && 0 <= r3[3] < 4 * d && 0 <= r3[1] < 8);
    lemma_divide_round_value(r3);
    lemma_split_quotient(r3[1] as int, r3[2] as int);
    let r4 = divide_round(r3);
    assert(x == r4[1] * (2 * d) + r4[3] && 0 <= r4[3] < 2 * d && 0 <= r4[1] < 16);
    lemma_divide_round_value(r4);
    lemma_split_quotient(r4[1] as int, r4[2] as int);
    let r5 = divide_round(r4);
    assert(x == r5[1] * d + r5[3] && 0 <= r5[3] < d && 0 <= r5[1] < 32);
    vstd::arithmetic::div_mod::lemma_fundamental_div_mod_converse(x, d, r5[1] as int, r5[3] as int);
}

/// The quotient has five bits and no more: with a divisor from 1 to 2047 in
/// register 2 and in the result register a dividend of at least 32 times the
/// divisor, every round lets a one into the quotient, and the loop leaves 31
/// in the result register.
pub proof fn lemma_divided_saturates(regs: Seq<RegisterContent>)
    requires
        regs.len() == 5,
        0 < regs[2] < 2048,
        32 * regs[2] <= regs[3],
    ensures
        divided(regs).len() == 5,
        divided(regs)[3] == 31,
{
    let d = regs[2] as int;
    let x = regs[3] as int;
    lemma_sixteenfold(regs[2]);
    let r0 = seq![5i16, 0i16, shift_left(regs[2], 4), regs[3], regs[4]];
    lemma_divide_round_value(r0);
    let r1 = divide_round(r0);
    assert(r1[3] == x - 16 * d && r1[2] == 8 * d && r1[1] == 1);
    lemma_divide_round_value(r1);
    let r2 = divide_round(r1);
    assert(r2[3] == x - 24 * d && r2[2] == 4 * d && r2[1] == 3);
    lemma_divide_round_value(r2);
    let r3 = divide_round(r2);
    assert(r3[3] == x - 28 * d && r3[2] == 2 * d && r3[1] == 7);
    lemma_divide_round_value(r3);
    let r4 = divide_round(r3);
    assert(r4[3] == x - 30 * d && r4[2] == d && r4[1] == 15);
    lemma_divide_round_value(r4);
}

/// Division by zero is not refused: with zero in register 2 and a dividend
/// that is not negative, every round lets a one into the quotient, and the
/// loop leaves 31 in the result register.
pub proof fn lemma_divided_by_zero(regs: Seq<RegisterContent>)
    requires
        regs.len() == 5,
        regs[2] == 0,
        0 <= regs[3],
    ensures
        divided(regs).len() == 5,
        divided(regs)[3] == 31,
{
    assert(shift_left(0i16, 4) == 0) by {
        lemma_sixteenfold(0i16);
    }
    let r0 = seq![5i16, 0i16, shift_left(regs[2], 4), regs[3], regs[4]];
    lemma_divide_round_value(r0);
    let r1 = divide_round(r0);
    lemma_divide_round_value(r1);
    let r2 = divide_round(r1);
    lemma_divide_round_value(r2);
    let r3 = divide_round(r2);
    lemma_divide_round_value(r3);
    let r4 = divide_round(r3);
    lemma_divide_round_value(r4);
}

} // verus!
