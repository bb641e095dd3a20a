//! Numbers as an index holds them: in their numeric order, be they integers or
//! double-precision numbers.
//!
//! All numbers have one rank. Up to 2^53 it counts the double-precision numbers, of
//! which the integers are some; from there up to 2^64 it counts the integers, of which
//! the double-precision numbers are some; above it counts the double-precision numbers.

use vstd::prelude::*;
use vstd::arithmetic::power2::{lemma_pow2_adds, lemma_pow2_pos, lemma_pow2_strictly_increases, pow2};

verus! {

/// Half of the numbers of 64 bits: the sign of a double-precision number.
pub const TOP: u64 = 0x8000_0000_0000_0000;

/// How many fractions there are for each exponent: 2^52.
pub const FRACTION: u64 = 0x10_0000_0000_0000;

/// From here on every double-precision number is an integer: 2^53.
pub const WHOLE: u64 = 0x20_0000_0000_0000;

/// The bits of the double-precision number 2^53.
pub const WHOLE_BITS: u64 = 0x4340_0000_0000_0000;

/// The bits of the double-precision number 2^64.
pub const HUGE_BITS: u64 = 0x43F0_0000_0000_0000;

/// How many integers there are from 2^53 up to 2^64.
pub const BETWEEN: u64 = 0xFFE0_0000_0000_0000;

/// The rank of zero. No rank is greater.
pub const ZERO_RANK: u128 = 0x1_7f2f_ffff_ffff_ffff;

/// The magnitude of a double-precision number without a sign, given by its bits,
/// times 2^1074.
pub open spec fn magnitude(bits: nat) -> nat {
    let exponent = bits / FRACTION as nat;
    let fraction = bits % FRACTION as nat;
    if exponent == 0 {
        fraction
    } else {
        (FRACTION as nat + fraction) * pow2((exponent - 1) as nat)
    }
}

/// The value of a double-precision number, given by its bits, times 2^1074.
pub open spec fn float_value(bits: u64) -> int {
    if bits >= TOP {
        -(magnitude((bits - TOP) as nat) as int)
    } else {
        magnitude(bits as nat) as int
    }
}

/// The value of an integer, times 2^1074.
pub open spec fn integer_value(n: int) -> int {
    n * pow2(1074)
}

/// How many binary digits a number has.
pub open spec fn bit_len(n: nat) -> nat
    decreases n,
{
    if n == 0 {
        0
    } else {
        1 + bit_len(n / 2)
    }
}

/// The bits of an integer below 2^53 as a double-precision number.
pub open spec fn double_bits(n: nat) -> nat {
    let k = bit_len(n);
    if n == 0 {
        0
    } else {
        ((k + 1022) * FRACTION + n * pow2((53 - k) as nat) - FRACTION) as nat
    }
}

/// The integer that a double-precision number from 2^53 up to 2^64 is, given by its
/// bits.
pub open spec fn whole(bits: nat) -> nat {
    ((FRACTION + bits % FRACTION as nat) * pow2((bits / FRACTION as nat - 1075) as nat)) as nat
}

/// The rank of the magnitude of a double-precision number, given by its bits.
pub open spec fn float_rank(bits: nat) -> nat {
    if bits < WHOLE_BITS {
        bits
    } else if bits < HUGE_BITS {
        (WHOLE_BITS + whole(bits) - WHOLE) as nat
    } else {
        (WHOLE_BITS + BETWEEN + bits - HUGE_BITS) as nat
    }
}

/// The rank of the magnitude of an integer.
pub open spec fn integer_rank(n: nat) -> nat {
    if n < WHOLE {
        double_bits(n)
    } else {
        (WHOLE_BITS + n - WHOLE) as nat
    }
}

/// The rank of a number, given by that of its magnitude.
pub open spec fn signed_rank(negative: bool, rank: nat) -> nat {
    if negative {
        (ZERO_RANK - rank) as nat
    } else {
        (ZERO_RANK + rank) as nat
    }
}

/// The rank of an integer.
pub open spec fn rank_of_integer(n: int) -> nat {
    if n < 0 {
        signed_rank(true, integer_rank((-n) as nat))
    } else {
        signed_rank(false, integer_rank(n as nat))
    }
}

/// The rank of a double-precision number, given by its bits.
pub open spec fn rank_of_float(bits: u64) -> nat {
    if bits >= TOP {
        signed_rank(true, float_rank((bits - TOP) as nat))
    } else {
        signed_rank(false, float_rank(bits as nat))
    }
}

/// The value of the magnitude with a rank, times 2^1074.
spec fn ranked(rank: nat) -> nat {
    if rank < WHOLE_BITS {
        magnitude(rank)
    } else if rank < WHOLE_BITS + BETWEEN {
        ((rank - WHOLE_BITS + WHOLE) * pow2(1074)) as nat
    } else {
        magnitude((rank - WHOLE_BITS - BETWEEN + HUGE_BITS) as nat)
    }
}

/// From one double-precision number to the next.
proof fn lemma_step(bits: nat)
    ensures
        magnitude(bits + 1) == magnitude(bits) + (if bits < FRACTION {
            1
        } else {
            pow2((bits / FRACTION as nat - 1) as nat)
        }),
        magnitude(bits) < magnitude(bits + 1),
{
    let f = FRACTION as nat;
    let e = bits / f;
    let m = bits % f;
    vstd::arithmetic::div_mod::lemma_fundamental_div_mod(bits as int, f as int);
    lemma_pow2_pos((e - 1) as nat);
    lemma_pow2_pos(e);
    if m + 1 < f {
        vstd::arithmetic::div_mod::lemma_fundamental_div_mod_converse(
            (bits + 1) as int,
            f as int,
            e as int,
            (m + 1) as int,
        );
        if e > 0 {
            let p = pow2((e - 1) as nat) as int;
            assert((f + m + 1) * p == (f + m) * p + p) by (nonlinear_arith);
        }
    } else {
        assert((bits + 1) as int == (e + 1) * f) by (nonlinear_arith)
            requires
                bits == f * e + m,
                m + 1 == f,
        ;
        vstd::arithmetic::div_mod::lemma_fundamental_div_mod_converse(
            (bits + 1) as int,
            f as int,
            (e + 1) as int,
            0,
        );
        if e > 0 {
            let p = pow2((e - 1) as nat) as int;
            vstd::arithmetic::power2::lemma_pow2_unfold(e);
            assert(f * (2 * p) == (f + m) * p + p) by (nonlinear_arith)
                requires
                    m + 1 == f,
            ;
        } else {
            vstd::arithmetic::power2::lemma2_to64();
            assert(f * pow2(0) == f) by (nonlinear_arith)
                requires
                    pow2(0) == 1,
            ;
        }
    }
}

/// Double-precision numbers without a sign stand in the order of their bits.
proof fn lemma_magnitudes(a: nat, b: nat)
    requires
        a < b,
    ensures
        magnitude(a) < magnitude(b),
    decreases b - a,
{
    lemma_step((b - 1) as nat);
    if a + 1 < b {
        lemma_magnitudes(a, (b - 1) as nat);
    }
}

/// A number with `k` binary digits is below 2^k and not below 2^(k-1).
proof fn lemma_bit_len(n: nat)
    ensures
        n < pow2(bit_len(n)),
        n > 0 ==> bit_len(n) > 0 && pow2((bit_len(n) - 1) as nat) <= n,
    decreases n,
{
    vstd::arithmetic::power2::lemma2_to64();
    if n > 0 {
        lemma_bit_len(n / 2);
        vstd::arithmetic::power2::lemma_pow2_unfold(bit_len(n));
        if n >= 2 {
            vstd::arithmetic::power2::lemma_pow2_unfold((bit_len(n) - 1) as nat);
        }
    }
}

/// The double-precision numbers 2^53 and 2^64.
proof fn lemma_corners()
    ensures
        magnitude(WHOLE_BITS as nat) == WHOLE * pow2(1074),
        magnitude(HUGE_BITS as nat) == (WHOLE + BETWEEN) * pow2(1074),
{
    vstd::arithmetic::power2::lemma2_to64();
    lemma_pow2_adds(1, 1074);
    lemma_pow2_adds(12, 1074);
    let p = pow2(1074) as int;
    assert(WHOLE_BITS as nat / FRACTION as nat == 1076 && WHOLE_BITS as nat % FRACTION as nat == 0);
    assert(HUGE_BITS as nat / FRACTION as nat == 1087 && HUGE_BITS as nat % FRACTION as nat == 0);
    assert(0x10_0000_0000_0000int * (2 * p) == 0x20_0000_0000_0000int * p) by (nonlinear_arith);
    assert(0x10_0000_0000_0000int * (4096 * p) == 0x1_0000_0000_0000_0000int * p) by (nonlinear_arith);
}

/// The next rank is that of a greater magnitude.
proof fn lemma_next_rank(rank: nat)
    ensures
        ranked(rank) < ranked(rank + 1),
{
    let p = pow2(1074) as int;
    lemma_pow2_pos(1074);
    lemma_corners();
    if rank + 1 <= WHOLE_BITS {
        lemma_step(rank);
        if rank + 1 == WHOLE_BITS {
            assert(ranked(rank + 1) == WHOLE * p);
        }
    } else if rank < WHOLE_BITS + BETWEEN {
        let x = rank - WHOLE_BITS + WHOLE;
        assert((x + 1) * p == x * p + p) by (nonlinear_arith);
        if rank + 1 == WHOLE_BITS + BETWEEN {
            assert(ranked(rank + 1) == magnitude(HUGE_BITS as nat));
        }
    } else {
        lemma_step((rank - WHOLE_BITS - BETWEEN + HUGE_BITS) as nat);
    }
}

/// Greater ranks are those of greater magnitudes.
proof fn lemma_ranks(a: nat, b: nat)
    requires
        a < b,
    ensures
        ranked(a) < ranked(b),
    decreases b - a,
{
    lemma_next_rank((b - 1) as nat);
    if a + 1 < b {
        lemma_ranks(a, (b - 1) as nat);
    }
}

/// The rank of a double-precision number is that of its magnitude.
proof fn lemma_float_ranked(bits: nat)
    requires
        bits < TOP,
    ensures
        ranked(float_rank(bits)) == magnitude(bits),
        float_rank(bits) <= ZERO_RANK,
{
    if WHOLE_BITS <= bits < HUGE_BITS {
        lemma_whole(bits);
        let p = pow2(1074) as int;
        assert(float_rank(bits) - WHOLE_BITS + WHOLE == whole(bits));
    }
}

/// A double-precision number from 2^53 up to 2^64 is an integer in that range.
proof fn lemma_whole(bits: nat)
    requires
        WHOLE_BITS <= bits < HUGE_BITS,
    ensures
        WHOLE <= whole(bits) < WHOLE + BETWEEN,
        magnitude(bits) == whole(bits) * pow2(1074),
        1 <= bits / FRACTION as nat - 1075 <= 11,
{
    let f = FRACTION as nat;
    let e = bits / f;
    let m = bits % f;
    let s = (e - 1075) as nat;
    let p = pow2(1074) as int;
    let q = pow2(s) as int;
    let w = whole(bits) as int;
    vstd::arithmetic::power2::lemma2_to64();
    lemma_pow2_pos(1074);
    assert(1076 <= e <= 1086);
    lemma_pow2_adds(s, 1074);
    assert(s + 1074 == e - 1);
    assert((f + m) * (q * p) == ((f + m) * q) * p) by (nonlinear_arith);
    assert(magnitude(bits) == w * p);
    lemma_corners();
    if bits > WHOLE_BITS {
        lemma_magnitudes(WHOLE_BITS as nat, bits);
    }
    lemma_magnitudes(bits, HUGE_BITS as nat);
    assert(WHOLE <= w < WHOLE + BETWEEN) by (nonlinear_arith)
        requires
            WHOLE * p <= w * p < (WHOLE + BETWEEN) * p,
            p > 0,
    ;
}

/// The rank of an integer is that of its magnitude.
proof fn lemma_integer_ranked(n: nat)
    requires
        n <= u64::MAX,
    ensures
        ranked(integer_rank(n)) == n * pow2(1074),
        integer_rank(n) <= ZERO_RANK,
{
    let p = pow2(1074) as int;
    lemma_pow2_pos(1074);
    if n == 0 {
        assert(0 * p == 0) by (nonlinear_arith);
        assert(magnitude(0) == 0);
    } else if n < WHOLE {
        let b = double_bits(n);
        lemma_double(n);
        lemma_corners();
        assert(b < WHOLE_BITS) by {
            if b >= WHOLE_BITS {
                if b > WHOLE_BITS {
                    lemma_magnitudes(WHOLE_BITS as nat, b);
                }
                assert(n * p < WHOLE * p) by (nonlinear_arith)
                    requires
                        n < WHOLE,
                        p > 0,
                ;
            }
        }
    }
}

/// An integer below 2^53 is a double-precision number.
proof fn lemma_double(n: nat)
    requires
        0 < n < WHOLE,
    ensures
        magnitude(double_bits(n)) == n * pow2(1074),
        0 < bit_len(n) <= 53,
        FRACTION <= n * pow2((53 - bit_len(n)) as nat) < 2 * FRACTION,
{
    let f = FRACTION as nat;
    let k = bit_len(n);
    lemma_bit_len(n);
    vstd::arithmetic::power2::lemma2_to64();
    vstd::arithmetic::power2::lemma2_to64_rest();
    if k > 53 {
        if k > 54 {
            lemma_pow2_strictly_increases(53, (k - 1) as nat);
        }
    }
    let s = (53 - k) as nat;
    let q = pow2(s) as int;
    let u = pow2((k + 1021) as nat) as int;
    let p = pow2(1074) as int;
    let m = (n * pow2(s)) as nat;
    lemma_pow2_pos(s);
    lemma_pow2_adds((k - 1) as nat, s);
    lemma_pow2_adds(k, s);
    assert((k - 1) + s == 52);
    assert(k + s == 53);
    let low = pow2((k - 1) as nat) as int;
    let high = pow2(k) as int;
    assert(low * q <= n * q < high * q) by (nonlinear_arith)
        requires
            low <= n < high,
            q > 0,
    ;
    let e = (k + 1022) as nat;
    let b = double_bits(n);
    vstd::arithmetic::div_mod::lemma_fundamental_div_mod_converse(
        b as int,
        f as int,
        e as int,
        m - f,
    );
    assert(magnitude(b) == m * pow2((e - 1) as nat));
    lemma_pow2_adds(s, (k + 1021) as nat);
    assert(s + (k + 1021) == 1074);
    assert((n * q) * u == n * p) by (nonlinear_arith)
        requires
            q * u == p,
    ;
}

/// The value of a number is that of its rank.
spec fn stands_for(value: int, rank: nat) -> bool {
    exists|negative: bool, r: nat|
        r <= ZERO_RANK && rank == #[trigger] signed_rank(negative, r) && value == (if negative {
            -(ranked(r) as int)
        } else {
            ranked(r) as int
        })
}

/// Numbers stand in the order of their ranks.
proof fn lemma_stands(x: int, a: nat, y: int, b: nat)
    requires
        stands_for(x, a),
        stands_for(y, b),
        x < y,
    ensures
        a < b,
{
    let (m, r) = choose|negative: bool, r: nat|
        r <= ZERO_RANK && a == #[trigger] signed_rank(negative, r) && x == (if negative {
            -(ranked(r) as int)
        } else {
            ranked(r) as int
        });
    let (n, s) = choose|negative: bool, s: nat|
        s <= ZERO_RANK && b == #[trigger] signed_rank(negative, s) && y == (if negative {
            -(ranked(s) as int)
        } else {
            ranked(s) as int
        });
    if m && n {
        if r < s {
            lemma_ranks(r, s);
        }
    } else if !m && !n {
        if s < r {
            lemma_ranks(s, r);
        }
    } else if m {
        if r == 0 && s == 0 {
            assert(ranked(0) == 0);
        }
    }
}

proof fn lemma_float_stands(bits: u64)
    ensures
        stands_for(float_value(bits), rank_of_float(bits)),
        rank_of_float(bits) <= 2 * ZERO_RANK,
{
    let negative = bits >= TOP;
    let b = if negative {
        (bits - TOP) as nat
    } else {
        bits as nat
    };
    lemma_float_ranked(b);
    assert(rank_of_float(bits) == signed_rank(negative, float_rank(b)));
}

proof fn lemma_integer_stands(n: int)
    requires
        i64::MIN <= n <= u64::MAX,
    ensures
        stands_for(integer_value(n), rank_of_integer(n)),
        rank_of_integer(n) <= 2 * ZERO_RANK,
{
    let negative = n < 0;
    let m = if negative {
        (-n) as nat
    } else {
        n as nat
    };
    lemma_integer_ranked(m);
    assert(integer_value(-n) == -integer_value(n)) by (nonlinear_arith);
    assert(rank_of_integer(n) == signed_rank(negative, integer_rank(m)));
}

/// No rank of a number is too great.
pub proof fn lemma_ranks_fit(n: int, bits: u64)
    ensures
        i64::MIN <= n <= u64::MAX ==> rank_of_integer(n) <= 2 * ZERO_RANK,
        rank_of_float(bits) <= 2 * ZERO_RANK,
{
    if i64::MIN <= n <= u64::MAX {
        lemma_integer_stands(n);
    }
    lemma_float_stands(bits);
}

/// Integers stand in the order of their ranks.
pub proof fn lemma_integers(m: int, n: int)
    requires
        i64::MIN <= m <= u64::MAX,
        i64::MIN <= n <= u64::MAX,
        integer_value(m) < integer_value(n),
    ensures
        rank_of_integer(m) < rank_of_integer(n),
{
    lemma_integer_stands(m);
    lemma_integer_stands(n);
    lemma_stands(integer_value(m), rank_of_integer(m), integer_value(n), rank_of_integer(n));
}

/// An integer and a double-precision number stand in the order of their ranks.
pub proof fn lemma_mixed(n: int, bits: u64)
    requires
        i64::MIN <= n <= u64::MAX,
    ensures
        integer_value(n) < float_value(bits) ==> rank_of_integer(n) < rank_of_float(bits),
        float_value(bits) < integer_value(n) ==> rank_of_float(bits) < rank_of_integer(n),
{
    lemma_integer_stands(n);
    lemma_float_stands(bits);
    if integer_value(n) < float_value(bits) {
        lemma_stands(integer_value(n), rank_of_integer(n), float_value(bits), rank_of_float(bits));
    }
    if float_value(bits) < integer_value(n) {
        lemma_stands(float_value(bits), rank_of_float(bits), integer_value(n), rank_of_integer(n));
    }
}

/// Double-precision numbers stand in the order of their ranks.
pub proof fn lemma_floats(a: u64, b: u64)
    requires
        float_value(a) < float_value(b),
    ensures
        rank_of_float(a) < rank_of_float(b),
{
    lemma_float_stands(a);
    lemma_float_stands(b);
    lemma_stands(float_value(a), rank_of_float(a), float_value(b), rank_of_float(b));
}

/// The power of two.
fn power(s: u64) -> (r: u64)
    requires
        s < 64,
    ensures
        r == pow2(s as nat),
{
    let mut p: u64 = 1;
    let mut i: u64 = 0;
    proof {
        vstd::arithmetic::power2::lemma2_to64();
    }
    while i < s
        invariant
            i <= s < 64,
            p == pow2(i as nat),
        decreases s - i,
    {
        proof {
            vstd::arithmetic::power2::lemma_pow2_unfold((i + 1) as nat);
            vstd::arithmetic::power2::lemma2_to64_rest();
            if i + 1 < 63 {
                lemma_pow2_strictly_increases((i + 1) as nat, 63);
            }
        }
        p = p * 2;
        i += 1;
    }
    p
}

/// How many binary digits a number has.
fn count_digits(n: u64) -> (r: u64)
    ensures
        r == bit_len(n as nat),
{
    let mut k: u64 = 0;
    let mut m: u64 = n;
    while m > 0
        invariant
            k + bit_len(m as nat) == bit_len(n as nat),
            k + m <= n,
        decreases m,
    {
        m = m / 2;
        k += 1;
    }
    k
}

/// The rank of the magnitude of an integer.
fn rank_integer(n: u64) -> (r: u128)
    ensures
        r == integer_rank(n as nat),
        r <= ZERO_RANK,
{
    proof {
        lemma_integer_ranked(n as nat);
    }
    if n >= WHOLE {
        return WHOLE_BITS as u128 + (n - WHOLE) as u128;
    }
    if n == 0 {
        return 0;
    }
    proof {
        lemma_double(n as nat);
    }
    let k: u64 = count_digits(n);
    let p: u64 = power(53 - k);
    assert(n * p == n as nat * pow2((53 - k) as nat));
    let start: u64 = (k + 1022) * FRACTION;
    (start + (n * p - FRACTION)) as u128
}

/// The rank of the magnitude of a double-precision number, given by its bits.
fn rank_magnitude(bits: u64) -> (r: u128)
    requires
        bits < TOP,
    ensures
        r == float_rank(bits as nat),
        r <= ZERO_RANK,
{
    proof {
        lemma_float_ranked(bits as nat);
    }
    if bits < WHOLE_BITS {
        return bits as u128;
    }
    if bits >= HUGE_BITS {
        return WHOLE_BITS as u128 + BETWEEN as u128 + (bits - HUGE_BITS) as u128;
    }
    proof {
        lemma_whole(bits as nat);
    }
    let p: u64 = power(bits / FRACTION - 1075);
    let m: u64 = FRACTION + bits % FRACTION;
    assert(m * p == whole(bits as nat));
    WHOLE_BITS as u128 + (m * p - WHOLE) as u128
}

/// The rank of an integer, given by its sign and magnitude.
pub fn integer_place(negative: bool, magnitude: u64) -> (r: u128)
    requires
        negative ==> magnitude > 0,
    ensures
        r == rank_of_integer(if negative {
            -(magnitude as int)
        } else {
            magnitude as int
        }),
        r <= 2 * ZERO_RANK,
{
    let rank: u128 = rank_integer(magnitude);
    if negative {
        ZERO_RANK - rank
    } else {
        ZERO_RANK + rank
    }
}

/// The rank of a double-precision number, given by its bits.
pub fn float_place(bits: u64) -> (r: u128)
    ensures
        r == rank_of_float(bits),
        r <= 2 * ZERO_RANK,
{
    if bits >= TOP {
        ZERO_RANK - rank_magnitude(bits - TOP)
    } else {
        ZERO_RANK + rank_magnitude(bits)
    }
}

/// Integers have their ranks in their order.
pub proof fn law_integers_ordered(m: int, n: int)
    requires
        i64::MIN <= m < n <= u64::MAX,
    ensures
        rank_of_integer(m) < rank_of_integer(n),
{
    let p = pow2(1074) as int;
    lemma_pow2_pos(1074);
    assert(m * p < n * p) by (nonlinear_arith)
        requires
            m < n,
            p > 0,
    ;
    lemma_integers(m, n);
}

/// Of double-precision numbers above zero, those with greater bits have greater ranks; below
/// zero it is the other way round, and those below zero have smaller ranks than those above.
pub proof fn law_floats_ordered(a: u64, b: u64, x: u128, y: u128, p: u128, q: u128)
    requires
        0 < a < b < TOP,
        call_ensures(float_place, (a,), x),
        call_ensures(float_place, (b,), y),
        call_ensures(float_place, ((a + TOP) as u64,), p),
        call_ensures(float_place, ((b + TOP) as u64,), q),
    ensures
        x < y,
        q < p,
        p < x,
{
    lemma_magnitudes(a as nat, b as nat);
    lemma_magnitudes(0, a as nat);
    lemma_floats(a, b);
    lemma_floats((b + TOP) as u64, (a + TOP) as u64);
    lemma_floats((a + TOP) as u64, a);
}

} // verus!
