//! Double precision arithmetic in whole numbers.
//!
//! A double of at least one is a multiple of 2^-52, so it is held as the number
//! of such units. The functions here round the way binary64 does: to the nearest
//! value with 53 significant bits, and to the even one of two equally near.

use vstd::prelude::*;
use crate::natural::{divide, lemma_power_positive, power_of_two, Natural};

verus! {

/// One, in units of 2^-52.
pub const ONE: u128 = 0x10_0000_0000_0000;

/// The whole number nearest to `num / den`; the even one of two equally near.
pub open spec fn half_even(num: nat, den: nat) -> nat {
    let quotient = num / den;
    let rest = num % den;
    if 2 * rest < den || (2 * rest == den && quotient % 2 == 0) {
        quotient
    } else {
        quotient + 1
    }
}

/// The double nearest to `num / den`, as a fraction.
///
/// Doubling or halving brings the number into the range from one to two, where
/// 52 binary places are kept. Exponents have no bounds here.
pub open spec fn nearest(num: nat, den: nat) -> (nat, nat)
    decreases
            (if num >= den {
                num - den
            } else {
                2 * den - num
            }),
{
    if num == 0 || den == 0 {
        (0, 1)
    } else if num >= 2 * den {
        let half = nearest(num, 2 * den);
        (2 * half.0, half.1)
    } else if num < den {
        let twice = nearest(2 * num, den);
        (twice.0, 2 * twice.1)
    } else {
        (half_even((num * ONE) as nat, den), ONE as nat)
    }
}

/// Rounding to a whole number adds less than one.
pub proof fn lemma_half_even_bound(num: nat, den: nat)
    requires
        0 < den,
    ensures
        half_even(num, den) * den <= num + den,
        half_even(num, den) <= num / den + 1,
{
    let q = num / den;
    assert(q * den <= num) by (nonlinear_arith)
        requires
            0 < den,
            q == num / den,
    ;
    assert((q + 1) * den == q * den + den) by (nonlinear_arith);
}

/// The nearest whole number is at most half of one away.
pub proof fn lemma_half_even_error(num: nat, den: nat)
    requires
        0 < den,
    ensures
        2 * (half_even(num, den) * den - num) <= den,
        2 * (num - half_even(num, den) * den) <= den,
        num >= den ==> half_even(num, den) >= 1,
{
    let q = num / den;
    let r = num % den;
    vstd::arithmetic::div_mod::lemma_fundamental_div_mod(num as int, den as int);
    assert(den * q == q * den) by (nonlinear_arith);
    assert((q + 1) * den == q * den + den) by (nonlinear_arith);
    if num >= den {
        assert(q >= 1) by (nonlinear_arith)
            requires
                num == q * den + r,
                num >= den,
                r < den,
                q >= 0,
        ;
    }
}

/// Numbers of at least one stay whole multiples of 2^-52 and at least one, and
/// rounding changes them by at most one part in 2^53.
pub proof fn lemma_nearest_large(num: nat, den: nat)
    requires
        0 < den <= num,
    ensures
        nearest(num, den).1 == ONE,
        nearest(num, den).0 >= ONE,
        nearest(num, den).0 * den <= 2 * num * ONE,
        2 * (nearest(num, den).0 * den - num * ONE) <= num,
        2 * (num * ONE - nearest(num, den).0 * den) <= num,
    decreases num - den,
{
    if num >= 2 * den {
        lemma_nearest_large(num, 2 * den);
        let n = nearest(num, 2 * den).0;
        assert((2 * n) * den == n * (2 * den)) by (nonlinear_arith);
    } else {
        let whole = (num * ONE) as nat;
        lemma_half_even_bound(whole, den);
        lemma_half_even_error(whole, den);
        assert(whole / den >= ONE) by (nonlinear_arith)
            requires
                whole == num * ONE,
                num >= den,
                den > 0,
                ONE > 0,
        ;
    }
}

/// Rounding a quotient changes it by at most one part in 2^53.
pub proof fn lemma_quotient_error(units: nat, den: nat)
    requires
        0 < den,
        den * ONE <= units,
    ensures
        quotient_units(units, den) >= ONE,
        2 * ONE * (quotient_units(units, den) * den - units) <= units,
        2 * ONE * (units - quotient_units(units, den) * den) <= units,
{
    let whole = (den * ONE) as nat;
    lemma_nearest_large(units, whole);
    let p = quotient_units(units, den);
    assert(p * whole == p * den * ONE) by (nonlinear_arith)
        requires
            whole == den * ONE,
    ;
}

/// The whole number nearest to `num / den`; the even one of two equally near.
pub fn divide_half_even(num: u128, den: u128) -> (out: u128)
    requires
        0 < den <= u128::MAX / 2,
    ensures
        out == half_even(num as nat, den as nat),
{
    let quotient: u128 = num / den;
    let rest: u128 = num % den;
    proof {
        assert(quotient <= num) by (nonlinear_arith)
            requires
                0 < den,
                quotient == num / den,
        ;
        if 2 * rest >= den {
            assert(quotient + 1 <= u128::MAX) by (nonlinear_arith)
                requires
                    0 < den,
                    quotient == num / den,
                    rest == num % den,
                    2 * rest >= den,
                    num <= u128::MAX,
                    rest < den,
            ;
        }
    }
    if 2 * rest < den || (2 * rest == den && quotient % 2 == 0) {
        quotient
    } else {
        quotient + 1
    }
}

/// A common factor does not change which whole number is nearest.
pub proof fn lemma_half_even_scale(num: nat, den: nat, factor: nat)
    requires
        0 < den,
        0 < factor,
    ensures
        half_even(num * factor, den * factor) == half_even(num, den),
{
    let q = num / den;
    let r = num % den;
    vstd::arithmetic::div_mod::lemma_fundamental_div_mod(num as int, den as int);
    assert(num * factor == q * (den * factor) + r * factor) by (nonlinear_arith)
        requires
            num == den * q + r,
    ;
    assert(0 <= r * factor < den * factor) by (nonlinear_arith)
        requires
            0 <= r < den,
            0 < factor,
    ;
    vstd::arithmetic::div_mod::lemma_fundamental_div_mod_converse(
        (num * factor) as int,
        (den * factor) as int,
        q as int,
        (r * factor) as int,
    );
    assert((2 * r < den) == (2 * (r * factor) < den * factor)) by (nonlinear_arith)
        requires
            0 < factor,
    ;
    assert((2 * r == den) == (2 * (r * factor) == den * factor)) by (nonlinear_arith)
        requires
            0 < factor,
    ;
}

/// A common factor does not change which double is nearest.
pub proof fn lemma_nearest_scale(num: nat, den: nat, factor: nat)
    requires
        0 < den,
        0 < factor,
    ensures
        nearest(num * factor, den * factor) == nearest(num, den),
    decreases
            (if num >= den {
                num - den
            } else {
                2 * den - num
            }),
{
    let n = num * factor;
    let d = den * factor;
    assert(0 < d) by (nonlinear_arith)
        requires
            0 < den,
            0 < factor,
            d == den * factor,
    ;
    assert((n == 0) == (num == 0)) by (nonlinear_arith)
        requires
            0 < factor,
            n == num * factor,
    ;
    assert((n >= 2 * d) == (num >= 2 * den)) by (nonlinear_arith)
        requires
            0 < factor,
            n == num * factor,
            d == den * factor,
    ;
    assert((n < d) == (num < den)) by (nonlinear_arith)
        requires
            0 < factor,
            n == num * factor,
            d == den * factor,
    ;
    if num == 0 {
    } else if num >= 2 * den {
        lemma_nearest_scale(num, 2 * den, factor);
        assert((2 * den) * factor == 2 * d) by (nonlinear_arith)
            requires
                d == den * factor,
        ;
    } else if num < den {
        lemma_nearest_scale(2 * num, den, factor);
        assert((2 * num) * factor == 2 * n) by (nonlinear_arith)
            requires
                n == num * factor,
        ;
    } else {
        let one = ONE as nat;
        lemma_half_even_scale(num * one, den, factor);
        assert((num * one) * factor == n * one) by (nonlinear_arith)
            requires
                n == num * factor,
        ;
    }
}

proof fn lemma_power_sum(n: nat, m: nat)
    ensures
        power_of_two(n + m) == power_of_two(n) * power_of_two(m),
    decreases m,
{
    let a = power_of_two(n);
    if m == 0 {
        assert(power_of_two(0) == 1);
        assert(a * 1 == a);
    } else {
        let less = (m - 1) as nat;
        lemma_power_sum(n, less);
        let b = power_of_two(less);
        assert(power_of_two(m) == 2 * b);
        assert((n + m - 1) as nat == n + less);
        assert(power_of_two(n + m) == 2 * power_of_two(n + less));
        assert(2 * (a * b) == a * (2 * b)) by (nonlinear_arith);
    }
}

proof fn lemma_powers()
    ensures
        power_of_two(0) == 1,
        power_of_two(52) == ONE,
        power_of_two(53) == 2 * ONE,
{
    reveal_with_fuel(power_of_two, 54);
}

/// Halving keeps a whole number of up to 53 bits whole, in units of 2^-52.
proof fn lemma_halved_whole_numbers(num: nat, k: nat)
    requires
        k <= 52,
        power_of_two(k) <= num < power_of_two(53),
    ensures
        nearest(num, power_of_two(k)) == (num * power_of_two((52 - k) as nat), ONE as nat),
    decreases 52 - k,
{
    let den = power_of_two(k);
    let rest = power_of_two((52 - k) as nat);
    let one = ONE as nat;
    lemma_power_positive(k);
    lemma_power_sum(k, (52 - k) as nat);
    lemma_powers();
    assert(den * rest == one);
    if num < 2 * den {
        let whole = num * rest;
        assert(num * one == whole * den) by (nonlinear_arith)
            requires
                den * rest == one,
                whole == num * rest,
        ;
        vstd::arithmetic::div_mod::lemma_fundamental_div_mod_converse(
            (num * one) as int,
            den as int,
            whole as int,
            0,
        );
    } else {
        assert(power_of_two(k + 1) == 2 * den);
        lemma_halved_whole_numbers(num, k + 1);
        let less = power_of_two((52 - k - 1) as nat);
        assert(2 * (num * less) == num * (2 * less)) by (nonlinear_arith);
    }
}

/// A whole number of up to 53 bits is a double.
pub proof fn lemma_whole_numbers_are_doubles(num: nat)
    requires
        0 < num < 0x20_0000_0000_0000,
    ensures
        nearest(num, 1) == (num * ONE as nat, ONE as nat),
{
    lemma_powers();
    lemma_halved_whole_numbers(num, 0);
}

/// The double that stands for `units / den`, rounded, both in units of 2^-52 and
/// at least one.
pub open spec fn quotient_units(units: nat, den: nat) -> nat {
    nearest(units, (den * ONE) as nat).0
}

/// Divides `units` by `den`, rounding to a double.
pub fn divide_units(units: u128, den: u128) -> (out: u128)
    requires
        0 < den,
        den * ONE <= units < 0x40_0000_0000_0000_0000_0000_0000_0000,
    ensures
        out == quotient_units(units as nat, den as nat),
        out * den <= 2 * units,
    decreases units - den,
{
    let ghost whole = (den * ONE) as nat;
    proof {
        lemma_nearest_large(units as nat, whole);
        let n = nearest(units as nat, whole).0;
        assert(n * den <= 2 * units) by (nonlinear_arith)
            requires
                n * whole <= 2 * units * ONE,
                whole == den * ONE,
                ONE > 0,
        ;
    }
    if units >= 2 * den * ONE {
        let half: u128 = divide_units(units, 2 * den);
        proof {
            assert((2 * den) * ONE == 2 * whole);
            assert(half * (2 * den) >= half * 2) by (nonlinear_arith)
                requires
                    den >= 1,
                    half >= 0,
            ;
        }
        2 * half
    } else {
        proof {
            lemma_half_even_scale(units as nat, den as nat, ONE as nat);
        }
        divide_half_even(units, den)
    }
}

/// The whole number nearest to `num / den`; the larger one of two equally near.
pub open spec fn half_up(num: nat, den: nat) -> nat {
    if 2 * (num % den) >= den {
        num / den + 1
    } else {
        num / den
    }
}

/// `x` doubled as often as it takes to get from `from` to `to`.
fn doubled_along(x: Natural, from: Natural, to: &Natural, Ghost(times): Ghost<nat>) -> (out: Natural)
    requires
        0 < from@,
        to@ == from@ * power_of_two(times),
    ensures
        out@ == x@ * power_of_two(times),
{
    let ghost start = x@;
    let ghost base = from@;
    let mut out = x;
    let mut reached = from;
    let ghost mut done: nat = 0;
    proof {
        assert(start * 1 == start) by (nonlinear_arith);
        assert(base * 1 == base) by (nonlinear_arith);
    }
    while !reached.at_least(to)
        invariant
            0 < base,
            base <= reached@,
            reached@ == base * power_of_two(done),
            to@ == base * power_of_two(times),
            out@ == start * power_of_two(done),
            done <= times,
        decreases to@ - reached@,
    {
        out = out.times_plus(2, 0);
        reached = reached.times_plus(2, 0);
        proof {
            let p = power_of_two(done);
            assert((start * p) * 2 == start * (2 * p)) by (nonlinear_arith);
            assert((base * p) * 2 == base * (2 * p)) by (nonlinear_arith);
            assert(power_of_two(done + 1) == 2 * p);
            if done >= times {
                lemma_power_grows_strictly(times, done);
                assert(base * power_of_two(times) <= base * p) by (nonlinear_arith)
                    requires
                        power_of_two(times) <= p,
                ;
            }
            done = done + 1;
            lemma_power_grows_strictly(done, times);
            assert(base * power_of_two(done) <= base * power_of_two(times)) by (nonlinear_arith)
                requires
                    power_of_two(done) <= power_of_two(times),
            ;
        }
    }
    proof {
        if done < times {
            lemma_power_grows_strictly(done, times);
            assert(base * power_of_two(done) < base * power_of_two(times)) by (nonlinear_arith)
                requires
                    power_of_two(done) < power_of_two(times),
                    0 < base,
            ;
        }
    }
    out
}

proof fn lemma_power_grows_strictly(n: nat, m: nat)
    requires
        n <= m,
    ensures
        power_of_two(n) <= power_of_two(m),
        n < m ==> power_of_two(n) < power_of_two(m),
    decreases m,
{
    if n < m {
        lemma_power_grows_strictly(n, (m - 1) as nat);
        lemma_power_positive((m - 1) as nat);
    }
}

/// The significand of `num / den`, which lies between one and two.
fn significand(num: &Natural, den: &Natural) -> (out: Natural)
    requires
        0 < den@ <= num@ < 2 * den@,
    ensures
        out@ == half_even((num@ * ONE) as nat, den@),
{
    let units = num.times_plus(0x400_0000, 0).times_plus(0x400_0000, 0);
    proof {
        assert(units@ == num@ * ONE) by (nonlinear_arith)
            requires
                units@ == num@ * 0x400_0000 * 0x400_0000,
                ONE == 0x10_0000_0000_0000,
        ;
        reveal_with_fuel(power_of_two, 54);
        assert(power_of_two(53) == 0x20_0000_0000_0000);
        assert(units@ < den@ * 0x20_0000_0000_0000) by (nonlinear_arith)
            requires
                units@ == num@ * 0x10_0000_0000_0000,
                num@ < 2 * den@,
        ;
    }
    match divide(&units, den, 53) {
        Some((quotient, rest)) => {
            let twice = rest.times_plus(2, 0);
            let mut whole: u64 = quotient;
            if twice.at_least(den) && !(den.at_least(&twice) && quotient % 2 == 0) {
                whole = whole + 1;
            }
            let high = Natural::new((whole / 0x1_0000_0000) as u32);
            high.times_plus(0x1_0000, 0).times_plus(0x1_0000, (whole % 0x1_0000_0000) as u32)
        },
        None => {
            assert(false);
            Natural::new(0)
        },
    }
}

/// The double nearest to `num / den`, as a fraction.
pub fn nearest_double(num: Natural, den: Natural) -> (out: (Natural, Natural))
    requires
        0 < den@,
    ensures
        (out.0@, out.1@) == nearest(num@, den@),
        0 < out.1@,
{
    if !num.at_least(&Natural::new(1)) {
        return (Natural::new(0), Natural::new(1));
    }
    let one = Natural::new(0x400_0000).times_plus(0x400_0000, 0);
    let ghost whole = nearest(num@, den@);
    let ghost mut times: nat = 0;
    if num.at_least(&den) {
        let mut scaled = den.copy();
        let mut twice = den.times_plus(2, 0);
        proof {
            assert(den@ * 1 == den@) by (nonlinear_arith);
            assert(1 * nearest(num@, den@).0 == nearest(num@, den@).0) by (nonlinear_arith);
        }
        while num.at_least(&twice)
            invariant
                0 < scaled@ <= num@,
                twice@ == 2 * scaled@,
                scaled@ == den@ * power_of_two(times),
                whole.0 == power_of_two(times) * nearest(num@, scaled@).0,
                whole.1 == nearest(num@, scaled@).1,
            decreases num@ - scaled@,
        {
            proof {
                let p = power_of_two(times);
                let n = nearest(num@, twice@).0;
                assert(nearest(num@, scaled@) == (2 * n, nearest(num@, twice@).1));
                assert(p * (2 * n) == (2 * p) * n) by (nonlinear_arith);
                assert(den@ * (2 * p) == 2 * (den@ * p)) by (nonlinear_arith);
                assert(power_of_two(times + 1) == 2 * p);
                times = times + 1;
            }
            scaled = twice;
            twice = scaled.times_plus(2, 0);
        }
        let m = significand(&num, &scaled);
        proof {
            assert(m@ * power_of_two(times) == power_of_two(times) * m@) by (nonlinear_arith);
        }
        (doubled_along(m, den, &scaled, Ghost(times)), one)
    } else {
        let mut scaled = num.copy();
        proof {
            assert(num@ * 1 == num@) by (nonlinear_arith);
            assert(1 * whole.1 == whole.1) by (nonlinear_arith);
        }
        while !scaled.at_least(&den)
            invariant
                0 < scaled@ < 2 * den@,
                scaled@ == num@ * power_of_two(times),
                whole.0 == nearest(scaled@, den@).0,
                whole.1 == power_of_two(times) * nearest(scaled@, den@).1,
            decreases 2 * den@ - scaled@,
        {
            let twice = scaled.times_plus(2, 0);
            proof {
                let p = power_of_two(times);
                let d = nearest(twice@, den@).1;
                assert(nearest(scaled@, den@) == (nearest(twice@, den@).0, 2 * d));
                assert(p * (2 * d) == (2 * p) * d) by (nonlinear_arith);
                assert((num@ * p) * 2 == num@ * (2 * p)) by (nonlinear_arith);
                assert(power_of_two(times + 1) == 2 * p);
                times = times + 1;
            }
            scaled = twice;
        }
        let m = significand(&scaled, &den);
        proof {
            lemma_power_positive(times);
            assert(ONE * power_of_two(times) == power_of_two(times) * ONE && ONE * power_of_two(
                times,
            ) > 0) by (nonlinear_arith)
                requires
                    ONE > 0,
                    power_of_two(times) >= 1,
            ;
        }
        (m, doubled_along(one, num, &scaled, Ghost(times)))
    }
}

/// The whole number nearest to `num / den`, at most `u64::MAX`; the larger one
/// of two equally near.
pub fn round_to_u64(num: &Natural, den: &Natural) -> (out: u64)
    requires
        0 < den@,
    ensures
        out == if half_up(num@, den@) <= u64::MAX {
            half_up(num@, den@)
        } else {
            u64::MAX as nat
        },
{
    proof {
        reveal_with_fuel(power_of_two, 65);
        assert(power_of_two(64) == 0x1_0000_0000_0000_0000);
    }
    match divide(num, den, 64) {
        Some((quotient, rest)) => {
            if rest.times_plus(2, 0).at_least(den) {
                if quotient < u64::MAX {
                    quotient + 1
                } else {
                    u64::MAX
                }
            } else {
                quotient
            }
        },
        None => {
            proof {
                let d = den@;
                let q = num@ / d;
                vstd::arithmetic::div_mod::lemma_fundamental_div_mod(num@ as int, d as int);
                assert(q >= 0x1_0000_0000_0000_0000) by (nonlinear_arith)
                    requires
                        num@ == d * q + num@ % d,
                        num@ % d < d,
                        num@ >= d * 0x1_0000_0000_0000_0000,
                        0 < d,
                ;
            }
            u64::MAX
        },
    }
}

} // verus!
