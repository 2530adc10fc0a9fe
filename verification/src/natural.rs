//! Natural numbers of any size, as little-endian digits to the base 2^32.

use vstd::prelude::*;

verus! {

pub const BASE: u64 = 0x1_0000_0000;

/// What a one stands for in position `i`.
pub open spec fn weight(i: nat) -> nat
    decreases i,
{
    if i == 0 {
        1
    } else {
        (BASE * weight((i - 1) as nat)) as nat
    }
}

/// The number that `digits` stand for, the least significant one first.
pub open spec fn number(digits: Seq<u32>) -> nat
    decreases digits.len(),
{
    if digits.len() == 0 {
        0
    } else {
        (number(digits.drop_last()) + digits.last() * weight((digits.len() - 1) as nat)) as nat
    }
}

/// A natural number.
#[derive(Debug)]
pub struct Natural {
    digits: Vec<u32>,
}

impl View for Natural {
    type V = nat;

    closed spec fn view(&self) -> nat {
        number(self.digits@)
    }
}

proof fn lemma_weight_step(i: nat)
    ensures
        weight(i + 1) == BASE * weight(i),
        weight(i) > 0,
    decreases i,
{
    if i > 0 {
        lemma_weight_step((i - 1) as nat);
        assert(BASE * weight((i - 1) as nat) > 0) by (nonlinear_arith)
            requires
                weight((i - 1) as nat) > 0,
        ;
    }
}

proof fn lemma_number_push(digits: Seq<u32>, d: u32)
    ensures
        number(digits.push(d)) == number(digits) + d * weight(digits.len()),
{
    assert(digits.push(d).drop_last() =~= digits);
    assert(d * weight(digits.len()) >= 0) by (nonlinear_arith)
        requires
            d >= 0,
            weight(digits.len()) >= 0,
    ;
}

proof fn lemma_number_take(digits: Seq<u32>, i: int)
    requires
        0 <= i < digits.len(),
    ensures
        number(digits.take(i + 1)) == number(digits.take(i)) + digits[i] * weight(i as nat),
{
    assert(digits.take(i + 1) =~= digits.take(i).push(digits[i]));
    lemma_number_push(digits.take(i), digits[i]);
}

/// Digits stand for less than a one in the next position.
proof fn lemma_number_bound(digits: Seq<u32>)
    ensures
        number(digits) < weight(digits.len()),
    decreases digits.len(),
{
    if digits.len() > 0 {
        let rest = digits.drop_last();
        let d = digits.last();
        lemma_number_bound(rest);
        lemma_weight_step(rest.len());
        assert(d * weight(rest.len()) + weight(rest.len()) <= BASE * weight(rest.len()))
            by (nonlinear_arith)
            requires
                d + 1 <= BASE,
        ;
        lemma_number_push(rest, d);
        assert(digits =~= rest.push(d));
    }
}

/// Trailing zeros stand for nothing.
proof fn lemma_number_zeros(digits: Seq<u32>, n: int)
    requires
        0 <= n <= digits.len(),
        forall|i: int| n <= i < digits.len() ==> digits[i] == 0,
    ensures
        number(digits) == number(digits.take(n)),
    decreases digits.len(),
{
    if n < digits.len() {
        let rest = digits.drop_last();
        assert(rest.take(n) =~= digits.take(n));
        lemma_number_zeros(rest, n);
        assert(digits.last() * weight(rest.len()) == 0) by (nonlinear_arith)
            requires
                digits.last() == 0,
        ;
    } else {
        assert(digits.take(n) =~= digits);
    }
}

/// `digits` with zeros up to length `n`.
spec fn padded(digits: Seq<u32>, n: nat) -> Seq<u32> {
    Seq::new(
        n,
        |i: int|
            if i < digits.len() {
                digits[i]
            } else {
                0u32
            },
    )
}

proof fn lemma_padded(digits: Seq<u32>, n: nat)
    requires
        digits.len() <= n,
    ensures
        number(padded(digits, n)) == number(digits),
{
    lemma_number_zeros(padded(digits, n), digits.len() as int);
    assert(padded(digits, n).take(digits.len() as int) =~= digits);
}

impl Natural {
    /// The number `n`.
    pub fn new(n: u32) -> (out: Natural)
        ensures
            out@ == n,
    {
        let mut digits: Vec<u32> = Vec::new();
        digits.push(n);
        proof {
            lemma_number_push(Seq::empty(), n);
            assert(digits@ =~= Seq::<u32>::empty().push(n));
            assert(weight(0) == 1);
            assert(n * 1 == n) by (nonlinear_arith);
        }
        Natural { digits }
    }

    /// This number times `factor`, plus `more`.
    pub fn times_plus(&self, factor: u32, more: u32) -> (out: Natural)
        ensures
            out@ == self@ * factor + more,
    {
        let mut digits: Vec<u32> = Vec::new();
        let mut carry: u64 = more as u64;
        let mut i: usize = 0;
        proof {
            assert(self.digits@.take(0) =~= Seq::<u32>::empty());
            assert(0 * factor + more == 0 + more * 1) by (nonlinear_arith);
        }
        while i < self.digits.len()
            invariant
                i <= self.digits@.len(),
                digits@.len() == i,
                carry < BASE,
                number(self.digits@.take(i as int)) * factor + more == number(digits@) + carry
                    * weight(i as nat),
            decreases self.digits.len() - i,
        {
            let d: u32 = self.digits[i];
            proof {
                assert(d * factor <= 0xffff_ffff * 0xffff_ffff) by (nonlinear_arith)
                    requires
                        d <= 0xffff_ffff,
                        factor <= 0xffff_ffff,
                ;
            }
            let sum: u64 = d as u64 * factor as u64 + carry;
            let low: u32 = (sum % BASE) as u32;
            let ghost before = digits@;
            digits.push(low);
            proof {
                let w = weight(i as nat);
                let high = sum / BASE;
                lemma_number_take(self.digits@, i as int);
                lemma_number_push(before, low);
                lemma_weight_step(i as nat);
                let done = number(self.digits@.take(i as int));
                assert((done + d * w) * factor + more == number(before) + low * w + high * (BASE
                    * w)) by (nonlinear_arith)
                    requires
                        done * factor + more == number(before) + carry * w,
                        d * factor + carry == low + high * BASE,
                ;
            }
            carry = sum / BASE;
            i = i + 1;
        }
        proof {
            assert(self.digits@.take(self.digits@.len() as int) =~= self.digits@);
            lemma_number_push(digits@, carry as u32);
        }
        if carry > 0 {
            digits.push(carry as u32);
        } else {
            assert(carry * weight(i as nat) == 0) by (nonlinear_arith)
                requires
                    carry == 0,
            ;
        }
        Natural { digits }
    }

    /// This number without `other`, if it is at least that.
    pub fn minus(&self, other: &Natural) -> (out: Option<Natural>)
        ensures
            out is Some <==> self@ >= other@,
            out matches Some(rest) ==> rest@ == self@ - other@,
    {
        let n: usize = if self.digits.len() >= other.digits.len() {
            self.digits.len()
        } else {
            other.digits.len()
        };
        let ghost a = padded(self.digits@, n as nat);
        let ghost b = padded(other.digits@, n as nat);
        proof {
            lemma_padded(self.digits@, n as nat);
            lemma_padded(other.digits@, n as nat);
            assert(a.take(0) =~= Seq::<u32>::empty());
            assert(b.take(0) =~= Seq::<u32>::empty());
            assert(0 * weight(0) == 0) by (nonlinear_arith);
        }
        let mut digits: Vec<u32> = Vec::new();
        let mut borrow: u64 = 0;
        let mut i: usize = 0;
        while i < n
            invariant
                i <= n,
                a.len() == n,
                b.len() == n,
                a == padded(self.digits@, n as nat),
                b == padded(other.digits@, n as nat),
                digits@.len() == i,
                borrow <= 1,
                number(a.take(i as int)) + borrow * weight(i as nat) == number(digits@) + number(
                    b.take(i as int),
                ),
            decreases n - i,
        {
            let x: u64 = if i < self.digits.len() {
                self.digits[i] as u64
            } else {
                0
            };
            let y: u64 = if i < other.digits.len() {
                other.digits[i] as u64
            } else {
                0
            };
            assert(x == a[i as int]);
            assert(y == b[i as int]);
            let taken: u64 = y + borrow;
            let ghost old_borrow = borrow;
            let rest: u64 = if x >= taken {
                borrow = 0;
                x - taken
            } else {
                borrow = 1;
                x + BASE - taken
            };
            let ghost before = digits@;
            digits.push(rest as u32);
            proof {
                let w = weight(i as nat);
                lemma_number_take(a, i as int);
                lemma_number_take(b, i as int);
                lemma_number_push(before, rest as u32);
                lemma_weight_step(i as nat);
                let p = number(a.take(i as int));
                let q = number(b.take(i as int));
                assert(p + x * w + borrow * (BASE * w) == number(before) + rest * w + (q + y * w))
                    by (nonlinear_arith)
                    requires
                        p + old_borrow * w == number(before) + q,
                        x + borrow * BASE == rest + y + old_borrow,
                ;
            }
            i = i + 1;
        }
        proof {
            assert(a.take(n as int) =~= a);
            assert(b.take(n as int) =~= b);
            lemma_number_bound(digits@);
            assert(1 * weight(n as nat) == weight(n as nat)) by (nonlinear_arith);
            assert(0 * weight(n as nat) == 0) by (nonlinear_arith);
        }
        if borrow == 0 {
            Some(Natural { digits })
        } else {
            None
        }
    }

    /// True if this number is at least `other`.
    pub fn at_least(&self, other: &Natural) -> (yes: bool)
        ensures
            yes == (self@ >= other@),
    {
        self.minus(other).is_some()
    }

    /// The same number.
    pub fn copy(&self) -> (out: Natural)
        ensures
            out@ == self@,
    {
        self.times_plus(1, 0)
    }
}

/// 2 to the power of `n`.
pub open spec fn power_of_two(n: nat) -> nat
    decreases n,
{
    if n == 0 {
        1
    } else {
        2 * power_of_two((n - 1) as nat)
    }
}

/// The quotient and the rest of dividing `num` by `den`, unless the quotient
/// takes more than `bits` bits.
pub fn divide(num: &Natural, den: &Natural, bits: u32) -> (out: Option<(u64, Natural)>)
    requires
        0 < den@,
        bits <= 64,
    ensures
        out is Some <==> num@ < den@ * power_of_two(bits as nat),
        out matches Some((quotient, rest)) ==> {
            &&& quotient == num@ / den@
            &&& rest@ == num@ % den@
            &&& quotient < power_of_two(bits as nat)
        },
    decreases bits,
{
    if !num.at_least(den) {
        proof {
            vstd::arithmetic::div_mod::lemma_fundamental_div_mod_converse(
                num@ as int,
                den@ as int,
                0,
                num@ as int,
            );
            lemma_power_positive(bits as nat);
            assert(den@ <= den@ * power_of_two(bits as nat)) by (nonlinear_arith)
                requires
                    power_of_two(bits as nat) >= 1,
            ;
        }
        return Some((0, num.copy()));
    }
    if bits == 0 {
        assert(den@ * 1 == den@) by (nonlinear_arith);
        return None;
    }
    let twice = den.times_plus(2, 0);
    let ghost lesser = power_of_two((bits - 1) as nat);
    proof {
        assert((den@ * 2) * lesser == den@ * (2 * lesser)) by (nonlinear_arith);
    }
    match divide(num, &twice, bits - 1) {
        None => None,
        Some((half, rest)) => {
            proof {
                vstd::arithmetic::div_mod::lemma_fundamental_div_mod(num@ as int, twice@ as int);
                lemma_power_bound((bits - 1) as nat);
            }
            match rest.minus(den) {
                None => {
                    proof {
                        assert(num@ == den@ * (2 * half) + rest@) by (nonlinear_arith)
                            requires
                                num@ == twice@ * half + rest@,
                                twice@ == den@ * 2,
                        ;
                        vstd::arithmetic::div_mod::lemma_fundamental_div_mod_converse(
                            num@ as int,
                            den@ as int,
                            2 * half as int,
                            rest@ as int,
                        );
                    }
                    Some((2 * half, rest))
                },
                Some(less) => {
                    proof {
                        assert(num@ == den@ * (2 * half + 1) + less@) by (nonlinear_arith)
                            requires
                                num@ == twice@ * half + rest@,
                                twice@ == den@ * 2,
                                rest@ == less@ + den@,
                        ;
                        vstd::arithmetic::div_mod::lemma_fundamental_div_mod_converse(
                            num@ as int,
                            den@ as int,
                            2 * half + 1,
                            less@ as int,
                        );
                    }
                    Some((2 * half + 1, less))
                },
            }
        },
    }
}

pub proof fn lemma_power_positive(n: nat)
    ensures
        power_of_two(n) >= 1,
    decreases n,
{
    if n > 0 {
        lemma_power_positive((n - 1) as nat);
    }
}

proof fn lemma_power_bound(n: nat)
    requires
        n <= 63,
    ensures
        power_of_two(n) <= 0x8000_0000_0000_0000,
{
    lemma_power_grows(n, 63);
    reveal_with_fuel(power_of_two, 64);
}

proof fn lemma_power_grows(n: nat, m: nat)
    requires
        n <= m,
    ensures
        power_of_two(n) <= power_of_two(m),
    decreases m,
{
    if n < m {
        lemma_power_grows(n, (m - 1) as nat);
        lemma_power_positive((m - 1) as nat);
    }
}

} // verus!
