//! Keys: natural numbers of unbounded size.
//!
//! A key is held as little-endian limbs of 64 bits with no leading zero limb,
//! so that every number has exactly one representation. The arithmetic that
//! the coder needs is division with remainder by a machine word and
//! multiplication by a machine word followed by an addition.
use vstd::prelude::*;
use vstd::arithmetic::div_mod::lemma_fundamental_div_mod_converse;
use vstd::std_specs::cmp::PartialEqSpecImpl;
use crate::rendering::{decimal, digit_char, digit_of};

verus! {

/// The number of values that one limb can take.
pub const RADIX: u128 = 0x1_0000_0000_0000_0000;

/// The weight of the limb at position `n`: `RADIX` to the power `n`.
pub open spec fn weight(n: nat) -> nat
    decreases n,
{
    if n == 0 {
        1
    } else {
        (RADIX as nat) * weight((n - 1) as nat)
    }
}

/// The number that a little-endian sequence of limbs stands for.
pub open spec fn limbs_value(limbs: Seq<u64>) -> nat
    decreases limbs.len(),
{
    if limbs.len() == 0 {
        0
    } else {
        limbs[0] as nat + (RADIX as nat) * limbs_value(limbs.skip(1))
    }
}

/// No leading zero limb: the most significant limb, if there is one, is not zero.
pub open spec fn canonical(limbs: Seq<u64>) -> bool {
    limbs.len() == 0 || limbs.last() != 0
}

proof fn lemma_weight_positive(n: nat)
    ensures
        weight(n) >= 1,
        n >= 1 ==> weight(n) >= RADIX,
    decreases n,
{
    if n > 0 {
        lemma_weight_positive((n - 1) as nat);
        let w = weight((n - 1) as nat);
        assert((RADIX as nat) * w >= RADIX) by (nonlinear_arith)
            requires
                w >= 1,
        ;
    }
}

/// Appending a limb adds the limb times the weight of its position.
proof fn lemma_value_push(limbs: Seq<u64>, top: u64)
    ensures
        limbs_value(limbs.push(top)) == limbs_value(limbs) + top * weight(limbs.len()),
    decreases limbs.len(),
{
    let longer = limbs.push(top);
    if limbs.len() == 0 {
        assert(longer.skip(1) =~= Seq::<u64>::empty());
        assert(limbs_value(longer.skip(1)) == 0);
        assert(top * weight(0) == top) by (nonlinear_arith)
            requires
                weight(0) == 1,
        ;
    } else {
        let rest = limbs.skip(1);
        assert(longer.skip(1) =~= rest.push(top));
        lemma_value_push(rest, top);
        let w = weight(rest.len());
        let v = limbs_value(rest);
        let r = RADIX as nat;
        assert(weight(limbs.len()) == r * w);
        assert(r * (v + top * w) == r * v + top * (r * w)) by (nonlinear_arith);
    }
}

proof fn lemma_canonical_positive(limbs: Seq<u64>)
    requires
        canonical(limbs),
        limbs.len() > 0,
    ensures
        limbs_value(limbs) >= weight((limbs.len() - 1) as nat),
        limbs_value(limbs) >= 1,
{
    let lower = limbs.drop_last();
    let top = limbs.last();
    assert(limbs =~= lower.push(top));
    lemma_value_push(lower, top);
    lemma_weight_positive(lower.len());
    let w = weight(lower.len());
    assert(top * w >= w) by (nonlinear_arith)
        requires
            top >= 1,
            w >= 1,
    ;
}

/// Two canonical limb sequences that stand for the same number are the same.
proof fn lemma_canonical_unique(a: Seq<u64>, b: Seq<u64>)
    requires
        canonical(a),
        canonical(b),
        limbs_value(a) == limbs_value(b),
    ensures
        a =~= b,
    decreases a.len(),
{
    if a.len() == 0 {
        if b.len() > 0 {
            lemma_canonical_positive(b);
        }
    } else if b.len() == 0 {
        lemma_canonical_positive(a);
    } else {
        let x = limbs_value(a) as int;
        let r = RADIX as int;
        let va = limbs_value(a.skip(1)) as int;
        let vb = limbs_value(b.skip(1)) as int;
        assert(x == va * r + a[0]) by (nonlinear_arith)
            requires
                x == a[0] + r * va,
        ;
        assert(x == vb * r + b[0]) by (nonlinear_arith)
            requires
                x == b[0] + r * vb,
        ;
        lemma_fundamental_div_mod_converse(x, r, va, a[0] as int);
        lemma_fundamental_div_mod_converse(x, r, vb, b[0] as int);
        if a.len() > 1 {
            assert(a.skip(1).last() == a.last());
        }
        if b.len() > 1 {
            assert(b.skip(1).last() == b.last());
        }
        lemma_canonical_unique(a.skip(1), b.skip(1));
        assert(a.skip(1).len() == b.skip(1).len());
        assert forall|i: int| 0 <= i < a.len() implies a[i] == b[i] by {
            if i > 0 {
                assert(a[i] == a.skip(1)[i - 1]);
                assert(b[i] == b.skip(1)[i - 1]);
            }
        }
    }
}

/// The decimal digits of a number, and no digit at all for 0.
pub open spec fn leading(number: nat) -> Seq<char> {
    if number == 0 {
        Seq::empty()
    } else {
        decimal(number)
    }
}

/// A natural number of unbounded size.
#[derive(Debug)]
pub struct Key {
    limbs: Vec<u64>,
}

impl View for Key {
    type V = nat;

    /// The number that the key stands for.
    closed spec fn view(&self) -> nat {
        limbs_value(self.limbs@)
    }
}

impl Key {
    #[verifier::type_invariant]
    spec fn well_formed(self) -> bool {
        canonical(self.limbs@)
    }

    /// Drops the leading zero limbs of `limbs`.
    fn trimmed(limbs: Vec<u64>) -> (key: Key)
        ensures
            key@ == limbs_value(limbs@),
    {
        let mut limbs = limbs;
        let ghost value = limbs_value(limbs@);
        while limbs.len() > 0 && limbs[limbs.len() - 1] == 0
            invariant
                limbs_value(limbs@) == value,
            decreases limbs.len(),
        {
            proof {
                let lower = limbs@.drop_last();
                assert(limbs@ =~= lower.push(0u64));
                lemma_value_push(lower, 0u64);
            }
            limbs.pop();
        }
        Key { limbs }
    }

    /// The key 0, the root state.
    pub fn zero() -> (key: Key)
        ensures
            key@ == 0,
    {
        Key { limbs: Vec::new() }
    }

    /// The key that stands for `value`.
    pub fn from_u64(value: u64) -> (key: Key)
        ensures
            key@ == value,
    {
        let mut limbs: Vec<u64> = Vec::new();
        if value != 0 {
            limbs.push(value);
            proof {
                lemma_value_push(Seq::<u64>::empty(), value);
                assert(limbs@ =~= Seq::<u64>::empty().push(value));
                assert(value * weight(0) == value) by (nonlinear_arith)
                    requires
                        weight(0) == 1,
                ;
            }
        }
        Key { limbs }
    }

    /// The key as a machine word, where it fits in one.
    pub fn to_u64(&self) -> (value: Option<u64>)
        ensures
            self@ <= u64::MAX ==> value == Some(self@ as u64),
            self@ > u64::MAX ==> value.is_none(),
    {
        proof {
            use_type_invariant(self);
        }
        if self.limbs.len() == 0 {
            Some(0)
        } else if self.limbs.len() == 1 {
            proof {
                assert(self.limbs@.skip(1) =~= Seq::<u64>::empty());
                assert(limbs_value(self.limbs@.skip(1)) == 0);
            }
            Some(self.limbs[0])
        } else {
            proof {
                lemma_canonical_positive(self.limbs@);
                lemma_weight_positive((self.limbs@.len() - 1) as nat);
            }
            None
        }
    }

    /// Whether the key is 0.
    pub fn is_zero(&self) -> (zero: bool)
        ensures
            zero == (self@ == 0),
    {
        proof {
            use_type_invariant(self);
            if self.limbs@.len() > 0 {
                lemma_canonical_positive(self.limbs@);
            }
        }
        self.limbs.len() == 0
    }

    /// The limbs of the key, least significant first, without leading zero limbs.
    pub fn limbs(&self) -> (limbs: Vec<u64>)
        ensures
            limbs_value(limbs@) == self@,
            canonical(limbs@),
    {
        proof {
            use_type_invariant(self);
        }
        self.limbs.clone()
    }

    /// The key in decimal digits.
    pub fn to_decimal(&self) -> (text: String)
        ensures
            text@ == decimal(self@),
    {
        let (first_quotient, first_digit) = self.div_rem(10);
        let mut quotient = first_quotient;
        let mut digits: Vec<char> = Vec::new();
        digits.push(digit_of(first_digit as u8));
        proof {
            assert(digits@.reverse() =~= seq![digit_char(first_digit as nat)]);
            assert(decimal(self@) =~= leading(quotient@) + digits@.reverse());
        }
        while !quotient.is_zero()
            invariant
                decimal(self@) == leading(quotient@) + digits@.reverse(),
            decreases quotient@,
        {
            let (next, digit) = quotient.div_rem(10);
            let ghost lower = digits@;
            digits.push(digit_of(digit as u8));
            proof {
                assert(digits@.reverse() =~= seq![digit_char(digit as nat)] + lower.reverse());
                assert(leading(quotient@) =~= leading(next@).push(digit_char(digit as nat)));
                assert(decimal(self@) =~= leading(next@) + digits@.reverse());
            }
            quotient = next;
        }
        let n: usize = digits.len();
        let mut text = String::new();
        let mut written: usize = 0;
        while written < n
            invariant
                n == digits@.len(),
                written <= n,
                text@ == digits@.reverse().take(written as int),
            decreases n - written,
        {
            text.push(digits[n - 1 - written]);
            written = written + 1;
            proof {
                assert(text@ =~= digits@.reverse().take(written as int));
            }
        }
        proof {
            assert(digits@.reverse().take(n as int) =~= digits@.reverse());
            assert(leading(quotient@) + digits@.reverse() =~= digits@.reverse());
        }
        text
    }

    /// Quotient and remainder of the key by `divisor`.
    pub fn div_rem(&self, divisor: u64) -> (result: (Key, u64))
        requires
            divisor > 0,
        ensures
            result.0@ == self@ / (divisor as nat),
            result.1 == self@ % (divisor as nat),
    {
        let n: usize = self.limbs.len();
        let mut quotient: Vec<u64> = vec![0u64; n];
        let mut remainder: u64 = 0;
        let mut i: usize = n;
        proof {
            assert(self.limbs@.skip(n as int) =~= Seq::<u64>::empty());
            assert(quotient@.skip(n as int) =~= Seq::<u64>::empty());
            assert(divisor * 0 + 0 == 0);
        }
        while i > 0
            invariant
                i <= n,
                n == self.limbs.len(),
                quotient.len() == n,
                divisor > 0,
                remainder < divisor,
                limbs_value(self.limbs@.skip(i as int)) == divisor * limbs_value(
                    quotient@.skip(i as int),
                ) + remainder,
            decreases i,
        {
            i = i - 1;
            let limb: u64 = self.limbs[i];
            let current: u128 = (remainder as u128) * RADIX + (limb as u128);
            let q: u128 = current / (divisor as u128);
            let r: u128 = current % (divisor as u128);
            proof {
                let d = divisor as int;
                let c = current as int;
                assert(c < d * RADIX);
                assert(c / d < RADIX) by (nonlinear_arith)
                    requires
                        d > 0,
                        0 <= c < d * RADIX,
                ;
                assert(c == d * (c / d) + c % d) by (nonlinear_arith)
                    requires
                        d > 0,
                ;
            }
            let ghost before = quotient@;
            quotient.set(i, q as u64);
            proof {
                let higher = limbs_value(before.skip(i + 1));
                assert(self.limbs@.skip(i as int).skip(1) =~= self.limbs@.skip(i + 1));
                assert(quotient@.skip(i as int).skip(1) =~= before.skip(i + 1));
                assert(quotient@.skip(i as int)[0] == q);
                assert(limbs_value(self.limbs@.skip(i as int)) == limb + RADIX * (divisor
                    * higher + remainder));
                assert(limbs_value(quotient@.skip(i as int)) == q + RADIX * higher);
                assert(limb + RADIX * (divisor * higher + remainder) == divisor * (q + RADIX
                    * higher) + r) by (nonlinear_arith)
                    requires
                        remainder * RADIX + limb == divisor * q + r,
                ;
            }
            remainder = r as u64;
        }
        proof {
            assert(self.limbs@.skip(0) =~= self.limbs@);
            assert(quotient@.skip(0) =~= quotient@);
            let x = self@ as int;
            let qv = limbs_value(quotient@) as int;
            assert(x == qv * divisor + remainder) by (nonlinear_arith)
                requires
                    x == divisor * qv + remainder,
            ;
            lemma_fundamental_div_mod_converse(x, divisor as int, qv, remainder as int);
        }
        (Key::trimmed(quotient), remainder)
    }

    /// The key times `factor`, plus `addend`.
    pub fn mul_add(&self, factor: u64, addend: u64) -> (result: Key)
        ensures
            result@ == self@ * factor + addend,
    {
        let n: usize = self.limbs.len();
        let mut limbs: Vec<u64> = Vec::new();
        let mut carry: u64 = addend;
        let mut i: usize = 0;
        proof {
            assert(self.limbs@.take(0) =~= Seq::<u64>::empty());
            assert(carry * weight(0) == carry) by (nonlinear_arith)
                requires
                    weight(0) == 1,
            ;
            assert(factor * 0 == 0);
        }
        while i < n
            invariant
                i <= n,
                n == self.limbs.len(),
                limbs.len() == i,
                limbs_value(limbs@) + carry * weight(i as nat) == factor * limbs_value(
                    self.limbs@.take(i as int),
                ) + addend,
            decreases n - i,
        {
            let limb: u64 = self.limbs[i];
            proof {
                assert(limb * factor <= 0xffff_ffff_ffff_ffff * 0xffff_ffff_ffff_ffff)
                    by (nonlinear_arith)
                    requires
                        0 <= limb <= 0xffff_ffff_ffff_ffff,
                        0 <= factor <= 0xffff_ffff_ffff_ffff,
                ;
            }
            let current: u128 = (limb as u128) * (factor as u128) + (carry as u128);
            let low: u128 = current % RADIX;
            let high: u128 = current / RADIX;
            proof {
                let lower = self.limbs@.take(i as int);
                assert(self.limbs@.take(i + 1) =~= lower.push(limb));
                lemma_value_push(lower, limb);
                lemma_value_push(limbs@, low as u64);
                let w = weight(i as nat);
                let v = limbs_value(lower);
                let done = limbs_value(limbs@);
                assert(weight((i + 1) as nat) == RADIX * w);
                assert(done + low * w + high * (RADIX * w) == factor * (v + limb * w) + addend)
                    by (nonlinear_arith)
                    requires
                        done + carry * w == factor * v + addend,
                        limb * factor + carry == high * RADIX + low,
                ;
            }
            limbs.push(low as u64);
            carry = high as u64;
            i = i + 1;
        }
        proof {
            assert(self.limbs@.take(n as int) =~= self.limbs@);
            assert(factor * self@ == self@ * factor) by (nonlinear_arith);
        }
        if carry != 0 {
            proof {
                lemma_value_push(limbs@, carry);
            }
            limbs.push(carry);
        } else {
            assert(carry * weight(n as nat) == 0) by (nonlinear_arith)
                requires
                    carry == 0,
            ;
        }
        Key::trimmed(limbs)
    }
}

impl PartialEq for Key {
    /// Whether two keys stand for the same number.
    fn eq(&self, other: &Key) -> (equal: bool) {
        proof {
            use_type_invariant(self);
            use_type_invariant(other);
            if self@ == other@ {
                lemma_canonical_unique(self.limbs@, other.limbs@);
            }
        }
        if self.limbs.len() != other.limbs.len() {
            return false;
        }
        let n: usize = self.limbs.len();
        let mut i: usize = 0;
        while i < n
            invariant
                i <= n,
                n == self.limbs.len(),
                n == other.limbs.len(),
                forall|j: int| 0 <= j < i ==> self.limbs@[j] == other.limbs@[j],
                self@ == other@ ==> self.limbs@ =~= other.limbs@,
            decreases n - i,
        {
            if self.limbs[i] != other.limbs[i] {
                return false;
            }
            i = i + 1;
        }
        proof {
            assert(self.limbs@ =~= other.limbs@);
        }
        true
    }
}

impl PartialEqSpecImpl for Key {
    open spec fn obeys_eq_spec() -> bool {
        true
    }

    open spec fn eq_spec(&self, other: &Key) -> bool {
        self@ == other@
    }
}

impl Eq for Key {

}

impl Default for Key {
    /// The key 0.
    fn default() -> (key: Key)
        ensures
            key@ == 0,
    {
        Key::zero()
    }
}

impl Clone for Key {
    fn clone(&self) -> (copy: Key)
        ensures
            copy@ == self@,
    {
        proof {
            use_type_invariant(self);
        }
        Key { limbs: self.limbs.clone() }
    }
}

} // verus!
