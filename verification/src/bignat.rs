//! Natural numbers of any size, as far as ranking guesses needs them.

use vstd::prelude::*;

verus! {

/// The base of the digits of a `BigNat`.
pub const RADIX: u64 = 0x1_0000_0000;

/// `RADIX` to the power of `n`.
pub open spec fn radix_pow(n: nat) -> nat
    decreases n,
{
    if n == 0 {
        1
    } else {
        RADIX as nat * radix_pow((n - 1) as nat)
    }
}

/// The digit at place `i`, which is 0 beyond the last digit.
pub open spec fn digit_at(digits: Seq<u32>, i: int) -> nat {
    if 0 <= i < digits.len() {
        digits[i] as nat
    } else {
        0
    }
}

/// The number that the lowest `n` digits spell, lowest digit first.
pub open spec fn value_upto(digits: Seq<u32>, n: nat) -> nat
    decreases n,
{
    if n == 0 {
        0
    } else {
        value_upto(digits, (n - 1) as nat) + digit_at(digits, n - 1) * radix_pow((n - 1) as nat)
    }
}

proof fn lemma_value_below_power(digits: Seq<u32>, n: nat)
    ensures
        value_upto(digits, n) < radix_pow(n),
    decreases n,
{
    if n > 0 {
        lemma_value_below_power(digits, (n - 1) as nat);
        let p = radix_pow((n - 1) as nat);
        let d = digit_at(digits, n - 1);
        assert(d * p + p <= RADIX as nat * p) by (nonlinear_arith)
            requires
                d < RADIX as nat,
        ;
    }
}

proof fn lemma_value_beyond_length(digits: Seq<u32>, n: nat)
    requires
        n >= digits.len(),
    ensures
        value_upto(digits, n) == value_upto(digits, digits.len()),
    decreases n,
{
    if n > digits.len() {
        lemma_value_beyond_length(digits, (n - 1) as nat);
        assert(digit_at(digits, n - 1) * radix_pow((n - 1) as nat) == 0) by (nonlinear_arith)
            requires
                digit_at(digits, n - 1) == 0,
        ;
    }
}

proof fn lemma_same_top_digits(a: Seq<u32>, b: Seq<u32>, low: nat, high: nat)
    requires
        low <= high,
        forall|j: int| low <= j < high ==> digit_at(a, j) == digit_at(b, j),
    ensures
        value_upto(a, high) - value_upto(a, low) == value_upto(b, high) - value_upto(b, low),
    decreases high,
{
    if low < high {
        lemma_same_top_digits(a, b, low, (high - 1) as nat);
    }
}

proof fn lemma_value_unchanged_below(a: Seq<u32>, b: Seq<u32>, n: nat)
    requires
        forall|j: int| 0 <= j < n ==> digit_at(a, j) == digit_at(b, j),
    ensures
        value_upto(a, n) == value_upto(b, n),
    decreases n,
{
    if n > 0 {
        lemma_value_unchanged_below(a, b, (n - 1) as nat);
    }
}

/// A natural number of any size.
#[derive(Debug)]
pub struct BigNat {
    digits: Vec<u32>,
}

impl View for BigNat {
    type V = nat;

    closed spec fn view(&self) -> nat {
        value_upto(self.digits@, self.digits@.len())
    }
}

impl BigNat {
    /// The number 1.
    pub fn one() -> (number: BigNat)
        ensures
            number@ == 1,
    {
        let mut digits: Vec<u32> = Vec::new();
        digits.push(1);
        proof {
            reveal_with_fuel(value_upto, 2);
            reveal_with_fuel(radix_pow, 2);
        }
        BigNat { digits }
    }

    /// Multiplies the number by `factor`.
    pub fn mul_small(&mut self, factor: u64)
        ensures
            final(self)@ == old(self)@ * factor,
    {
        let ghost before = self.digits@;
        let len = self.digits.len();
        let mut carry: u64 = 0;
        let mut idx: usize = 0;
        proof {
            assert(0 * radix_pow(0) == 0) by (nonlinear_arith);
            assert(0 * factor == 0) by (nonlinear_arith);
        }
        while idx < len
            invariant
                idx <= len,
                len == before.len(),
                self.digits@.len() == len,
                forall|j: int| idx <= j < len ==> self.digits@[j] == before[j],
                value_upto(self.digits@, idx as nat) + carry * radix_pow(idx as nat) == value_upto(
                    before,
                    idx as nat,
                ) * factor,
            decreases len - idx,
        {
            let digit = self.digits[idx];
            assert(digit * factor <= 0xffff_ffff * 0xffff_ffff_ffff_ffff) by (nonlinear_arith)
                requires
                    0 <= digit <= 0xffff_ffff,
                    0 <= factor <= 0xffff_ffff_ffff_ffff,
            ;
            let product: u128 = digit as u128 * factor as u128 + carry as u128;
            assert(product <= 0xffff_ffff_ffff_ffff_0000_0000);
            let low: u32 = (product % 0x1_0000_0000) as u32;
            let high: u64 = (product / 0x1_0000_0000) as u64;
            let ghost shown = self.digits@;
            self.digits[idx] = low;
            proof {
                let p = radix_pow(idx as nat);
                lemma_value_unchanged_below(shown, self.digits@, idx as nat);
                assert(digit_at(self.digits@, idx as int) == low);
                assert(digit_at(before, idx as int) == digit);
                assert(radix_pow((idx + 1) as nat) == RADIX as nat * p);
                assert(low as nat * p + high as nat * (RADIX as nat * p) == (digit as nat
                    * factor as nat + carry as nat) * p) by (nonlinear_arith)
                    requires
                        low as nat + high as nat * RADIX as nat == digit as nat * factor as nat
                            + carry as nat,
                ;
                assert((value_upto(before, idx as nat) + digit as nat * p) * factor as nat
                    == value_upto(before, idx as nat) * factor as nat + (digit as nat
                    * factor as nat) * p) by (nonlinear_arith);
                assert((digit as nat * factor as nat + carry as nat) * p == (digit as nat
                    * factor as nat) * p + carry as nat * p) by (nonlinear_arith);
            }
            carry = high;
            idx += 1;
        }
        let low: u32 = (carry % 0x1_0000_0000) as u32;
        let high: u32 = (carry / 0x1_0000_0000) as u32;
        let ghost shown = self.digits@;
        if carry > 0 {
            self.digits.push(low);
            if high > 0 {
                self.digits.push(high);
            }
        }
        proof {
            let p = radix_pow(len as nat);
            lemma_value_unchanged_below(shown, self.digits@, len as nat);
            lemma_value_beyond_length(self.digits@, (len + 2) as nat);
            assert(radix_pow((len + 1) as nat) == RADIX as nat * p);
            assert(digit_at(self.digits@, len as int) == low);
            assert(digit_at(self.digits@, len + 1) == high);
            assert(value_upto(self.digits@, (len + 2) as nat) == value_upto(
                self.digits@,
                (len + 1) as nat,
            ) + high as nat * radix_pow((len + 1) as nat));
            assert(value_upto(self.digits@, (len + 1) as nat) == value_upto(
                self.digits@,
                len as nat,
            ) + low as nat * p);
            assert(low as nat * p + high as nat * (RADIX as nat * p) == carry as nat * p)
                by (nonlinear_arith)
                requires
                    low as nat + high as nat * RADIX as nat == carry as nat,
            ;
        }
    }

    /// Whether the number is less than `other`.
    pub fn less_than(&self, other: &BigNat) -> (less: bool)
        ensures
            less == (self@ < other@),
    {
        let top = if self.digits.len() > other.digits.len() {
            self.digits.len()
        } else {
            other.digits.len()
        };
        proof {
            lemma_value_beyond_length(self.digits@, top as nat);
            lemma_value_beyond_length(other.digits@, top as nat);
        }
        let mut idx: usize = top;
        while idx > 0
            invariant
                idx <= top,
                self@ == value_upto(self.digits@, top as nat),
                other@ == value_upto(other.digits@, top as nat),
                forall|j: int|
                    idx <= j < top ==> digit_at(self.digits@, j) == digit_at(other.digits@, j),
            decreases idx,
        {
            idx -= 1;
            let mine: u32 = if idx < self.digits.len() {
                self.digits[idx]
            } else {
                0
            };
            let theirs: u32 = if idx < other.digits.len() {
                other.digits[idx]
            } else {
                0
            };
            if mine != theirs {
                proof {
                    let p = radix_pow(idx as nat);
                    lemma_same_top_digits(
                        self.digits@,
                        other.digits@,
                        (idx + 1) as nat,
                        top as nat,
                    );
                    lemma_value_below_power(self.digits@, idx as nat);
                    lemma_value_below_power(other.digits@, idx as nat);
                    assert(digit_at(self.digits@, idx as int) == mine);
                    assert(digit_at(other.digits@, idx as int) == theirs);
                    if mine < theirs {
                        assert(mine as nat * p + p <= theirs as nat * p) by (nonlinear_arith)
                            requires
                                mine < theirs,
                        ;
                    } else {
                        assert(theirs as nat * p + p <= mine as nat * p) by (nonlinear_arith)
                            requires
                                theirs < mine,
                        ;
                    }
                }
                return mine < theirs;
            }
        }
        proof {
            lemma_same_top_digits(self.digits@, other.digits@, 0, top as nat);
        }
        false
    }
}

} // verus!
