//! Natural numbers of any size, as far as ranking guesses needs them: multiply
//! by a machine word, and compare.

use vstd::prelude::*;

verus! {

/// The base of the digits: two to the sixty-fourth.
pub open spec fn radix() -> nat {
    0x1_0000_0000_0000_0000
}

/// The base raised to the power `n`.
pub open spec fn radix_pow(n: nat) -> nat
    decreases n,
{
    if n == 0 {
        1
    } else {
        radix() * radix_pow((n - 1) as nat)
    }
}

/// The number that the first `n` digits spell, least significant digit first.
pub open spec fn prefix_value(digits: Seq<u64>, n: nat) -> nat
    decreases n,
{
    if n == 0 {
        0
    } else {
        prefix_value(digits, (n - 1) as nat) + (digits[n - 1] as nat) * radix_pow((n - 1) as nat)
    }
}

/// The outcome of comparing two numbers.
#[derive(Clone, Copy, Debug, PartialEq, Eq, Structural)]
pub enum Comparison {
    Less,
    Equal,
    Greater,
}

/// How `a` stands to `b`.
pub open spec fn compare_nat(a: nat, b: nat) -> Comparison {
    if a < b {
        Comparison::Less
    } else if a == b {
        Comparison::Equal
    } else {
        Comparison::Greater
    }
}

proof fn lemma_radix_pow_positive(n: nat)
    ensures
        radix_pow(n) >= 1,
    decreases n,
{
    if n > 0 {
        lemma_radix_pow_positive((n - 1) as nat);
        assert(radix() * radix_pow((n - 1) as nat) >= 1) by (nonlinear_arith)
            requires
                radix() >= 1,
                radix_pow((n - 1) as nat) >= 1,
        ;
    }
}

proof fn lemma_radix_pow_monotone(m: nat, n: nat)
    requires
        m <= n,
    ensures
        radix_pow(m) <= radix_pow(n),
    decreases n,
{
    if m < n {
        lemma_radix_pow_monotone(m, (n - 1) as nat);
        lemma_radix_pow_positive((n - 1) as nat);
        assert(radix_pow((n - 1) as nat) <= radix() * radix_pow((n - 1) as nat))
            by (nonlinear_arith)
            requires
                radix() >= 1,
                radix_pow((n - 1) as nat) >= 1,
        ;
    }
}

proof fn lemma_prefix_same(a: Seq<u64>, b: Seq<u64>, n: nat)
    requires
        forall|j: int| 0 <= j < n ==> a[j] == b[j],
    ensures
        prefix_value(a, n) == prefix_value(b, n),
    decreases n,
{
    if n > 0 {
        lemma_prefix_same(a, b, (n - 1) as nat);
    }
}

proof fn lemma_prefix_bound(a: Seq<u64>, n: nat)
    ensures
        prefix_value(a, n) < radix_pow(n),
    decreases n,
{
    if n > 0 {
        let m = (n - 1) as nat;
        lemma_prefix_bound(a, m);
        let d = a[n - 1] as nat;
        let p = radix_pow(m);
        assert(d * p + p <= radix() * p) by (nonlinear_arith)
            requires
                d + 1 <= radix(),
                p >= 0,
        ;
    }
}

/// Equal digits above place `n` leave the comparison to the digits below it.
proof fn lemma_upper_digits_equal(a: Seq<u64>, b: Seq<u64>, n: nat, top: nat)
    requires
        n <= top,
        forall|j: int| n <= j < top ==> a[j] == b[j],
    ensures
        prefix_value(a, top) - prefix_value(b, top) == prefix_value(a, n) - prefix_value(b, n),
    decreases top,
{
    if n < top {
        lemma_upper_digits_equal(a, b, n, (top - 1) as nat);
    }
}

/// The digit at the highest place where two numbers differ decides between them.
proof fn lemma_top_digit_decides(a: Seq<u64>, b: Seq<u64>, n: nat)
    requires
        n > 0,
        a[n - 1] < b[n - 1],
    ensures
        prefix_value(a, n) < prefix_value(b, n),
{
    let m = (n - 1) as nat;
    lemma_prefix_bound(a, m);
    let p = radix_pow(m);
    let x = a[n - 1] as nat;
    let y = b[n - 1] as nat;
    assert(x * p + p <= y * p) by (nonlinear_arith)
        requires
            x + 1 <= y,
            p >= 0,
    ;
}

/// A natural number of any size.
pub struct Natural {
    digits: Vec<u64>,
}

impl Natural {
    /// The most significant digit is never zero, so a number has one spelling.
    #[verifier::type_invariant]
    closed spec fn well_formed(&self) -> bool {
        self.digits@.len() > 0 ==> self.digits@[self.digits@.len() - 1] != 0
    }

    /// The number that this value stands for.
    pub closed spec fn value(&self) -> nat {
        prefix_value(self.digits@, self.digits@.len())
    }

    /// The number one.
    pub fn one() -> (n: Natural)
        ensures
            n.value() == 1,
    {
        let mut digits: Vec<u64> = Vec::new();
        digits.push(1);
        proof {
            assert(prefix_value(digits@, 1) == prefix_value(digits@, 0) + (digits@[0] as nat)
                * radix_pow(0));
        }
        Natural { digits }
    }

    /// This number multiplied by `k`.
    pub fn times(self, k: u64) -> (product: Natural)
        ensures
            product.value() == self.value() * (k as nat),
    {
        proof {
            use_type_invariant(&self);
        }
        let mut digits = self.digits;
        let ghost start = digits@;
        let n = digits.len();
        if k == 0 {
            digits.clear();
            assert(prefix_value(start, start.len()) * 0 == 0);
            return Natural { digits };
        }
        let mut carry: u64 = 0;
        let mut i: usize = 0;
        assert(prefix_value(digits@, 0) + (carry as nat) * radix_pow(0) == prefix_value(start, 0)
            * (k as nat)) by {
            assert(0 * (k as nat) == 0);
            assert((carry as nat) * radix_pow(0) == 0);
        }
        while i < n
            invariant
                i <= n,
                n == start.len(),
                digits@.len() == n,
                k >= 1,
                forall|j: int| i <= j < n ==> digits@[j] == start[j],
                prefix_value(digits@, i as nat) + (carry as nat) * radix_pow(i as nat)
                    == prefix_value(start, i as nat) * (k as nat),
            decreases n - i,
        {
            let ghost before = digits@;
            let d = digits[i];
            assert((d as nat) * (k as nat) + (carry as nat) <= 0xffff_ffff_ffff_ffff
                * 0xffff_ffff_ffff_ffff + 0xffff_ffff_ffff_ffff) by (nonlinear_arith)
                requires
                    d <= 0xffff_ffff_ffff_ffff,
                    k <= 0xffff_ffff_ffff_ffff,
                    carry <= 0xffff_ffff_ffff_ffff,
            ;
            let t: u128 = (d as u128) * (k as u128) + (carry as u128);
            let low: u64 = (t % 0x1_0000_0000_0000_0000u128) as u64;
            let high: u64 = (t / 0x1_0000_0000_0000_0000u128) as u64;
            digits[i] = low;
            proof {
                let p = radix_pow(i as nat);
                let after = digits@;
                lemma_prefix_same(before, after, i as nat);
                assert(prefix_value(after, (i + 1) as nat) == prefix_value(after, i as nat) + (
                low as nat) * p);
                assert(prefix_value(start, (i + 1) as nat) == prefix_value(start, i as nat) + (
                d as nat) * p);
                assert(radix_pow((i + 1) as nat) == radix() * p);
                assert((low as nat) + (high as nat) * radix() == (d as nat) * (k as nat) + (
                carry as nat));
                let pa = prefix_value(before, i as nat);
                let ps = prefix_value(start, i as nat);
                assert(pa + (low as nat) * p + (high as nat) * (radix() * p) == (ps + (d as nat)
                    * p) * (k as nat)) by (nonlinear_arith)
                    requires
                        pa + (carry as nat) * p == ps * (k as nat),
                        (low as nat) + (high as nat) * radix() == (d as nat) * (k as nat) + (
                        carry as nat),
                ;
            }
            carry = high;
            i += 1;
        }
        let ghost body = digits@;
        if carry > 0 {
            digits.push(carry);
            proof {
                lemma_prefix_same(body, digits@, n as nat);
            }
        } else {
            proof {
                if n > 0 {
                    let m = (n - 1) as nat;
                    lemma_prefix_bound(body, m);
                    lemma_prefix_bound(start, m);
                    lemma_radix_pow_positive(m);
                    let p = radix_pow(m);
                    let top = start[n - 1] as nat;
                    let v = prefix_value(start, n as nat);
                    assert(v >= p) by (nonlinear_arith)
                        requires
                            v == prefix_value(start, m) + top * p,
                            top >= 1,
                            p >= 1,
                    ;
                    assert(v * (k as nat) >= p) by (nonlinear_arith)
                        requires
                            v >= p,
                            k >= 1,
                    ;
                    if body[n - 1] == 0 {
                        assert((body[n - 1] as nat) * p == 0);
                        assert(false);
                    }
                }
            }
        }
        Natural { digits }
    }

    /// How this number stands to another.
    pub fn compare(&self, other: &Natural) -> (r: Comparison)
        ensures
            r == compare_nat(self.value(), other.value()),
    {
        proof {
            use_type_invariant(self);
            use_type_invariant(other);
        }
        let n = self.digits.len();
        let m = other.digits.len();
        if n < m {
            proof {
                lemma_longer_is_larger(self.digits@, other.digits@);
            }
            return Comparison::Less;
        }
        if n > m {
            proof {
                lemma_longer_is_larger(other.digits@, self.digits@);
            }
            return Comparison::Greater;
        }
        let mut i: usize = n;
        while i > 0
            invariant
                i <= n,
                n == self.digits@.len(),
                n == other.digits@.len(),
                forall|j: int| i <= j < n ==> self.digits@[j] == other.digits@[j],
            decreases i,
        {
            i -= 1;
            let a = self.digits[i];
            let b = other.digits[i];
            if a != b {
                proof {
                    lemma_upper_digits_equal(
                        self.digits@,
                        other.digits@,
                        (i + 1) as nat,
                        n as nat,
                    );
                    if a < b {
                        lemma_top_digit_decides(self.digits@, other.digits@, (i + 1) as nat);
                    } else {
                        lemma_top_digit_decides(other.digits@, self.digits@, (i + 1) as nat);
                    }
                }
                return if a < b {
                    Comparison::Less
                } else {
                    Comparison::Greater
                };
            }
        }
        proof {
            lemma_prefix_same(self.digits@, other.digits@, n as nat);
        }
        Comparison::Equal
    }
}

/// With its top digit nonzero, a longer number is the larger one.
proof fn lemma_longer_is_larger(short: Seq<u64>, long: Seq<u64>)
    requires
        short.len() < long.len(),
        long[long.len() - 1] != 0,
    ensures
        prefix_value(short, short.len()) < prefix_value(long, long.len()),
{
    let n = long.len();
    let m = (n - 1) as nat;
    lemma_prefix_bound(short, short.len());
    lemma_radix_pow_monotone(short.len(), m);
    let p = radix_pow(m);
    let top = long[n - 1] as nat;
    assert(top * p >= p) by (nonlinear_arith)
        requires
            top >= 1,
            p >= 0,
    ;
}

} // verus!
