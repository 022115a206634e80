//! Natural numbers of unbounded size, as little-endian sequences of 64-bit
//! limbs. The products of many likelihoods that classification compares do
//! not fit a machine word; here they are computed exactly.

use vstd::prelude::*;

verus! {

/// The base of the representation, two to the power 64.
pub open spec fn radix() -> nat {
    0x1_0000_0000_0000_0000
}

/// The base raised to the power `n`.
pub open spec fn radix_pow(n: nat) -> nat
    decreases n,
{
    if n == 0 {
        1
    } else {
        radix() * radix_pow((n - 1) as nat)
    }
}

/// The limb at position `i`, and zero beyond the end.
pub open spec fn limb_at(limbs: Seq<u64>, i: int) -> nat {
    if 0 <= i < limbs.len() {
        limbs[i] as nat
    } else {
        0
    }
}

/// The number that the lowest `n` limbs stand for.
pub open spec fn low_value(limbs: Seq<u64>, n: nat) -> nat
    decreases n,
{
    if n == 0 {
        0
    } else {
        low_value(limbs, (n - 1) as nat) + limb_at(limbs, n - 1) * radix_pow((n - 1) as nat)
    }
}

/// The number that a limb sequence stands for.
pub open spec fn value_of(limbs: Seq<u64>) -> nat {
    low_value(limbs, limbs.len())
}

/// The powers of the base multiply as their exponents add.
pub proof fn lemma_radix_pow_add(a: nat, b: nat)
    ensures
        radix_pow(a + b) == radix_pow(a) * radix_pow(b),
    decreases b,
{
    if b == 0 {
        assert(radix_pow(a) * 1 == radix_pow(a)) by (nonlinear_arith);
    } else {
        lemma_radix_pow_add(a, (b - 1) as nat);
        let pa = radix_pow(a);
        let pb = radix_pow((b - 1) as nat);
        let r = radix();
        assert(radix_pow(a + b) == r * radix_pow((a + b - 1) as nat));
        assert(r * (pa * pb) == pa * (r * pb)) by (nonlinear_arith);
    }
}

/// The lowest `n` limbs stand for a number below the `n`-th power of the base.
pub proof fn lemma_low_value_bound(limbs: Seq<u64>, n: nat)
    ensures
        low_value(limbs, n) < radix_pow(n),
    decreases n,
{
    if n > 0 {
        lemma_low_value_bound(limbs, (n - 1) as nat);
        let p = radix_pow((n - 1) as nat);
        let l = limb_at(limbs, n - 1);
        let low = low_value(limbs, (n - 1) as nat);
        assert(low + l * p < 0x1_0000_0000_0000_0000 * p) by (nonlinear_arith)
            requires
                low < p,
                l <= 0xFFFF_FFFF_FFFF_FFFF,
        ;
    }
}

/// Sequences that agree on their lowest `n` limbs have the same low value.
pub proof fn lemma_low_value_agree(a: Seq<u64>, b: Seq<u64>, n: nat)
    requires
        forall|i: int| 0 <= i < n ==> limb_at(a, i) == limb_at(b, i),
    ensures
        low_value(a, n) == low_value(b, n),
    decreases n,
{
    if n > 0 {
        lemma_low_value_agree(a, b, (n - 1) as nat);
        assert(limb_at(a, n - 1) == limb_at(b, n - 1));
    }
}

/// Limbs that are all zero stand for zero.
pub proof fn lemma_low_value_zero(limbs: Seq<u64>, n: nat)
    requires
        forall|i: int| 0 <= i < n ==> limb_at(limbs, i) == 0,
    ensures
        low_value(limbs, n) == 0,
    decreases n,
{
    if n > 0 {
        lemma_low_value_zero(limbs, (n - 1) as nat);
        assert(limb_at(limbs, n - 1) == 0);
        assert(0 * radix_pow((n - 1) as nat) == 0) by (nonlinear_arith);
    }
}

/// Positions beyond the end of a sequence add nothing to its value.
pub proof fn lemma_low_value_saturates(limbs: Seq<u64>, n: nat)
    requires
        n >= limbs.len(),
    ensures
        low_value(limbs, n) == value_of(limbs),
    decreases n,
{
    if n > limbs.len() {
        lemma_low_value_saturates(limbs, (n - 1) as nat);
        assert(limb_at(limbs, n - 1) == 0);
        assert(0 * radix_pow((n - 1) as nat) == 0) by (nonlinear_arith);
    }
}

/// Appending a limb leaves the value below it and adds the limb at its place.
pub proof fn lemma_low_value_push(limbs: Seq<u64>, limb: u64)
    ensures
        low_value(limbs.push(limb), limbs.len()) == value_of(limbs),
        value_of(limbs.push(limb)) == value_of(limbs) + limb * radix_pow(limbs.len()),
{
    lemma_low_value_agree(limbs.push(limb), limbs, limbs.len());
    assert(limb_at(limbs.push(limb), limbs.len() as int) == limb);
}

/// Putting `k` zero limbs below a sequence multiplies its value by the
/// `k`-th power of the base.
pub proof fn lemma_low_value_shift(moved: Seq<u64>, limbs: Seq<u64>, k: nat, n: nat)
    requires
        forall|i: int| 0 <= i < k ==> limb_at(moved, i) == 0,
        forall|i: int| 0 <= i ==> limb_at(moved, k + i) == limb_at(limbs, i),
    ensures
        low_value(moved, k + n) == radix_pow(k) * low_value(limbs, n),
    decreases n,
{
    if n == 0 {
        lemma_low_value_zero(moved, k);
        assert(radix_pow(k) * 0 == 0) by (nonlinear_arith);
    } else {
        lemma_low_value_shift(moved, limbs, k, (n - 1) as nat);
        lemma_radix_pow_add(k, (n - 1) as nat);
        assert(limb_at(moved, k + (n - 1)) == limb_at(limbs, n - 1));
        let pk = radix_pow(k);
        let pn = radix_pow((n - 1) as nat);
        let l = limb_at(limbs, n - 1);
        let low = low_value(limbs, (n - 1) as nat);
        assert(pk * low + l * (pk * pn) == pk * (low + l * pn)) by (nonlinear_arith);
    }
}

/// A natural number of any size.
#[derive(Clone, Debug)]
pub struct BigNat {
    /// The limbs, least significant first; zero limbs at the end are allowed.
    pub limbs: Vec<u64>,
}

impl View for BigNat {
    type V = nat;

    open spec fn view(&self) -> nat {
        value_of(self.limbs@)
    }
}

impl BigNat {
    /// The number zero.
    pub fn zero() -> (r: BigNat)
        ensures
            r@ == 0,
    {
        BigNat { limbs: Vec::new() }
    }

    /// The number `x`.
    pub fn from_u128(x: u128) -> (r: BigNat)
        ensures
            r@ == x,
    {
        let lo: u64 = (x % 0x1_0000_0000_0000_0000u128) as u64;
        let hi: u64 = (x / 0x1_0000_0000_0000_0000u128) as u64;
        let mut limbs: Vec<u64> = Vec::new();
        limbs.push(lo);
        proof {
            lemma_low_value_push(Seq::<u64>::empty(), lo);
            assert(Seq::<u64>::empty().push(lo) =~= limbs@);
            assert(value_of(Seq::<u64>::empty()) == 0);
            assert(lo * radix_pow(0) == lo) by (nonlinear_arith)
                requires
                    radix_pow(0) == 1,
            ;
        }
        let ghost one = limbs@;
        limbs.push(hi);
        proof {
            lemma_low_value_push(one, hi);
            assert(radix_pow(1) == radix() * radix_pow(0));
            assert(hi * radix_pow(1) == hi * 0x1_0000_0000_0000_0000) by (nonlinear_arith)
                requires
                    radix_pow(1) == 0x1_0000_0000_0000_0000,
            ;
        }
        BigNat { limbs }
    }

    /// The same number without zero limbs at the end.
    pub fn trimmed(self) -> (r: BigNat)
        ensures
            r@ == self@,
            r.limbs@.len() == 0 || r.limbs@.last() != 0,
    {
        let mut limbs: Vec<u64> = self.limbs;
        while limbs.len() > 0 && limbs[limbs.len() - 1] == 0
            invariant
                value_of(limbs@) == self@,
            decreases limbs.len(),
        {
            proof {
                let shorter = limbs@.drop_last();
                lemma_low_value_agree(limbs@, shorter, shorter.len());
                assert(limb_at(limbs@, limbs@.len() - 1) == 0);
                assert(0 * radix_pow((limbs@.len() - 1) as nat) == 0) by (nonlinear_arith);
            }
            limbs.pop();
        }
        BigNat { limbs }
    }

    /// The product of this number and one limb.
    pub fn mul_limb(&self, x: u64) -> (r: BigNat)
        ensures
            r@ == self@ * x,
    {
        let n: usize = self.limbs.len();
        let mut out: Vec<u64> = Vec::new();
        let mut carry: u64 = 0;
        let mut i: usize = 0;
        proof {
            assert(value_of(out@) == 0);
            assert(low_value(self.limbs@, 0) == 0);
            assert(0 * radix_pow(0) == 0 && 0 * x == 0) by (nonlinear_arith);
        }
        while i < n
            invariant
                n == self.limbs@.len(),
                i <= n,
                out@.len() == i,
                value_of(out@) + carry * radix_pow(i as nat) == low_value(self.limbs@, i as nat)
                    * x,
            decreases n - i,
        {
            let a: u64 = self.limbs[i];
            assert(a * x <= 0xFFFF_FFFF_FFFF_FFFF * 0xFFFF_FFFF_FFFF_FFFF) by (nonlinear_arith)
                requires
                    a <= 0xFFFF_FFFF_FFFF_FFFF,
                    x <= 0xFFFF_FFFF_FFFF_FFFF,
            ;
            let t: u128 = (a as u128) * (x as u128) + (carry as u128);
            let lo: u64 = (t % 0x1_0000_0000_0000_0000u128) as u64;
            let hi: u64 = (t / 0x1_0000_0000_0000_0000u128) as u64;
            proof {
                lemma_low_value_push(out@, lo);
                let p = radix_pow(i as nat);
                let p_next = radix_pow((i + 1) as nat);
                let done = value_of(out@);
                let source = low_value(self.limbs@, i as nat);
                let source_next = low_value(self.limbs@, (i + 1) as nat);
                assert(limb_at(self.limbs@, i as int) == a);
                assert(source_next == source + a * p);
                assert(p_next == 0x1_0000_0000_0000_0000 * p);
                assert(done + lo * p + hi * p_next == source_next * x) by (nonlinear_arith)
                    requires
                        done + carry * p == source * x,
                        source_next == source + a * p,
                        p_next == 0x1_0000_0000_0000_0000 * p,
                        lo + hi * 0x1_0000_0000_0000_0000 == a * x + carry,
                ;
            }
            out.push(lo);
            carry = hi;
            i += 1;
        }
        proof {
            lemma_low_value_push(out@, carry);
        }
        out.push(carry);
        BigNat { limbs: out }
    }

    /// This number times the `k`-th power of the base.
    pub fn shifted(&self, k: usize) -> (r: BigNat)
        ensures
            r@ == self@ * radix_pow(k as nat),
    {
        let n: usize = self.limbs.len();
        let mut out: Vec<u64> = Vec::new();
        let mut i: usize = 0;
        while i < k
            invariant
                i <= k,
                out@.len() == i,
                forall|p: int| 0 <= p < i ==> out@[p] == 0,
            decreases k - i,
        {
            out.push(0);
            i += 1;
        }
        let mut j: usize = 0;
        while j < n
            invariant
                n == self.limbs@.len(),
                j <= n,
                out@.len() == k + j,
                forall|p: int| 0 <= p < k ==> out@[p] == 0,
                forall|p: int| 0 <= p < j ==> out@[k + p] == self.limbs@[p],
            decreases n - j,
        {
            out.push(self.limbs[j]);
            j += 1;
        }
        proof {
            assert forall|p: int| 0 <= p implies limb_at(out@, k + p) == limb_at(
                self.limbs@,
                p,
            ) by {
                if p < n {
                    assert(out@[k + p] == self.limbs@[p]);
                }
            }
            lemma_low_value_shift(out@, self.limbs@, k as nat, n as nat);
            let v = value_of(self.limbs@);
            let pk = radix_pow(k as nat);
            assert(pk * v == v * pk) by (nonlinear_arith);
        }
        BigNat { limbs: out }
    }

    /// The sum of the two numbers.
    pub fn add(&self, other: &BigNat) -> (r: BigNat)
        ensures
            r@ == self@ + other@,
    {
        let la: usize = self.limbs.len();
        let lb: usize = other.limbs.len();
        let n: usize = if la >= lb {
            la
        } else {
            lb
        };
        let mut out: Vec<u64> = Vec::new();
        let mut carry: u64 = 0;
        let mut i: usize = 0;
        proof {
            assert(value_of(out@) == 0);
            assert(0 * radix_pow(0) == 0) by (nonlinear_arith);
        }
        while i < n
            invariant
                la == self.limbs@.len(),
                lb == other.limbs@.len(),
                n >= la,
                n >= lb,
                i <= n,
                out@.len() == i,
                carry <= 1,
                value_of(out@) + carry * radix_pow(i as nat) == low_value(self.limbs@, i as nat)
                    + low_value(other.limbs@, i as nat),
            decreases n - i,
        {
            let a: u64 = if i < la {
                self.limbs[i]
            } else {
                0
            };
            let b: u64 = if i < lb {
                other.limbs[i]
            } else {
                0
            };
            let t: u128 = (a as u128) + (b as u128) + (carry as u128);
            let lo: u64 = (t % 0x1_0000_0000_0000_0000u128) as u64;
            let hi: u64 = (t / 0x1_0000_0000_0000_0000u128) as u64;
            proof {
                lemma_low_value_push(out@, lo);
                let p = radix_pow(i as nat);
                let p_next = radix_pow((i + 1) as nat);
                let done = value_of(out@);
                let left = low_value(self.limbs@, i as nat);
                let right = low_value(other.limbs@, i as nat);
                assert(limb_at(self.limbs@, i as int) == a);
                assert(limb_at(other.limbs@, i as int) == b);
                assert(p_next == 0x1_0000_0000_0000_0000 * p);
                assert(done + lo * p + hi * p_next == (left + a * p) + (right + b * p))
                    by (nonlinear_arith)
                    requires
                        done + carry * p == left + right,
                        p_next == 0x1_0000_0000_0000_0000 * p,
                        lo + hi * 0x1_0000_0000_0000_0000 == a + b + carry,
                ;
            }
            out.push(lo);
            carry = hi;
            i += 1;
        }
        proof {
            lemma_low_value_push(out@, carry);
            lemma_low_value_saturates(self.limbs@, n as nat);
            lemma_low_value_saturates(other.limbs@, n as nat);
        }
        out.push(carry);
        BigNat { limbs: out }.trimmed()
    }

    /// The product of the two numbers.
    pub fn mul(&self, other: &BigNat) -> (r: BigNat)
        ensures
            r@ == self@ * other@,
    {
        let n: usize = other.limbs.len();
        let mut acc: BigNat = BigNat::zero();
        let mut j: usize = 0;
        proof {
            assert(self@ * 0 == 0) by (nonlinear_arith);
        }
        while j < n
            invariant
                n == other.limbs@.len(),
                j <= n,
                acc@ == self@ * low_value(other.limbs@, j as nat),
            decreases n - j,
        {
            let limb: u64 = other.limbs[j];
            let part: BigNat = self.mul_limb(limb).shifted(j);
            let sum: BigNat = acc.add(&part);
            proof {
                let v = self@;
                let p = radix_pow(j as nat);
                let low = low_value(other.limbs@, j as nat);
                assert(limb_at(other.limbs@, j as int) == limb);
                assert(low_value(other.limbs@, (j + 1) as nat) == low + limb * p);
                assert(v * low + (v * limb) * p == v * (low + limb * p)) by (nonlinear_arith);
            }
            acc = sum;
            j += 1;
        }
        acc
    }

    /// Whether this number is at least as large as the other.
    pub fn at_least(&self, other: &BigNat) -> (r: bool)
        ensures
            r == (self@ >= other@),
    {
        let la: usize = self.limbs.len();
        let lb: usize = other.limbs.len();
        let n: usize = if la >= lb {
            la
        } else {
            lb
        };
        proof {
            lemma_low_value_saturates(self.limbs@, n as nat);
            lemma_low_value_saturates(other.limbs@, n as nat);
        }
        let mut i: usize = n;
        while i > 0
            invariant
                la == self.limbs@.len(),
                lb == other.limbs@.len(),
                i <= n,
                self@ + low_value(other.limbs@, i as nat) == other@ + low_value(
                    self.limbs@,
                    i as nat,
                ),
            decreases i,
        {
            let a: u64 = if i - 1 < la {
                self.limbs[i - 1]
            } else {
                0
            };
            let b: u64 = if i - 1 < lb {
                other.limbs[i - 1]
            } else {
                0
            };
            proof {
                let p = radix_pow((i - 1) as nat);
                let left = low_value(self.limbs@, (i - 1) as nat);
                let right = low_value(other.limbs@, (i - 1) as nat);
                assert(limb_at(self.limbs@, i - 1) == a);
                assert(limb_at(other.limbs@, i - 1) == b);
                assert(low_value(self.limbs@, i as nat) == left + a * p);
                assert(low_value(other.limbs@, i as nat) == right + b * p);
                lemma_low_value_bound(self.limbs@, (i - 1) as nat);
                lemma_low_value_bound(other.limbs@, (i - 1) as nat);
                if a > b {
                    assert(left + a * p > right + b * p) by (nonlinear_arith)
                        requires
                            a >= b + 1,
                            right < p,
                            left >= 0,
                    ;
                }
                if a < b {
                    assert(left + a * p < right + b * p) by (nonlinear_arith)
                        requires
                            b >= a + 1,
                            left < p,
                            right >= 0,
                    ;
                }
            }
            if a > b {
                return true;
            }
            if a < b {
                return false;
            }
            i -= 1;
        }
        true
    }
}

} // verus!
