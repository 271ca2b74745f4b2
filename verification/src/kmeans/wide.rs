//! Natural numbers beyond `u128`, for the distances of the largest inputs.

use vstd::prelude::*;

verus! {

/// The base in which a `Wide` is written: 2^64.
pub open spec fn base() -> nat {
    0x1_0000_0000_0000_0000
}

/// `base()` to the power `e`.
pub open spec fn base_pow(e: nat) -> nat
    decreases e,
{
    if e == 0 {
        1
    } else {
        base() * base_pow((e - 1) as nat)
    }
}

/// The number that `limbs` spell, least significant limb first.
pub open spec fn limbs_value(limbs: Seq<u64>) -> nat
    decreases limbs.len(),
{
    if limbs.len() == 0 {
        0
    } else {
        limbs_value(limbs.drop_last()) + (limbs.last() as nat) * base_pow((limbs.len() - 1) as nat)
    }
}

/// The limb at position `i`, zero beyond the end.
spec fn limb_at(limbs: Seq<u64>, i: nat) -> nat {
    if i < limbs.len() {
        limbs[i as int] as nat
    } else {
        0
    }
}

/// The number that the lowest `i` limbs spell.
spec fn low_part(limbs: Seq<u64>, i: nat) -> nat {
    limbs_value(limbs.take(if i <= limbs.len() { i as int } else { limbs.len() as int }))
}

proof fn lemma_base_pow_add(a: nat, b: nat)
    ensures
        base_pow(a + b) == base_pow(a) * base_pow(b),
    decreases b,
{
    if b == 0 {
        assert(base_pow(a) * 1 == base_pow(a)) by (nonlinear_arith);
    } else {
        lemma_base_pow_add(a, (b - 1) as nat);
        let pa = base_pow(a);
        let pb = base_pow((b - 1) as nat);
        assert(base_pow(a + b) == base() * base_pow((a + b - 1) as nat));
        assert(base() * (pa * pb) == pa * (base() * pb)) by (nonlinear_arith);
    }
}

proof fn lemma_value_push(s: Seq<u64>, x: u64)
    ensures
        limbs_value(s.push(x)) == limbs_value(s) + (x as nat) * base_pow(s.len()),
{
    assert(s.push(x).drop_last() =~= s);
}

proof fn lemma_low_part_step(s: Seq<u64>, i: nat)
    ensures
        low_part(s, i + 1) == low_part(s, i) + limb_at(s, i) * base_pow(i),
{
    if i < s.len() {
        assert(s.take(i as int + 1).drop_last() =~= s.take(i as int));
    } else {
        assert(limb_at(s, i) * base_pow(i) == 0) by (nonlinear_arith)
            requires
                limb_at(s, i) == 0,
        ;
    }
}

proof fn lemma_low_part_all(s: Seq<u64>, i: nat)
    requires
        i >= s.len(),
    ensures
        low_part(s, i) == limbs_value(s),
{
    assert(s.take(s.len() as int) =~= s);
}

proof fn lemma_low_part_bound(s: Seq<u64>, i: nat)
    ensures
        low_part(s, i) < base_pow(i),
    decreases i,
{
    if i > 0 {
        let j = (i - 1) as nat;
        lemma_low_part_bound(s, j);
        lemma_low_part_step(s, j);
        let p = base_pow(j);
        let low = low_part(s, j);
        let limb = limb_at(s, j);
        assert(low + limb * p < 0x1_0000_0000_0000_0000 * p) by (nonlinear_arith)
            requires
                low < p,
                limb <= 0xFFFF_FFFF_FFFF_FFFF,
        ;
    }
}

/// A natural number of any size, held as limbs in base 2^64.
#[derive(Debug)]
pub struct Wide {
    limbs: Vec<u64>,
}

impl View for Wide {
    type V = nat;

    closed spec fn view(&self) -> nat {
        limbs_value(self.limbs@)
    }
}

impl Wide {
    /// The number zero.
    pub fn zero() -> (w: Wide)
        ensures
            w@ == 0,
    {
        Wide { limbs: Vec::new() }
    }

    /// The number `x`.
    pub fn from_u128(x: u128) -> (w: Wide)
        ensures
            w@ == x,
    {
        let lo: u64 = (x % 0x1_0000_0000_0000_0000) as u64;
        let hi: u64 = (x / 0x1_0000_0000_0000_0000) as u64;
        let mut limbs: Vec<u64> = Vec::new();
        limbs.push(lo);
        limbs.push(hi);
        proof {
            let one = Seq::<u64>::empty().push(lo);
            lemma_value_push(Seq::<u64>::empty(), lo);
            lemma_value_push(one, hi);
            assert(limbs@ =~= one.push(hi));
            assert(limbs_value(Seq::<u64>::empty()) == 0);
            reveal_with_fuel(base_pow, 2);
            assert(base_pow(0) == 1);
            assert((lo as nat) * base_pow(0) == lo) by (nonlinear_arith)
                requires
                    base_pow(0) == 1,
            ;
            assert((hi as nat) * base_pow(1) == hi * 0x1_0000_0000_0000_0000) by (nonlinear_arith)
                requires
                    base_pow(1) == 0x1_0000_0000_0000_0000,
            ;
        }
        Wide { limbs }
    }

    /// The sum of the two numbers.
    pub fn plus(&self, other: &Wide) -> (sum: Wide)
        ensures
            sum@ == self@ + other@,
    {
        let n: usize = if self.limbs.len() >= other.limbs.len() {
            self.limbs.len()
        } else {
            other.limbs.len()
        };
        let mut out: Vec<u64> = Vec::new();
        let mut carry: u64 = 0;
        let mut i: usize = 0;
        while i < n
            invariant
                i <= n,
                n >= self.limbs.len(),
                n >= other.limbs.len(),
                out.len() == i,
                carry <= 1,
                limbs_value(out@) + (carry as nat) * base_pow(i as nat) == low_part(
                    self.limbs@,
                    i as nat,
                ) + low_part(other.limbs@, i as nat),
            decreases n - i,
        {
            let x: u64 = if i < self.limbs.len() { self.limbs[i] } else { 0 };
            let y: u64 = if i < other.limbs.len() { other.limbs[i] } else { 0 };
            let t: u128 = x as u128 + y as u128 + carry as u128;
            let lo: u64 = (t % 0x1_0000_0000_0000_0000) as u64;
            let hi: u64 = (t / 0x1_0000_0000_0000_0000) as u64;
            proof {
                lemma_value_push(out@, lo);
                lemma_low_part_step(self.limbs@, i as nat);
                lemma_low_part_step(other.limbs@, i as nat);
                let p = base_pow(i as nat);
                assert(base_pow((i + 1) as nat) == base() * p);
                assert((x + y + carry) * p == (lo as nat) * p + (hi as nat) * (base() * p))
                    by (nonlinear_arith)
                    requires
                        x + y + carry == lo + hi * base(),
                ;
                assert((x + y + carry) * p == (x as nat) * p + (y as nat) * p + (carry as nat) * p)
                    by (nonlinear_arith);
            }
            out.push(lo);
            carry = hi;
            i += 1;
        }
        proof {
            lemma_value_push(out@, carry);
            lemma_low_part_all(self.limbs@, n as nat);
            lemma_low_part_all(other.limbs@, n as nat);
        }
        out.push(carry);
        Wide { limbs: out }
    }

    /// This number times `m` times `base_pow(shift)`.
    fn times_limb(&self, m: u64, shift: usize) -> (product: Wide)
        ensures
            product@ == self@ * (m as nat) * base_pow(shift as nat),
    {
        let mut out: Vec<u64> = Vec::new();
        let mut z: usize = 0;
        while z < shift
            invariant
                z <= shift,
                out.len() == z,
                limbs_value(out@) == 0,
            decreases shift - z,
        {
            proof {
                lemma_value_push(out@, 0);
                assert(0 * base_pow(z as nat) == 0) by (nonlinear_arith);
            }
            out.push(0);
            z += 1;
        }
        let ghost q = base_pow(shift as nat);
        let n: usize = self.limbs.len();
        let mut carry: u64 = 0;
        let mut i: usize = 0;
        proof {
            assert(limbs_value(self.limbs@.take(0)) == 0);
            assert(0 * base_pow(shift as nat) == 0) by (nonlinear_arith);
            assert(0 * (m as nat) * q == 0) by (nonlinear_arith);
        }
        while i < n
            invariant
                i <= n,
                n == self.limbs.len(),
                q == base_pow(shift as nat),
                out.len() == shift + i,
                limbs_value(out@) + (carry as nat) * base_pow((shift + i) as nat) == limbs_value(
                    self.limbs@.take(i as int),
                ) * (m as nat) * q,
            decreases n - i,
        {
            let x: u64 = self.limbs[i];
            assert(x * m + carry <= 0xFFFF_FFFF_FFFF_FFFF_FFFF_FFFF_FFFF_FFFF) by (nonlinear_arith)
                requires
                    x <= 0xFFFF_FFFF_FFFF_FFFF,
                    m <= 0xFFFF_FFFF_FFFF_FFFF,
                    carry <= 0xFFFF_FFFF_FFFF_FFFF,
            ;
            let t: u128 = x as u128 * m as u128 + carry as u128;
            let lo: u64 = (t % 0x1_0000_0000_0000_0000) as u64;
            let hi: u64 = (t / 0x1_0000_0000_0000_0000) as u64;
            proof {
                lemma_value_push(out@, lo);
                lemma_base_pow_add(shift as nat, i as nat);
                assert(self.limbs@.take(i + 1).drop_last() =~= self.limbs@.take(i as int));
                let p = base_pow(i as nat);
                let pw = base_pow((shift + i) as nat);
                let low = limbs_value(self.limbs@.take(i as int));
                assert(base_pow((shift + i + 1) as nat) == base() * pw);
                assert((low + (x as nat) * p) * (m as nat) * q == low * (m as nat) * q + (lo as nat)
                    * pw + (hi as nat) * (base() * pw) - (carry as nat) * pw) by (nonlinear_arith)
                    requires
                        pw == q * p,
                        x * m + carry == lo + hi * base(),
                ;
            }
            out.push(lo);
            carry = hi;
            i += 1;
        }
        proof {
            lemma_value_push(out@, carry);
            assert(self.limbs@.take(n as int) =~= self.limbs@);
        }
        out.push(carry);
        Wide { limbs: out }
    }

    /// The product of the two numbers.
    pub fn times(&self, other: &Wide) -> (product: Wide)
        ensures
            product@ == self@ * other@,
    {
        let mut acc = Wide::zero();
        let n: usize = other.limbs.len();
        let mut j: usize = 0;
        proof {
            assert(limbs_value(other.limbs@.take(0)) == 0);
            assert(self@ * 0 == 0) by (nonlinear_arith);
        }
        while j < n
            invariant
                j <= n,
                n == other.limbs.len(),
                acc@ == self@ * limbs_value(other.limbs@.take(j as int)),
            decreases n - j,
        {
            let y: u64 = other.limbs[j];
            let part = self.times_limb(y, j);
            proof {
                assert(other.limbs@.take(j + 1).drop_last() =~= other.limbs@.take(j as int));
                let low = limbs_value(other.limbs@.take(j as int));
                let p = base_pow(j as nat);
                assert(self@ * (low + (y as nat) * p) == self@ * low + self@ * (y as nat) * p)
                    by (nonlinear_arith);
            }
            acc = acc.plus(&part);
            j += 1;
        }
        proof {
            assert(other.limbs@.take(n as int) =~= other.limbs@);
        }
        acc
    }

    /// Whether this number is smaller than `other`.
    pub fn lt(&self, other: &Wide) -> (less: bool)
        ensures
            less == (self@ < other@),
    {
        let n: usize = if self.limbs.len() >= other.limbs.len() {
            self.limbs.len()
        } else {
            other.limbs.len()
        };
        let mut less: bool = false;
        let mut equal: bool = true;
        let mut i: usize = 0;
        while i < n
            invariant
                i <= n,
                n >= self.limbs.len(),
                n >= other.limbs.len(),
                less == (low_part(self.limbs@, i as nat) < low_part(other.limbs@, i as nat)),
                equal == (low_part(self.limbs@, i as nat) == low_part(other.limbs@, i as nat)),
            decreases n - i,
        {
            let x: u64 = if i < self.limbs.len() { self.limbs[i] } else { 0 };
            let y: u64 = if i < other.limbs.len() { other.limbs[i] } else { 0 };
            proof {
                lemma_low_part_step(self.limbs@, i as nat);
                lemma_low_part_step(other.limbs@, i as nat);
                lemma_low_part_bound(self.limbs@, i as nat);
                lemma_low_part_bound(other.limbs@, i as nat);
                let p = base_pow(i as nat);
                let a = low_part(self.limbs@, i as nat);
                let b = low_part(other.limbs@, i as nat);
                assert((a + (x as nat) * p < b + (y as nat) * p) == (x < y || (x == y && a < b)))
                    by (nonlinear_arith)
                    requires
                        a < p,
                        b < p,
                ;
                assert((a + (x as nat) * p == b + (y as nat) * p) == (x == y && a == b))
                    by (nonlinear_arith)
                    requires
                        a < p,
                        b < p,
                ;
            }
            if x < y {
                less = true;
                equal = false;
            } else if x > y {
                less = false;
                equal = false;
            }
            i += 1;
        }
        proof {
            lemma_low_part_all(self.limbs@, n as nat);
            lemma_low_part_all(other.limbs@, n as nat);
        }
        less
    }
}

} // verus!
