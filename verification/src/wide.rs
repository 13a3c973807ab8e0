//! Natural numbers of any size, for the parts of scores that no machine word holds.

use vstd::prelude::*;

verus! {

/// The weight of the limb at place `i`: 2 to the power of `32 * i`.
pub open spec fn place(i: nat) -> nat
    decreases i,
{
    if i == 0 {
        1
    } else {
        0x1_0000_0000 * place((i - 1) as nat)
    }
}

/// The limb at place `i`, and 0 beyond the last limb.
pub open spec fn limb(s: Seq<u32>, i: int) -> nat {
    if 0 <= i < s.len() {
        s[i] as nat
    } else {
        0
    }
}

/// The number that the first `i` limbs stand for, the least significant limb first.
pub open spec fn low(s: Seq<u32>, i: nat) -> nat
    decreases i,
{
    if i == 0 {
        0
    } else {
        low(s, (i - 1) as nat) + limb(s, i - 1) * place((i - 1) as nat)
    }
}

/// The number that the limbs stand for.
pub open spec fn total(s: Seq<u32>) -> nat {
    low(s, s.len())
}

/// The first `i` limbs stand for a number below the weight of place `i`.
proof fn lemma_low_bound(s: Seq<u32>, i: nat)
    ensures
        low(s, i) < place(i),
    decreases i,
{
    if i > 0 {
        lemma_low_bound(s, (i - 1) as nat);
        let p = place((i - 1) as nat);
        let l = limb(s, i - 1);
        assert(l * p + p <= 0x1_0000_0000 * p) by (nonlinear_arith)
            requires
                l <= 0xffff_ffff,
                p >= 0,
        ;
    }
}

/// Limbs that agree in their first `i` places stand for the same number there.
proof fn lemma_low_agree(s: Seq<u32>, t: Seq<u32>, i: nat)
    requires
        forall|k: int| 0 <= k < i ==> limb(s, k) == limb(t, k),
    ensures
        low(s, i) == low(t, i),
    decreases i,
{
    if i > 0 {
        lemma_low_agree(s, t, (i - 1) as nat);
    }
}

/// Places beyond the last limb add nothing.
proof fn lemma_low_beyond(s: Seq<u32>, i: nat)
    requires
        i >= s.len(),
    ensures
        low(s, i) == total(s),
    decreases i,
{
    if i > s.len() {
        lemma_low_beyond(s, (i - 1) as nat);
        assert(limb(s, i - 1) * place((i - 1) as nat) == 0) by (nonlinear_arith)
            requires
                limb(s, i - 1) == 0,
        ;
    }
}

/// A limb put behind the others counts with the weight of its place.
proof fn lemma_total_push(s: Seq<u32>, x: u32)
    ensures
        total(s.push(x)) == total(s) + x * place(s.len()),
{
    lemma_low_agree(s.push(x), s, s.len());
}

/// A limb put before the others moves each of them up by one place.
proof fn lemma_low_front(s: Seq<u32>, x: u32, i: nat)
    ensures
        low(seq![x] + s, i + 1) == x + 0x1_0000_0000 * low(s, i),
    decreases i,
{
    let t = seq![x] + s;
    if i == 0 {
        assert(low(t, 1) == low(t, 0) + limb(t, 0) * place(0));
        assert(limb(t, 0) * place(0) == x) by (nonlinear_arith)
            requires
                limb(t, 0) == x,
                place(0) == 1,
        ;
    } else {
        lemma_low_front(s, x, (i - 1) as nat);
        assert(limb(t, i as int) == limb(s, i - 1));
        let l = limb(s, i - 1);
        let p = place((i - 1) as nat);
        assert(l * (0x1_0000_0000 * p) == 0x1_0000_0000 * (l * p)) by (nonlinear_arith);
        assert(0x1_0000_0000 * (low(s, (i - 1) as nat) + l * p) == 0x1_0000_0000 * low(
            s,
            (i - 1) as nat,
        ) + 0x1_0000_0000 * (l * p)) by (nonlinear_arith);
    }
}

/// A limb put before the others: the number is that limb and 2 to the 32 times the rest.
proof fn lemma_total_front(s: Seq<u32>, x: u32)
    ensures
        total(seq![x] + s) == x + 0x1_0000_0000 * total(s),
{
    lemma_low_front(s, x, s.len());
}

/// A natural number of any size, held as limbs of 32 bits.
pub struct Nat {
    limbs: Vec<u32>,
}

impl Nat {
    /// The number.
    pub closed spec fn value(self) -> nat {
        total(self.limbs@)
    }

    /// The number `x`, in as many limbs as it takes.
    pub fn from_u128(x: u128) -> (r: Nat)
        ensures
            r.value() == x,
    {
        let mut limbs: Vec<u32> = Vec::new();
        let mut rest: u128 = x;
        proof {
            assert(rest * place(0) == x) by (nonlinear_arith)
                requires
                    rest == x,
                    place(0) == 1,
            ;
        }
        while rest > 0
            invariant
                total(limbs@) + rest * place(limbs@.len()) == x,
            decreases rest,
        {
            let digit: u32 = (rest % 0x1_0000_0000) as u32;
            let ghost before = rest;
            proof {
                lemma_total_push(limbs@, digit);
                let p = place(limbs@.len());
                assert(digit * p + (before / 0x1_0000_0000) * (0x1_0000_0000 * p) == before * p)
                    by (nonlinear_arith)
                    requires
                        before == digit + 0x1_0000_0000 * (before / 0x1_0000_0000),
                ;
            }
            rest = rest / 0x1_0000_0000;
            limbs.push(digit);
        }
        proof {
            assert(rest * place(limbs@.len()) == 0) by (nonlinear_arith)
                requires
                    rest == 0,
            ;
        }
        Nat { limbs }
    }

    /// The limbs of the number, the least significant first, 32 bits each.
    pub fn limbs(&self) -> (r: Vec<u32>)
        ensures
            total(r@) == self.value(),
    {
        copy_limbs(&self.limbs)
    }

    /// A copy of the number.
    pub fn copy(&self) -> (r: Nat)
        ensures
            r.value() == self.value(),
    {
        Nat { limbs: copy_limbs(&self.limbs) }
    }

    /// `self + other`.
    pub fn plus(&self, other: &Nat) -> (r: Nat)
        ensures
            r.value() == self.value() + other.value(),
    {
        let n: usize = if self.limbs.len() >= other.limbs.len() {
            self.limbs.len()
        } else {
            other.limbs.len()
        };
        let mut out: Vec<u32> = Vec::new();
        let mut carry: u64 = 0;
        let mut i: usize = 0;
        while i < n
            invariant
                i <= n,
                out.len() == i,
                carry <= 1,
                total(out@) + carry * place(i as nat) == low(self.limbs@, i as nat) + low(
                    other.limbs@,
                    i as nat,
                ),
            decreases n - i,
        {
            let x: u64 = if i < self.limbs.len() {
                self.limbs[i] as u64
            } else {
                0
            };
            let y: u64 = if i < other.limbs.len() {
                other.limbs[i] as u64
            } else {
                0
            };
            let sum: u64 = x + y + carry;
            let digit: u32 = (sum % 0x1_0000_0000) as u32;
            let ghost before = carry;
            proof {
                lemma_total_push(out@, digit);
                let p = place(i as nat);
                assert(x == limb(self.limbs@, i as int));
                assert(y == limb(other.limbs@, i as int));
                assert(digit * p + (sum / 0x1_0000_0000) * (0x1_0000_0000 * p) == before * p + x * p
                    + y * p) by (nonlinear_arith)
                    requires
                        sum == digit + 0x1_0000_0000 * (sum / 0x1_0000_0000),
                        sum == x + y + before,
                ;
            }
            carry = sum / 0x1_0000_0000;
            out.push(digit);
            i += 1;
        }
        proof {
            lemma_low_beyond(self.limbs@, n as nat);
            lemma_low_beyond(other.limbs@, n as nat);
            lemma_total_push(out@, carry as u32);
        }
        out.push(carry as u32);
        Nat { limbs: out }
    }

    /// `self * k`.
    pub fn times_small(&self, k: u32) -> (r: Nat)
        ensures
            r.value() == self.value() * k,
    {
        let n: usize = self.limbs.len();
        let mut out: Vec<u32> = Vec::new();
        let mut carry: u64 = 0;
        let mut i: usize = 0;
        proof {
            assert(0 * k == 0) by (nonlinear_arith);
        }
        while i < n
            invariant
                i <= n,
                n == self.limbs.len(),
                out.len() == i,
                carry <= 0xffff_ffff,
                total(out@) + carry * place(i as nat) == low(self.limbs@, i as nat) * k,
            decreases n - i,
        {
            let x: u64 = self.limbs[i] as u64;
            proof {
                assert(x * k <= 0xffff_ffff * 0xffff_ffff) by (nonlinear_arith)
                    requires
                        x <= 0xffff_ffff,
                        k <= 0xffff_ffff,
                ;
            }
            let product: u64 = x * (k as u64) + carry;
            let digit: u32 = (product % 0x1_0000_0000) as u32;
            let ghost before = carry;
            proof {
                lemma_total_push(out@, digit);
                let p = place(i as nat);
                let rest = low(self.limbs@, i as nat);
                assert(x == limb(self.limbs@, i as int));
                assert(digit * p + (product / 0x1_0000_0000) * (0x1_0000_0000 * p) + rest * k
                    == before * p + (rest + x * p) * k) by (nonlinear_arith)
                    requires
                        product == digit + 0x1_0000_0000 * (product / 0x1_0000_0000),
                        product == x * k + before,
                ;
            }
            carry = product / 0x1_0000_0000;
            out.push(digit);
            i += 1;
        }
        proof {
            lemma_total_push(out@, carry as u32);
        }
        out.push(carry as u32);
        Nat { limbs: out }
    }

    /// `self * other`: the limbs of `self` are taken from the most significant down, and
    /// each time what has been gathered moves up a place before `other` times the limb is
    /// added to it.
    pub fn times(&self, other: &Nat) -> (r: Nat)
        ensures
            r.value() == self.value() * other.value(),
    {
        let mut acc: Nat = Nat { limbs: Vec::new() };
        let mut i: usize = self.limbs.len();
        proof {
            assert(self.limbs@.skip(i as int) =~= Seq::<u32>::empty());
            assert(0 * other.value() == 0) by (nonlinear_arith);
        }
        while i > 0
            invariant
                i <= self.limbs.len(),
                acc.value() == total(self.limbs@.skip(i as int)) * other.value(),
            decreases i,
        {
            i -= 1;
            let x: u32 = self.limbs[i];
            let ghost gathered = acc.value();
            let ghost higher = total(self.limbs@.skip(i + 1));
            let mut moved: Vec<u32> = Vec::new();
            moved.push(0);
            let ghost old_limbs = acc.limbs@;
            let mut k: usize = 0;
            while k < acc.limbs.len()
                invariant
                    k <= acc.limbs.len(),
                    acc.limbs@ == old_limbs,
                    moved@ =~= seq![0u32] + old_limbs.take(k as int),
                decreases acc.limbs.len() - k,
            {
                moved.push(acc.limbs[k]);
                k += 1;
            }
            proof {
                assert(old_limbs.take(k as int) =~= old_limbs);
                lemma_total_front(old_limbs, 0);
                assert(self.limbs@.skip(i as int) =~= seq![x] + self.limbs@.skip(i + 1));
                lemma_total_front(self.limbs@.skip(i + 1), x);
                let b = other.value();
                assert(0x1_0000_0000 * (higher * b) + b * x == (x + 0x1_0000_0000 * higher) * b)
                    by (nonlinear_arith);
            }
            let shifted: Nat = Nat { limbs: moved };
            let part: Nat = other.times_small(x);
            acc = shifted.plus(&part);
        }
        proof {
            assert(self.limbs@.skip(0) =~= self.limbs@);
        }
        acc
    }

    /// Whether `self <= other`.
    pub fn at_most(&self, other: &Nat) -> (r: bool)
        ensures
            r == (self.value() <= other.value()),
    {
        let n: usize = if self.limbs.len() >= other.limbs.len() {
            self.limbs.len()
        } else {
            other.limbs.len()
        };
        let mut so_far: bool = true;
        let mut i: usize = 0;
        while i < n
            invariant
                i <= n,
                so_far == (low(self.limbs@, i as nat) <= low(other.limbs@, i as nat)),
            decreases n - i,
        {
            let x: u32 = if i < self.limbs.len() {
                self.limbs[i]
            } else {
                0
            };
            let y: u32 = if i < other.limbs.len() {
                other.limbs[i]
            } else {
                0
            };
            proof {
                lemma_low_bound(self.limbs@, i as nat);
                lemma_low_bound(other.limbs@, i as nat);
                let p = place(i as nat);
                assert(x == limb(self.limbs@, i as int));
                assert(y == limb(other.limbs@, i as int));
                assert(x < y ==> x * p + p <= y * p) by (nonlinear_arith)
                    requires
                        p >= 0,
                ;
                assert(y < x ==> y * p + p <= x * p) by (nonlinear_arith)
                    requires
                        p >= 0,
                ;
            }
            if x < y {
                so_far = true;
            } else if x > y {
                so_far = false;
            }
            i += 1;
        }
        proof {
            lemma_low_beyond(self.limbs@, n as nat);
            lemma_low_beyond(other.limbs@, n as nat);
        }
        so_far
    }
}

/// The same limbs in a vector of their own.
fn copy_limbs(v: &Vec<u32>) -> (r: Vec<u32>)
    ensures
        r@ == v@,
{
    let mut r: Vec<u32> = Vec::new();
    let mut i: usize = 0;
    while i < v.len()
        invariant
            i <= v.len(),
            r@ =~= v@.take(i as int),
        decreases v.len() - i,
    {
        r.push(v[i]);
        i += 1;
    }
    proof {
        assert(v@.take(v.len() as int) =~= v@);
    }
    r
}

} // verus!
