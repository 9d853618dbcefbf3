//! Arbitrary-precision natural numbers.
//!
//! A `BigNat` stores base-2^32 limbs, least significant first. Trailing
//! zero limbs are allowed; two values are compared by the number they
//! denote, never by their limb vectors. The amortization engine builds
//! every exact rational quantity out of these numbers.

use vstd::prelude::*;
use vstd::arithmetic::power2::{pow2, lemma_pow2_adds, lemma_pow2_pos, lemma2_to64};
use vstd::arithmetic::div_mod::{lemma_fundamental_div_mod, lemma_mod_division_less_than_divisor};

verus! {

/// The number denoted by a little-endian sequence of base-2^32 limbs.
pub open spec fn limbs_value(s: Seq<u32>) -> nat
    decreases s.len(),
{
    if s.len() == 0 {
        0
    } else {
        limbs_value(s.drop_last()) + (s.last() as nat) * pow2((32 * (s.len() - 1)) as nat)
    }
}

pub struct BigNat {
    pub limbs: Vec<u32>,
}

impl View for BigNat {
    type V = nat;

    open spec fn view(&self) -> nat {
        limbs_value(self.limbs@)
    }
}

pub proof fn lemma_value_bound(s: Seq<u32>)
    ensures
        limbs_value(s) < pow2((32 * s.len()) as nat),
    decreases s.len(),
{
    lemma2_to64();
    if s.len() == 0 {
    } else {
        lemma_value_bound(s.drop_last());
        lemma_pow2_adds((32 * (s.len() - 1)) as nat, 32);
        assert(limbs_value(s) < pow2((32 * s.len()) as nat)) by (nonlinear_arith)
            requires
                limbs_value(s) == limbs_value(s.drop_last()) + (s.last() as nat) * pow2(
                    (32 * (s.len() - 1)) as nat,
                ),
                limbs_value(s.drop_last()) < pow2((32 * (s.len() - 1)) as nat),
                (s.last() as nat) < 0x1_0000_0000,
                pow2((32 * s.len()) as nat) == pow2((32 * (s.len() - 1)) as nat) * 0x1_0000_0000,
        ;
    }
}

pub proof fn lemma_value_push_zero(s: Seq<u32>)
    ensures
        limbs_value(s.push(0)) == limbs_value(s),
{
    let t = s.push(0);
    assert(t.len() == s.len() + 1);
    assert(t.last() == 0u32);
    assert(t.drop_last() =~= s);
    assert(limbs_value(t) == limbs_value(t.drop_last()) + (t.last() as nat) * pow2(
        (32 * (t.len() - 1)) as nat,
    ));
    assert((0u32 as nat) * pow2((32 * s.len()) as nat) == 0);
}

pub proof fn lemma_value_singleton(x: u32)
    ensures
        limbs_value(seq![x]) == x,
{
    let t = seq![x];
    assert(t.len() == 1);
    assert(t.last() == x);
    assert(t.drop_last() =~= Seq::<u32>::empty());
    assert(limbs_value(Seq::<u32>::empty()) == 0);
    assert(limbs_value(t) == limbs_value(t.drop_last()) + (t.last() as nat) * pow2(
        (32 * (t.len() - 1)) as nat,
    ));
    lemma2_to64();
}

/// Appending one limb raises the value by that limb times its place value.
pub proof fn lemma_value_prefix_ext(s: Seq<u32>, i: int)
    requires
        0 <= i < s.len(),
    ensures
        limbs_value(s.subrange(0, i + 1)) == limbs_value(s.subrange(0, i)) + (s[i] as nat) * pow2(
            (32 * i) as nat,
        ),
{
    let t = s.subrange(0, i + 1);
    assert(t.drop_last() =~= s.subrange(0, i));
    assert(t.last() == s[i]);
}

pub proof fn lemma_value_prepend(x: u32, s: Seq<u32>)
    ensures
        limbs_value(seq![x] + s) == x + 0x1_0000_0000 * limbs_value(s),
    decreases s.len(),
{
    lemma2_to64();
    if s.len() == 0 {
        assert(seq![x] + s =~= seq![x]);
        lemma_value_singleton(x);
    } else {
        lemma_value_prepend(x, s.drop_last());
        let t = seq![x] + s;
        assert(t.drop_last() =~= seq![x] + s.drop_last());
        assert(t.last() == s.last());
        assert(t.len() - 1 == s.len());
        lemma_pow2_adds(32, (32 * (s.len() - 1)) as nat);
        assert(limbs_value(seq![x] + s) == x + 0x1_0000_0000 * limbs_value(s))
            by (nonlinear_arith)
            requires
                limbs_value(seq![x] + s) == limbs_value(seq![x] + s.drop_last()) + (
                s.last() as nat) * pow2((32 * s.len()) as nat),
                limbs_value(seq![x] + s.drop_last()) == x + 0x1_0000_0000 * limbs_value(
                    s.drop_last(),
                ),
                limbs_value(s) == limbs_value(s.drop_last()) + (s.last() as nat) * pow2(
                    (32 * (s.len() - 1)) as nat,
                ),
                pow2((32 * s.len()) as nat) == 0x1_0000_0000 * pow2((32 * (s.len() - 1)) as nat),
        ;
    }
}

/// The first limb of a suffix contributes its own value; the rest is scaled.
pub proof fn lemma_value_suffix_step(s: Seq<u32>, i: int)
    requires
        0 <= i < s.len(),
    ensures
        limbs_value(s.subrange(i, s.len() as int)) == s[i] + 0x1_0000_0000 * limbs_value(
            s.subrange(i + 1, s.len() as int),
        ),
{
    assert(s.subrange(i, s.len() as int) =~= seq![s[i]] + s.subrange(i + 1, s.len() as int));
    lemma_value_prepend(s[i], s.subrange(i + 1, s.len() as int));
}

/// A number splits into a prefix plus its scaled suffix.
pub proof fn lemma_value_split(s: Seq<u32>, i: int)
    requires
        0 <= i <= s.len(),
    ensures
        limbs_value(s) == limbs_value(s.subrange(0, i)) + pow2((32 * i) as nat) * limbs_value(
            s.subrange(i, s.len() as int),
        ),
    decreases s.len() - i,
{
    if i == s.len() {
        assert(s.subrange(0, i) =~= s);
        assert(s.subrange(i, s.len() as int).len() == 0);
        assert(limbs_value(s.subrange(i, s.len() as int)) == 0);
        assert(pow2((32 * i) as nat) * limbs_value(s.subrange(i, s.len() as int)) == 0)
            by (nonlinear_arith)
            requires
                limbs_value(s.subrange(i, s.len() as int)) == 0,
        ;
    } else {
        lemma_value_split(s, i + 1);
        lemma_value_prefix_ext(s, i);
        lemma_value_suffix_step(s, i);
        lemma_pow2_adds((32 * i) as nat, 32);
        lemma2_to64();
        assert(limbs_value(s) == limbs_value(s.subrange(0, i)) + pow2((32 * i) as nat)
            * limbs_value(s.subrange(i, s.len() as int))) by (nonlinear_arith)
            requires
                limbs_value(s) == limbs_value(s.subrange(0, i + 1)) + pow2((32 * (i + 1)) as nat)
                    * limbs_value(s.subrange(i + 1, s.len() as int)),
                limbs_value(s.subrange(0, i + 1)) == limbs_value(s.subrange(0, i)) + (
                s[i] as nat) * pow2((32 * i) as nat),
                limbs_value(s.subrange(i, s.len() as int)) == s[i] + 0x1_0000_0000 * limbs_value(
                    s.subrange(i + 1, s.len() as int),
                ),
                pow2((32 * (i + 1)) as nat) == pow2((32 * i) as nat) * 0x1_0000_0000,
        ;
    }
}

/// If two equally long limb strings agree above position `i` and differ
/// there, the one with the smaller limb denotes the smaller number.
proof fn lemma_cmp_at(x: Seq<u32>, y: Seq<u32>, i: int)
    requires
        x.len() == y.len(),
        0 <= i < x.len(),
        limbs_value(x.subrange(i + 1, x.len() as int)) == limbs_value(
            y.subrange(i + 1, y.len() as int),
        ),
        x[i] < y[i],
    ensures
        limbs_value(x) < limbs_value(y),
{
    lemma_value_split(x, i);
    lemma_value_split(y, i);
    lemma_value_suffix_step(x, i);
    lemma_value_suffix_step(y, i);
    lemma_value_bound(x.subrange(0, i));
    lemma_pow2_pos((32 * i) as nat);
    let p = pow2((32 * i) as nat);
    let sfx = limbs_value(x.subrange(i + 1, x.len() as int));
    assert(limbs_value(x) < limbs_value(y)) by (nonlinear_arith)
        requires
            limbs_value(x) == limbs_value(x.subrange(0, i)) + p * ((x[i] as nat) + 0x1_0000_0000
                * sfx),
            limbs_value(y) == limbs_value(y.subrange(0, i)) + p * ((y[i] as nat) + 0x1_0000_0000
                * sfx),
            limbs_value(x.subrange(0, i)) < p,
            (x[i] as nat) + 1 <= (y[i] as nat),
            p >= 1,
    ;
}

proof fn lemma_add_step(
    v_new: nat,
    v_old: nat,
    lo: nat,
    hi: nat,
    ai: nat,
    bi: nat,
    cin: nat,
    p: nat,
    pb: nat,
    va: nat,
    vb: nat,
)
    by (nonlinear_arith)
    requires
        v_new == v_old + lo * p,
        lo + 0x1_0000_0000 * hi == ai + bi + cin,
        pb == p * 0x1_0000_0000,
        v_old + cin * p == va + vb,
    ensures
        v_new + hi * pb == (va + ai * p) + (vb + bi * p),
{
}

proof fn lemma_sub_step(
    v_new: int,
    v_old: int,
    d: int,
    nb: int,
    ai: int,
    bi: int,
    bin: int,
    p: int,
    pb: int,
    va: int,
    vb: int,
)
    by (nonlinear_arith)
    requires
        v_new == v_old + d * p,
        d == ai - bi - bin + nb * 0x1_0000_0000,
        pb == p * 0x1_0000_0000,
        v_old == va - vb + bin * p,
    ensures
        v_new == (va + ai * p) - (vb + bi * p) + nb * pb,
{
}

proof fn lemma_mul_small_step(
    v_new: nat,
    v_old: nat,
    lo: nat,
    hi: nat,
    ai: nat,
    m: nat,
    cin: nat,
    p: nat,
    pb: nat,
    va: nat,
)
    by (nonlinear_arith)
    requires
        v_new == v_old + lo * p,
        lo + 0x1_0000_0000 * hi == ai * m + cin,
        pb == p * 0x1_0000_0000,
        v_old + cin * p == va * m,
    ensures
        v_new + hi * pb == (va + ai * p) * m,
{
}

/// Copies `v` and extends it with zero limbs up to `n` entries.
fn padded(v: &Vec<u32>, n: usize) -> (r: Vec<u32>)
    requires
        v.len() <= n,
    ensures
        r@.len() == n,
        limbs_value(r@) == limbs_value(v@),
{
    let mut r: Vec<u32> = Vec::new();
    let mut i: usize = 0;
    while i < v.len()
        invariant
            i <= v.len(),
            r@ == v@.subrange(0, i as int),
        decreases v.len() - i,
    {
        r.push(v[i]);
        proof {
            assert(r@ =~= v@.subrange(0, i + 1));
        }
        i = i + 1;
    }
    proof {
        assert(r@ =~= v@);
    }
    while r.len() < n
        invariant
            r@.len() <= n,
            limbs_value(r@) == limbs_value(v@),
        decreases n - r.len(),
    {
        proof {
            lemma_value_push_zero(r@);
        }
        r.push(0);
    }
    r
}

impl BigNat {
    /// The number zero.
    pub fn zero() -> (r: BigNat)
        ensures
            r@ == 0,
    {
        BigNat { limbs: Vec::new() }
    }

    /// Builds the number denoted by a machine integer.
    pub fn from_u64(x: u64) -> (r: BigNat)
        ensures
            r@ == x,
    {
        let lo: u32 = (x % 0x1_0000_0000) as u32;
        let hi: u32 = (x / 0x1_0000_0000) as u32;
        let mut limbs: Vec<u32> = Vec::new();
        limbs.push(lo);
        limbs.push(hi);
        proof {
            lemma2_to64();
            lemma_fundamental_div_mod(x as int, 0x1_0000_0000);
            lemma_mod_division_less_than_divisor(x as int, 0x1_0000_0000);
            assert(x / 0x1_0000_0000 <= 0xFFFF_FFFFu64);
            assert(lo == x % 0x1_0000_0000);
            assert(hi == x / 0x1_0000_0000);
            assert(limbs@ =~= seq![lo, hi]);
            let t = seq![lo, hi];
            assert(t.drop_last() =~= seq![lo]);
            assert(t.last() == hi);
            lemma_value_singleton(lo);
            assert(limbs_value(t) == limbs_value(t.drop_last()) + (t.last() as nat) * pow2(
                (32 * (t.len() - 1)) as nat,
            ));
            assert(limbs_value(t.drop_last()) == lo);
            assert(limbs_value(t) == (lo as nat) + (hi as nat) * pow2(32));
            assert(limbs_value(t) == x);
            assert(limbs_value(limbs@) == x);
        }
        BigNat { limbs }
    }

    /// An identical copy.
    pub fn duplicate(&self) -> (r: BigNat)
        ensures
            r@ == self@,
    {
        let mut limbs: Vec<u32> = Vec::new();
        let mut i: usize = 0;
        while i < self.limbs.len()
            invariant
                i <= self.limbs.len(),
                limbs@ == self.limbs@.subrange(0, i as int),
            decreases self.limbs.len() - i,
        {
            limbs.push(self.limbs[i]);
            proof {
                assert(limbs@ =~= self.limbs@.subrange(0, i + 1));
            }
            i = i + 1;
        }
        proof {
            assert(limbs@ =~= self.limbs@);
        }
        BigNat { limbs }
    }

    /// Sum of two numbers.
    pub fn add(&self, other: &BigNat) -> (r: BigNat)
        ensures
            r@ == self@ + other@,
    {
        let n: usize = if self.limbs.len() < other.limbs.len() {
            other.limbs.len()
        } else {
            self.limbs.len()
        };
        let a = padded(&self.limbs, n);
        let b = padded(&other.limbs, n);
        let mut limbs: Vec<u32> = Vec::new();
        let mut carry: u64 = 0;
        let mut i: usize = 0;
        while i < n
            invariant
                i <= n,
                a@.len() == n,
                b@.len() == n,
                limbs@.len() == i,
                carry <= 1,
                limbs_value(a@) == self@,
                limbs_value(b@) == other@,
                limbs_value(limbs@) + (carry as nat) * pow2((32 * i) as nat) == limbs_value(
                    a@.subrange(0, i as int),
                ) + limbs_value(b@.subrange(0, i as int)),
            decreases n - i,
        {
            let ghost old_limbs = limbs@;
            let ghost gi = i as int;
            let t: u64 = a[i] as u64 + b[i] as u64 + carry;
            let lo: u32 = (t % 0x1_0000_0000) as u32;
            let hi: u64 = t / 0x1_0000_0000;
            limbs.push(lo);
            proof {
                lemma_fundamental_div_mod(t as int, 0x1_0000_0000);
                assert(lo == t % 0x1_0000_0000);
                assert(hi <= 1);
                lemma_value_prefix_ext(a@, gi);
                lemma_value_prefix_ext(b@, gi);
                assert(limbs@.subrange(0, gi) =~= old_limbs);
                assert(limbs@.subrange(0, gi + 1) =~= limbs@);
                lemma_value_prefix_ext(limbs@, gi);
                lemma_pow2_adds((32 * gi) as nat, 32);
                lemma2_to64();
                lemma_add_step(
                    limbs_value(limbs@),
                    limbs_value(old_limbs),
                    lo as nat,
                    hi as nat,
                    a@[gi] as nat,
                    b@[gi] as nat,
                    carry as nat,
                    pow2((32 * gi) as nat),
                    pow2((32 * (gi + 1)) as nat),
                    limbs_value(a@.subrange(0, gi)),
                    limbs_value(b@.subrange(0, gi)),
                );
            }
            carry = hi;
            i = i + 1;
        }
        proof {
            assert(a@.subrange(0, n as int) =~= a@);
            assert(b@.subrange(0, n as int) =~= b@);
        }
        if carry > 0 {
            let ghost old_limbs = limbs@;
            limbs.push(carry as u32);
            proof {
                assert(limbs@.subrange(0, n as int) =~= old_limbs);
                assert(limbs@.subrange(0, n as int + 1) =~= limbs@);
                lemma_value_prefix_ext(limbs@, n as int);
            }
        }
        BigNat { limbs }
    }

    /// Difference of two numbers; the second may not exceed the first.
    pub fn sub(&self, other: &BigNat) -> (r: BigNat)
        requires
            other@ <= self@,
        ensures
            r@ == self@ - other@,
    {
        let n: usize = if self.limbs.len() < other.limbs.len() {
            other.limbs.len()
        } else {
            self.limbs.len()
        };
        let a = padded(&self.limbs, n);
        let b = padded(&other.limbs, n);
        let mut limbs: Vec<u32> = Vec::new();
        let mut borrow: u64 = 0;
        let mut i: usize = 0;
        while i < n
            invariant
                i <= n,
                a@.len() == n,
                b@.len() == n,
                limbs@.len() == i,
                borrow <= 1,
                limbs_value(a@) == self@,
                limbs_value(b@) == other@,
                limbs_value(limbs@) as int == limbs_value(a@.subrange(0, i as int)) as int
                    - limbs_value(b@.subrange(0, i as int)) as int + (borrow as int) * pow2(
                    (32 * i) as nat,
                ),
            decreases n - i,
        {
            let ghost old_limbs = limbs@;
            let ghost gi = i as int;
            let ghost old_borrow = borrow as int;
            let ai: u64 = a[i] as u64;
            let bi: u64 = b[i] as u64 + borrow;
            let d: u64 = if ai >= bi {
                borrow = 0;
                ai - bi
            } else {
                borrow = 1;
                ai + 0x1_0000_0000 - bi
            };
            let dl: u32 = d as u32;
            limbs.push(dl);
            proof {
                assert(d < 0x1_0000_0000);
                assert(dl as int == d as int);
                lemma_value_prefix_ext(a@, gi);
                lemma_value_prefix_ext(b@, gi);
                assert(limbs@.subrange(0, gi) =~= old_limbs);
                assert(limbs@.subrange(0, gi + 1) =~= limbs@);
                lemma_value_prefix_ext(limbs@, gi);
                lemma_pow2_adds((32 * gi) as nat, 32);
                lemma2_to64();
                lemma_sub_step(
                    limbs_value(limbs@) as int,
                    limbs_value(old_limbs) as int,
                    d as int,
                    borrow as int,
                    a@[gi] as int,
                    b@[gi] as int,
                    old_borrow,
                    pow2((32 * gi) as nat) as int,
                    pow2((32 * (gi + 1)) as nat) as int,
                    limbs_value(a@.subrange(0, gi)) as int,
                    limbs_value(b@.subrange(0, gi)) as int,
                );
            }
            i = i + 1;
        }
        proof {
            assert(a@.subrange(0, n as int) =~= a@);
            assert(b@.subrange(0, n as int) =~= b@);
            lemma_value_bound(limbs@);
            assert(borrow == 0);
        }
        BigNat { limbs }
    }

    /// Product with a single limb.
    pub fn mul_small(&self, m: u32) -> (r: BigNat)
        ensures
            r@ == self@ * m,
    {
        let mut limbs: Vec<u32> = Vec::new();
        let mut carry: u64 = 0;
        let mut i: usize = 0;
        proof {
            assert(self.limbs@.subrange(0, 0).len() == 0);
            assert(limbs_value(self.limbs@.subrange(0, 0)) == 0);
            assert(limbs_value(self.limbs@.subrange(0, 0)) * (m as nat) == 0)
                by (nonlinear_arith)
                requires
                    limbs_value(self.limbs@.subrange(0, 0)) == 0,
            ;
        }
        while i < self.limbs.len()
            invariant
                i <= self.limbs.len(),
                limbs@.len() == i,
                carry < 0x1_0000_0000,
                limbs_value(limbs@) + (carry as nat) * pow2((32 * i) as nat) == limbs_value(
                    self.limbs@.subrange(0, i as int),
                ) * m,
            decreases self.limbs.len() - i,
        {
            let ghost old_limbs = limbs@;
            let ghost gi = i as int;
            proof {
                assert((self.limbs@[gi] as nat) * (m as nat) <= 0xFFFF_FFFF * 0xFFFF_FFFF)
                    by (nonlinear_arith)
                    requires
                        self.limbs@[gi] <= 0xFFFF_FFFFu32,
                        m <= 0xFFFF_FFFFu32,
                ;
            }
            let t: u64 = self.limbs[i] as u64 * m as u64 + carry;
            let lo: u32 = (t % 0x1_0000_0000) as u32;
            let hi: u64 = t / 0x1_0000_0000;
            limbs.push(lo);
            proof {
                lemma_fundamental_div_mod(t as int, 0x1_0000_0000);
                assert(hi < 0x1_0000_0000);
                lemma_value_prefix_ext(self.limbs@, gi);
                assert(limbs@.subrange(0, gi) =~= old_limbs);
                assert(limbs@.subrange(0, gi + 1) =~= limbs@);
                lemma_value_prefix_ext(limbs@, gi);
                lemma_pow2_adds((32 * gi) as nat, 32);
                lemma2_to64();
                lemma_mul_small_step(
                    limbs_value(limbs@),
                    limbs_value(old_limbs),
                    lo as nat,
                    hi as nat,
                    self.limbs@[gi] as nat,
                    m as nat,
                    carry as nat,
                    pow2((32 * gi) as nat),
                    pow2((32 * (gi + 1)) as nat),
                    limbs_value(self.limbs@.subrange(0, gi)),
                );
            }
            carry = hi;
            i = i + 1;
        }
        proof {
            assert(self.limbs@.subrange(0, self.limbs@.len() as int) =~= self.limbs@);
        }
        if carry > 0 {
            let ghost old_limbs = limbs@;
            let ghost gn = self.limbs@.len() as int;
            limbs.push(carry as u32);
            proof {
                assert(limbs@.subrange(0, gn) =~= old_limbs);
                assert(limbs@.subrange(0, gn + 1) =~= limbs@);
                lemma_value_prefix_ext(limbs@, gn);
            }
        }
        BigNat { limbs }
    }

    /// The same number shifted one limb up, that is, times 2^32.
    fn shift_one(&self) -> (r: BigNat)
        ensures
            r@ == self@ * 0x1_0000_0000,
    {
        let mut limbs: Vec<u32> = Vec::new();
        limbs.push(0);
        let mut i: usize = 0;
        while i < self.limbs.len()
            invariant
                i <= self.limbs.len(),
                limbs@ == seq![0u32] + self.limbs@.subrange(0, i as int),
            decreases self.limbs.len() - i,
        {
            limbs.push(self.limbs[i]);
            proof {
                assert(limbs@ =~= seq![0u32] + self.limbs@.subrange(0, i + 1));
            }
            i = i + 1;
        }
        proof {
            assert(limbs@ =~= seq![0u32] + self.limbs@);
            lemma_value_prepend(0, self.limbs@);
        }
        BigNat { limbs }
    }

    /// Product of two numbers.
    pub fn mul(&self, other: &BigNat) -> (r: BigNat)
        ensures
            r@ == self@ * other@,
    {
        let n: usize = other.limbs.len();
        let mut acc = BigNat::zero();
        let mut j: usize = n;
        proof {
        assert(other.limbs@.subrange(n as int, n as int).len() == 0);
            assert(self@ * limbs_value(other.limbs@.subrange(n as int, n as int)) == 0)
                by (nonlinear_arith)
                requires
                    limbs_value(other.limbs@.subrange(n as int, n as int)) == 0,
            ;
        }
        while j > 0
            invariant
                j <= n,
                n == other.limbs@.len(),
                acc@ == self@ * limbs_value(other.limbs@.subrange(j as int, n as int)),
            decreases j,
        {
            j = j - 1;
            let ghost gj = j as int;
            let ghost old_acc = acc@;
            let sh = acc.shift_one();
            let part = self.mul_small(other.limbs[j]);
            acc = sh.add(&part);
            proof {
                lemma_value_suffix_step(other.limbs@, gj);
                assert(acc@ == self@ * limbs_value(other.limbs@.subrange(gj, n as int)))
                    by (nonlinear_arith)
                    requires
                        acc@ == old_acc * 0x1_0000_0000 + self@ * (other.limbs@[gj] as nat),
                        old_acc == self@ * limbs_value(other.limbs@.subrange(gj + 1, n as int)),
                        limbs_value(other.limbs@.subrange(gj, n as int)) == other.limbs@[gj]
                            + 0x1_0000_0000 * limbs_value(other.limbs@.subrange(gj + 1, n as int)),
                ;
            }
        }
        proof {
            assert(other.limbs@.subrange(0, n as int) =~= other.limbs@);
        }
        acc
    }

    /// Strictly-less comparison.
    pub fn lt(&self, other: &BigNat) -> (r: bool)
        ensures
            r <==> self@ < other@,
    {
        let n: usize = if self.limbs.len() < other.limbs.len() {
            other.limbs.len()
        } else {
            self.limbs.len()
        };
        let a = padded(&self.limbs, n);
        let b = padded(&other.limbs, n);
        let mut i: usize = n;
        proof {
            assert(a@.subrange(n as int, n as int).len() == 0);
            assert(b@.subrange(n as int, n as int).len() == 0);
        }
        while i > 0
            invariant
                i <= n,
                a@.len() == n,
                b@.len() == n,
                limbs_value(a@) == self@,
                limbs_value(b@) == other@,
                limbs_value(a@.subrange(i as int, n as int)) == limbs_value(
                    b@.subrange(i as int, n as int),
                ),
            decreases i,
        {
            i = i - 1;
            let ghost gi = i as int;
            if a[i] < b[i] {
                proof {
                    lemma_cmp_at(a@, b@, gi);
                }
                return true;
            }
            if a[i] > b[i] {
                proof {
                    lemma_cmp_at(b@, a@, gi);
                }
                return false;
            }
            proof {
                lemma_value_suffix_step(a@, gi);
                lemma_value_suffix_step(b@, gi);
            }
        }
        proof {
            assert(a@.subrange(0, n as int) =~= a@);
            assert(b@.subrange(0, n as int) =~= b@);
        }
        false
    }

    /// Equality of denoted numbers.
    pub fn eq_nat(&self, other: &BigNat) -> (r: bool)
        ensures
            r <==> self@ == other@,
    {
        !self.lt(other) && !other.lt(self)
    }

    /// Whether the number is zero.
    pub fn is_zero(&self) -> (r: bool)
        ensures
            r <==> self@ == 0,
    {
        let mut i: usize = 0;
        while i < self.limbs.len()
            invariant
                i <= self.limbs.len(),
                limbs_value(self.limbs@.subrange(0, i as int)) == 0,
            decreases self.limbs.len() - i,
        {
            let ghost gi = i as int;
            if self.limbs[i] != 0 {
                proof {
                    lemma_value_split(self.limbs@, gi);
                    lemma_value_suffix_step(self.limbs@, gi);
                    lemma_pow2_pos((32 * gi) as nat);
                    assert(self@ > 0) by (nonlinear_arith)
                        requires
                            self@ == limbs_value(self.limbs@.subrange(0, gi)) + pow2(
                                (32 * gi) as nat,
                            ) * limbs_value(self.limbs@.subrange(gi, self.limbs@.len() as int)),
                            limbs_value(self.limbs@.subrange(gi, self.limbs@.len() as int))
                                == self.limbs@[gi] + 0x1_0000_0000 * limbs_value(
                                self.limbs@.subrange(gi + 1, self.limbs@.len() as int),
                            ),
                            self.limbs@[gi] >= 1,
                            pow2((32 * gi) as nat) >= 1,
                    ;
                }
                return false;
            }
            proof {
                lemma_value_prefix_ext(self.limbs@, gi);
            }
            i = i + 1;
        }
        proof {
            assert(self.limbs@.subrange(0, self.limbs@.len() as int) =~= self.limbs@);
        }
        true
    }
}

} // verus!
