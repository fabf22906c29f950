//! Unbounded natural numbers as little-endian vectors of 64-bit limbs: just
//! enough to compare products that do not fit in 128 bits.

use vstd::arithmetic::mul::*;
use vstd::prelude::*;

verus! {

/// The radix of one limb, 2^64.
pub open spec fn limb_base() -> nat {
    0x1_0000_0000_0000_0000
}

/// `limb_base()` raised to `k`.
pub open spec fn limb_pow(k: nat) -> nat
    decreases k,
{
    if k == 0 {
        1
    } else {
        limb_base() * limb_pow((k - 1) as nat)
    }
}

/// The number that a little-endian limb sequence stands for.
pub open spec fn limbs_value(s: Seq<u64>) -> nat
    decreases s.len(),
{
    if s.len() == 0 {
        0
    } else {
        limbs_value(s.drop_last()) + s.last() as nat * limb_pow((s.len() - 1) as nat)
    }
}

pub proof fn lemma_limb_pow_positive(k: nat)
    ensures
        limb_pow(k) > 0,
    decreases k,
{
    if k > 0 {
        lemma_limb_pow_positive((k - 1) as nat);
        lemma_mul_strictly_positive(limb_base() as int, limb_pow((k - 1) as nat) as int);
    }
}

pub proof fn lemma_limb_pow_add(a: nat, b: nat)
    ensures
        limb_pow(a + b) == limb_pow(a) * limb_pow(b),
    decreases b,
{
    if b == 0 {
        assert(a + b == a);
        assert(limb_pow(0) == 1);
        lemma_mul_basics(limb_pow(a) as int);
    } else {
        lemma_limb_pow_add(a, (b - 1) as nat);
        assert((a + b - 1) as nat == a + (b - 1) as nat);
        assert(limb_pow(a + b) == limb_base() * limb_pow((a + b - 1) as nat));
        assert(limb_pow(b) == limb_base() * limb_pow((b - 1) as nat));
        lemma_mul_is_associative(
            limb_base() as int,
            limb_pow(a) as int,
            limb_pow((b - 1) as nat) as int,
        );
        lemma_mul_is_associative(
            limb_pow(a) as int,
            limb_base() as int,
            limb_pow((b - 1) as nat) as int,
        );
        lemma_mul_is_commutative(limb_base() as int, limb_pow(a) as int);
    }
}

pub proof fn lemma_value_push(s: Seq<u64>, x: u64)
    ensures
        limbs_value(s.push(x)) == limbs_value(s) + x as nat * limb_pow(s.len()),
{
    assert(s.push(x).drop_last() =~= s);
}

pub proof fn lemma_value_bound(s: Seq<u64>)
    ensures
        limbs_value(s) < limb_pow(s.len()),
    decreases s.len(),
{
    if s.len() > 0 {
        let p = limb_pow((s.len() - 1) as nat);
        lemma_value_bound(s.drop_last());
        lemma_limb_pow_positive((s.len() - 1) as nat);
        lemma_mul_inequality(s.last() as int, (limb_base() - 1) as int, p as int);
        lemma_mul_is_distributive_sub_other_way(p as int, limb_base() as int, 1);
        assert(limb_pow(s.len()) == limb_base() * p);
        lemma_mul_is_commutative(limb_base() as int, p as int);
    }
}

/// A number splits at limb `k` into its low part and `limb_pow(k)` times its high part.
pub proof fn lemma_value_split(s: Seq<u64>, k: nat)
    requires
        k <= s.len(),
    ensures
        limbs_value(s) == limbs_value(s.take(k as int)) + limb_pow(k) * limbs_value(
            s.skip(k as int),
        ),
    decreases s.len(),
{
    if k == s.len() {
        assert(s.take(k as int) =~= s);
        assert(s.skip(k as int).len() == 0);
        assert(limbs_value(s.skip(k as int)) == 0);
    } else {
        let t = s.drop_last();
        let hi = s.skip(k as int);
        lemma_value_split(t, k);
        assert(t.take(k as int) =~= s.take(k as int));
        assert(t.skip(k as int) =~= hi.drop_last());
        assert(hi.last() == s.last());
        assert(hi.len() - 1 == s.len() - 1 - k);
        let m = (s.len() - 1 - k) as nat;
        lemma_limb_pow_add(k, m);
        assert(k + m == s.len() - 1);
        lemma_mul_is_distributive_add(
            limb_pow(k) as int,
            limbs_value(hi.drop_last()) as int,
            s.last() as int * limb_pow(m) as int,
        );
        lemma_mul_is_associative(limb_pow(k) as int, s.last() as int, limb_pow(m) as int);
        lemma_mul_is_commutative(limb_pow(k) as int, s.last() as int);
        lemma_mul_is_associative(s.last() as int, limb_pow(k) as int, limb_pow(m) as int);
    }
}

pub proof fn lemma_zeros_value(s: Seq<u64>)
    requires
        forall|i: int| 0 <= i < s.len() ==> s[i] == 0,
    ensures
        limbs_value(s) == 0,
    decreases s.len(),
{
    if s.len() > 0 {
        lemma_zeros_value(s.drop_last());
    }
}

/// The two limbs of a 128-bit number.
pub fn limbs_from_u128(x: u128) -> (r: Vec<u64>)
    ensures
        limbs_value(r@) == x,
        r.len() == 2,
{
    let lo = (x % 0x1_0000_0000_0000_0000u128) as u64;
    let hi = (x / 0x1_0000_0000_0000_0000u128) as u64;
    let mut r: Vec<u64> = Vec::new();
    r.push(lo);
    r.push(hi);
    proof {
        vstd::arithmetic::div_mod::lemma_fundamental_div_mod(x as int, limb_base() as int);
        assert(limb_pow(0) == 1);
        assert(limb_pow(1) == limb_base() * limb_pow(0));
        lemma_value_push(seq![lo], hi);
        lemma_value_push(Seq::<u64>::empty(), lo);
        assert(seq![lo] =~= Seq::<u64>::empty().push(lo));
        assert(r@ =~= seq![lo].push(hi));
        assert(lo == x % 0x1_0000_0000_0000_0000u128);
        assert(hi == x / 0x1_0000_0000_0000_0000u128);
        lemma_mul_is_commutative(hi as int, limb_base() as int);
        lemma_mul_basics(lo as int);
        assert(limbs_value(seq![lo]) == lo);
    }
    r
}

/// Appends zero limbs until `a` has `len` limbs; the value stays the same.
pub fn pad_limbs(a: &mut Vec<u64>, len: usize)
    ensures
        limbs_value(final(a)@) == limbs_value(old(a)@),
        final(a).len() == if old(a).len() < len { len } else { old(a).len() },
{
    while a.len() < len
        invariant
            limbs_value(a@) == limbs_value(old(a)@),
            old(a).len() <= a.len(),
            old(a).len() < len ==> a.len() <= len,
            old(a).len() >= len ==> a.len() == old(a).len(),
        decreases len - a.len(),
    {
        proof {
            lemma_value_push(a@, 0);
        }
        a.push(0);
    }
}

/// The sum of two numbers of the same number of limbs.
pub fn add_limbs(a: &Vec<u64>, b: &Vec<u64>) -> (r: Vec<u64>)
    requires
        a.len() == b.len(),
        a.len() < usize::MAX,
    ensures
        limbs_value(r@) == limbs_value(a@) + limbs_value(b@),
        r.len() == a.len() + 1,
{
    let mut r: Vec<u64> = Vec::new();
    let mut carry: u64 = 0;
    let n = a.len();
    for i in 0..n
        invariant
            n == a.len(),
            n == b.len(),
            r.len() == i,
            carry <= 1,
            limbs_value(r@) + carry * limb_pow(i as nat) == limbs_value(a@.take(i as int))
                + limbs_value(b@.take(i as int)),
    {
        let t: u128 = a[i] as u128 + b[i] as u128 + carry as u128;
        let lo = (t % 0x1_0000_0000_0000_0000u128) as u64;
        let hi = (t / 0x1_0000_0000_0000_0000u128) as u64;
        proof {
            let p = limb_pow(i as nat);
            lemma_value_push(r@, lo);
            assert(a@.take(i + 1) =~= a@.take(i as int).push(a[i as int]));
            assert(b@.take(i + 1) =~= b@.take(i as int).push(b[i as int]));
            lemma_value_push(a@.take(i as int), a[i as int]);
            lemma_value_push(b@.take(i as int), b[i as int]);
            assert(t == lo + hi * limb_base());
            assert(limb_pow((i + 1) as nat) == limb_base() * p);
            lemma_mul_is_associative(hi as int, limb_base() as int, p as int);
            lemma_mul_is_distributive_add_other_way(p as int, lo as int, hi * limb_base());
            lemma_mul_is_distributive_add_other_way(
                p as int,
                a[i as int] + b[i as int],
                carry as int,
            );
            lemma_mul_is_distributive_add_other_way(p as int, a[i as int] as int, b[i as int] as int);
        }
        r.push(lo);
        carry = hi;
    }
    proof {
        assert(a@.take(n as int) =~= a@);
        assert(b@.take(n as int) =~= b@);
        lemma_value_push(r@, carry);
    }
    r.push(carry);
    r
}

/// `a` times a single limb `x`.
pub fn mul_limb(a: &Vec<u64>, x: u64) -> (r: Vec<u64>)
    requires
        a.len() < usize::MAX,
    ensures
        limbs_value(r@) == limbs_value(a@) * x,
        r.len() == a.len() + 1,
{
    let mut r: Vec<u64> = Vec::new();
    let mut carry: u64 = 0;
    let n = a.len();
    proof {
        assert(a@.take(0) =~= Seq::<u64>::empty());
        assert(limbs_value(a@.take(0)) == 0);
        assert(limbs_value(r@) == 0);
        lemma_mul_basics(x as int);
        lemma_mul_basics(limb_pow(0) as int);
    }
    for i in 0..n
        invariant
            n == a.len(),
            r.len() == i,
            limbs_value(r@) + carry * limb_pow(i as nat) == limbs_value(a@.take(i as int)) * x,
    {
        let ai = a[i];
        assert(ai as int * x as int <= 0xffff_ffff_ffff_ffffint * 0xffff_ffff_ffff_ffffint)
            by (nonlinear_arith)
            requires
                ai <= 0xffff_ffff_ffff_ffffu64,
                x <= 0xffff_ffff_ffff_ffffu64,
        ;
        let t: u128 = ai as u128 * x as u128 + carry as u128;
        let lo = (t % 0x1_0000_0000_0000_0000u128) as u64;
        let hi = (t / 0x1_0000_0000_0000_0000u128) as u64;
        proof {
            let p = limb_pow(i as nat);
            let va = limbs_value(a@.take(i as int));
            lemma_value_push(r@, lo);
            assert(a@.take(i + 1) =~= a@.take(i as int).push(ai));
            lemma_value_push(a@.take(i as int), ai);
            assert(t == lo + hi * limb_base());
            assert(limb_pow((i + 1) as nat) == limb_base() * p);
            lemma_mul_is_associative(hi as int, limb_base() as int, p as int);
            lemma_mul_is_distributive_add_other_way(p as int, lo as int, hi * limb_base());
            lemma_mul_is_distributive_add_other_way(p as int, ai * x, carry as int);
            lemma_mul_is_distributive_add_other_way(x as int, va as int, ai * p);
            lemma_mul_is_associative(ai as int, p as int, x as int);
            lemma_mul_is_commutative(p as int, x as int);
            lemma_mul_is_associative(ai as int, x as int, p as int);
        }
        r.push(lo);
        carry = hi;
    }
    proof {
        assert(a@.take(n as int) =~= a@);
        lemma_value_push(r@, carry);
    }
    r.push(carry);
    r
}

/// `a` moved up by `k` limbs: `a` times `limb_pow(k)`.
pub fn shift_limbs(a: &Vec<u64>, k: usize) -> (r: Vec<u64>)
    requires
        a.len() + k <= usize::MAX,
    ensures
        limbs_value(r@) == limb_pow(k as nat) * limbs_value(a@),
        r.len() == a.len() + k,
{
    let mut r: Vec<u64> = Vec::new();
    for i in 0..k
        invariant
            r.len() == i,
            forall|j: int| 0 <= j < i ==> r@[j] == 0,
    {
        r.push(0);
    }
    let n = a.len();
    for i in 0..n
        invariant
            n == a.len(),
            r.len() == k + i,
            forall|j: int| 0 <= j < k ==> r@[j] == 0,
            forall|j: int| 0 <= j < i ==> r@[k + j] == a@[j],
    {
        r.push(a[i]);
    }
    proof {
        lemma_value_split(r@, k as nat);
        assert(r@.skip(k as int) =~= a@);
        lemma_zeros_value(r@.take(k as int));
    }
    r
}

/// The product of two numbers.
pub fn mul_limbs(a: &Vec<u64>, b: &Vec<u64>) -> (r: Vec<u64>)
    requires
        a.len() <= 64,
        b.len() <= 64,
    ensures
        limbs_value(r@) == limbs_value(a@) * limbs_value(b@),
        r.len() <= a.len() + b.len() + 2,
{
    let mut acc: Vec<u64> = Vec::new();
    let n = b.len();
    assert(b@.take(0) =~= Seq::<u64>::empty());
    proof {
        lemma_mul_basics(limbs_value(a@) as int);
    }
    for j in 0..n
        invariant
            n == b.len(),
            a.len() <= 64,
            b.len() <= 64,
            acc.len() <= a.len() + j + 2,
            limbs_value(acc@) == limbs_value(a@) * limbs_value(b@.take(j as int)),
    {
        let part = mul_limb(a, b[j]);
        let mut shifted = shift_limbs(&part, j);
        let len = if acc.len() < shifted.len() {
            shifted.len()
        } else {
            acc.len()
        };
        pad_limbs(&mut acc, len);
        pad_limbs(&mut shifted, len);
        proof {
            let va = limbs_value(a@);
            let p = limb_pow(j as nat);
            assert(b@.take(j + 1) =~= b@.take(j as int).push(b[j as int]));
            lemma_value_push(b@.take(j as int), b[j as int]);
            lemma_mul_is_distributive_add(va as int, limbs_value(b@.take(j as int)) as int, b[j as int] * p);
            lemma_mul_is_associative(va as int, b[j as int] as int, p as int);
            lemma_mul_is_commutative(p as int, va * b[j as int]);
        }
        acc = add_limbs(&acc, &shifted);
    }
    proof {
        assert(b@.take(n as int) =~= b@);
    }
    acc
}

/// Whether `a` is less than `b`.
pub fn lt_limbs(a: &Vec<u64>, b: &Vec<u64>) -> (res: bool)
    ensures
        res == (limbs_value(a@) < limbs_value(b@)),
{
    let mut x = a.clone();
    let mut y = b.clone();
    let len = if x.len() < y.len() {
        y.len()
    } else {
        x.len()
    };
    pad_limbs(&mut x, len);
    pad_limbs(&mut y, len);
    let mut i = len;
    while i > 0
        invariant
            x.len() == len,
            y.len() == len,
            i <= len,
            limbs_value(x@) == limbs_value(a@),
            limbs_value(y@) == limbs_value(b@),
            x@.skip(i as int) =~= y@.skip(i as int),
        decreases i,
    {
        let xi = x[i - 1];
        let yi = y[i - 1];
        if xi != yi {
            proof {
                let k = (i - 1) as nat;
                lemma_value_split(x@, k);
                lemma_value_split(y@, k);
                let hx = x@.skip(k as int);
                let hy = y@.skip(k as int);
                assert(hx.drop_first() =~= x@.skip(i as int));
                assert(hy.drop_first() =~= y@.skip(i as int));
                lemma_value_split(hx, 1);
                lemma_value_split(hy, 1);
                assert(hx.take(1) =~= seq![xi]);
                assert(hy.take(1) =~= seq![yi]);
                assert(hx.skip(1) =~= hy.skip(1));
                lemma_value_push(Seq::<u64>::empty(), xi);
                lemma_value_push(Seq::<u64>::empty(), yi);
                assert(seq![xi] =~= Seq::<u64>::empty().push(xi));
                assert(seq![yi] =~= Seq::<u64>::empty().push(yi));
                lemma_value_bound(x@.take(k as int));
                lemma_value_bound(y@.take(k as int));
                let p = limb_pow(k);
                let h = limbs_value(hx.skip(1));
                let lx = limbs_value(x@.take(k as int));
                let ly = limbs_value(y@.take(k as int));
                assert(limb_pow(0) == 1);
                assert(limb_pow(1) == limb_base() * limb_pow(0));
                lemma_mul_basics(xi as int);
                lemma_mul_basics(yi as int);
                assert(limbs_value(seq![xi]) == xi);
                assert(limbs_value(seq![yi]) == yi);
                assert(limbs_value(hx) == xi + limb_base() * h);
                assert(limbs_value(hy) == yi + limb_base() * h);
                lemma_mul_is_distributive_add(p as int, xi as int, (limb_base() * h) as int);
                lemma_mul_is_distributive_add(p as int, yi as int, (limb_base() * h) as int);
                let c = p * (limb_base() * h);
                assert(limbs_value(x@) == lx + p * xi + c);
                assert(limbs_value(y@) == ly + p * yi + c);
                if xi < yi {
                    lemma_mul_inequality(xi + 1, yi as int, p as int);
                    lemma_mul_is_distributive_add_other_way(p as int, xi as int, 1);
                    lemma_mul_is_commutative(p as int, xi as int);
                    lemma_mul_is_commutative(p as int, yi as int);
                    lemma_mul_basics(p as int);
                    assert(limbs_value(x@) < limbs_value(y@));
                } else {
                    lemma_mul_inequality(yi + 1, xi as int, p as int);
                    lemma_mul_is_distributive_add_other_way(p as int, yi as int, 1);
                    lemma_mul_is_commutative(p as int, xi as int);
                    lemma_mul_is_commutative(p as int, yi as int);
                    lemma_mul_basics(p as int);
                    assert(limbs_value(y@) < limbs_value(x@));
                }
            }
            return xi < yi;
        }
        proof {
            assert(x@.skip(i - 1) =~= seq![xi] + x@.skip(i as int));
            assert(y@.skip(i - 1) =~= seq![yi] + y@.skip(i as int));
        }
        i = i - 1;
    }
    proof {
        assert(x@ =~= x@.skip(0));
        assert(y@ =~= y@.skip(0));
    }
    false
}

} // verus!
