//! Normalized cross-correlation template matching, used to report whether the
//! watermark is where it is expected and how confidently.
//!
//! Scores are kept exact: a window's score is `covariance / sqrt(image_spread *
//! template_spread)`, where the three integers are the sums of the window
//! scaled by the number of pixels. Comparing scores only multiplies integers.

use crate::raster::{lemma_pixel_index_bound, pixel_index, GrayRaster};
use crate::bignum::{
    limb_pow, limbs_from_u128, limbs_value, lemma_value_push, lt_limbs, mul_limbs,
};
use vstd::arithmetic::mul::*;
use vstd::prelude::*;

verus! {

/// A nonnegative fraction `numerator / denominator`.
#[derive(Debug, Clone, Copy, PartialEq, Eq, Structural)]
pub struct Fraction {
    pub numerator: u32,
    pub denominator: u32,
}

/// An exact correlation score `covariance / sqrt(image_spread * template_spread)`;
/// it is 0 where either spread is 0.
#[derive(Debug, Clone, Copy, PartialEq, Eq, Structural)]
pub struct NccScore {
    pub covariance: i128,
    pub image_spread: u128,
    pub template_spread: u128,
}

impl NccScore {
    /// The product of the two spreads, the square of the score's denominator.
    pub open spec fn spread_product(self) -> int {
        self.image_spread as int * self.template_spread as int
    }

    /// The numerator of the score squared with its sign kept: `sign(s) * s^2` is
    /// `key_num() / key_den()`.
    pub open spec fn key_num(self) -> int {
        if self.spread_product() == 0 {
            0
        } else if self.covariance >= 0 {
            self.covariance * self.covariance
        } else {
            -(self.covariance * self.covariance)
        }
    }

    /// The (positive) denominator of `sign(s) * s^2`.
    pub open spec fn key_den(self) -> int {
        if self.spread_product() == 0 {
            1
        } else {
            self.spread_product()
        }
    }

    /// `self` is a strictly greater score than `other`. Since `s -> sign(s) * s^2`
    /// is strictly increasing, this compares the scores themselves.
    pub open spec fn exceeds(self, other: NccScore) -> bool {
        self.key_num() * other.key_den() > other.key_num() * self.key_den()
    }

    /// The score is greater than 0.
    pub open spec fn is_positive(self) -> bool {
        self.key_num() > 0
    }

    /// The score is at least `f`.
    pub open spec fn reaches(self, f: Fraction) -> bool {
        self.key_num() * (f.denominator * f.denominator) >= (f.numerator * f.numerator)
            * self.key_den()
    }

    /// The score 0, where no window has been seen.
    pub open spec fn spec_zero() -> NccScore {
        NccScore { covariance: 0, image_spread: 0, template_spread: 0 }
    }

    /// The score 0.
    pub fn zero() -> (s: NccScore)
        ensures
            s == NccScore::spec_zero(),
    {
        NccScore { covariance: 0, image_spread: 0, template_spread: 0 }
    }

    /// Whether `self` is a strictly greater score than `other`.
    pub fn gt(&self, other: &NccScore) -> (res: bool)
        ensures
            res == self.exceeds(*other),
    {
        let ss = score_sign(self);
        let so = score_sign(other);
        proof {
            lemma_key_den_positive(*self);
            lemma_key_den_positive(*other);
            lemma_mul_basics(other.key_den());
            lemma_mul_basics(self.key_den());
        }
        if ss != so {
            proof {
                lemma_signed_product(self.key_num(), other.key_den());
                lemma_signed_product(other.key_num(), self.key_den());
            }
            return ss > so;
        }
        if ss == 0 {
            return false;
        }
        let l = magnitude_times_den(self, other);
        let r = magnitude_times_den(other, self);
        proof {
            lemma_signed_product(self.key_num(), other.key_den());
            lemma_signed_product(other.key_num(), self.key_den());
        }
        if ss > 0 {
            lt_limbs(&r, &l)
        } else {
            lt_limbs(&l, &r)
        }
    }

    /// Whether the score is at least `f`.
    pub fn reaches_fraction(&self, f: Fraction) -> (res: bool)
        requires
            f.denominator > 0,
        ensures
            res == self.reaches(f),
    {
        let s = score_sign(self);
        let fd = f.denominator as u128;
        let fnum = f.numerator as u128;
        proof {
            lemma_key_den_positive(*self);
            lemma_mul_nonnegative(f.numerator as int, f.numerator as int);
            lemma_mul_nonnegative(f.denominator as int, f.denominator as int);
            lemma_mul_nonnegative(f.numerator * f.numerator, self.key_den());
        }
        if s < 0 {
            proof {
                lemma_mul_strictly_positive(f.denominator as int, f.denominator as int);
                lemma_signed_product(self.key_num(), f.denominator * f.denominator);
            }
            return false;
        }
        if s == 0 {
            proof {
                lemma_mul_basics(f.denominator * f.denominator);
                lemma_mul_basics(self.key_den());
                lemma_mul_basics(0);
                if f.numerator != 0 {
                    lemma_mul_strictly_positive(f.numerator as int, f.numerator as int);
                    lemma_mul_strictly_positive(f.numerator * f.numerator, self.key_den());
                }
            }
            return f.numerator == 0;
        }
        // Both sides are nonnegative: compare cov^2 * den^2 with num^2 * spreads.
        let m = abs_i128(self.covariance);
        let mm = mul_limbs(&limbs_from_u128(m), &limbs_from_u128(m));
        let dd = mul_limbs(&limbs_from_u128(fd), &limbs_from_u128(fd));
        let lhs = mul_limbs(&mm, &dd);
        let nn = mul_limbs(&limbs_from_u128(fnum), &limbs_from_u128(fnum));
        let rhs = mul_limbs(&nn, &key_den_limbs(self));
        proof {
            lemma_spread_product_zero(*self);
            let c = self.covariance as int;
            assert(c * c >= 0) by (nonlinear_arith);
            assert(c == 0 ==> c * c == 0) by (nonlinear_arith);
            assert(self.covariance > 0);
            assert(m * m == self.key_num());
        }
        !lt_limbs(&lhs, &rhs)
    }
}

/// The absolute value of an integer.
pub open spec fn abs_int(x: int) -> int {
    if x >= 0 {
        x
    } else {
        -x
    }
}

/// The sign (-1, 0 or 1) of a score.
fn score_sign(s: &NccScore) -> (r: i8)
    ensures
        r == 0 <==> s.key_num() == 0,
        r > 0 <==> s.key_num() > 0,
        r < 0 <==> s.key_num() < 0,
        -1 <= r <= 1,
{
    proof {
        lemma_spread_product_zero(*s);
        if s.covariance != 0 {
            lemma_mul_strictly_positive(abs_int(s.covariance as int), abs_int(s.covariance as int));
            lemma_mul_unary_negation(s.covariance as int, s.covariance as int);
            lemma_mul_unary_negation(-s.covariance, s.covariance as int);
        }
        lemma_mul_basics(0);
    }
    if s.image_spread == 0 || s.template_spread == 0 || s.covariance == 0 {
        0
    } else if s.covariance > 0 {
        1
    } else {
        -1
    }
}

/// `|c|` as an unsigned number.
fn abs_i128(c: i128) -> (m: u128)
    ensures
        m == abs_int(c as int),
{
    if c >= 0 {
        c as u128
    } else {
        (-(c + 1)) as u128 + 1
    }
}

/// `key_den()` of a score as limbs.
fn key_den_limbs(s: &NccScore) -> (r: Vec<u64>)
    ensures
        limbs_value(r@) == s.key_den(),
        r.len() <= 6,
{
    proof {
        lemma_spread_product_zero(*s);
    }
    if s.image_spread == 0 || s.template_spread == 0 {
        let mut r: Vec<u64> = Vec::new();
        r.push(1);
        proof {
            lemma_value_push(Seq::<u64>::empty(), 1);
            assert(r@ =~= Seq::<u64>::empty().push(1));
            assert(limb_pow(0) == 1);
        }
        r
    } else {
        mul_limbs(&limbs_from_u128(s.image_spread), &limbs_from_u128(s.template_spread))
    }
}

/// `|key_num(a)| * key_den(b)` as limbs.
fn magnitude_times_den(a: &NccScore, b: &NccScore) -> (r: Vec<u64>)
    ensures
        limbs_value(r@) == abs_int(a.key_num()) * b.key_den(),
{
    proof {
        lemma_spread_product_zero(*a);
    }
    let m: u128 = if a.image_spread == 0 || a.template_spread == 0 {
        0
    } else {
        abs_i128(a.covariance)
    };
    let mm = mul_limbs(&limbs_from_u128(m), &limbs_from_u128(m));
    proof {
        if a.spread_product() != 0 {
            if a.covariance < 0 {
                lemma_mul_unary_negation(-a.covariance, a.covariance as int);
                lemma_mul_unary_negation(a.covariance as int, a.covariance as int);
            }
        } else {
            lemma_mul_basics(0);
        }
        assert(m * m == abs_int(a.key_num()));
    }
    mul_limbs(&mm, &key_den_limbs(b))
}

/// The spread product is 0 exactly when one of the spreads is.
proof fn lemma_spread_product_zero(s: NccScore)
    ensures
        (s.spread_product() == 0) <==> (s.image_spread == 0 || s.template_spread == 0),
        s.spread_product() >= 0,
{
    lemma_mul_nonnegative(s.image_spread as int, s.template_spread as int);
    if s.image_spread != 0 && s.template_spread != 0 {
        lemma_mul_strictly_positive(s.image_spread as int, s.template_spread as int);
    } else {
        lemma_mul_basics(s.image_spread as int);
        lemma_mul_basics(s.template_spread as int);
    }
}

proof fn lemma_key_den_positive(s: NccScore)
    ensures
        s.key_den() > 0,
{
    lemma_spread_product_zero(s);
}

/// A product with a positive factor keeps the sign of the other factor, and
/// its magnitude is the product of the magnitudes.
proof fn lemma_signed_product(n: int, d: int)
    requires
        d > 0,
    ensures
        n > 0 ==> n * d > 0,
        n == 0 ==> n * d == 0,
        n < 0 ==> n * d < 0,
        n >= 0 ==> n * d == abs_int(n) * d,
        n < 0 ==> n * d == -(abs_int(n) * d),
{
    if n > 0 {
        lemma_mul_strictly_positive(n, d);
    } else if n < 0 {
        lemma_mul_strictly_positive(-n, d);
        lemma_mul_unary_negation(-n, d);
    } else {
        lemma_mul_basics(d);
    }
}


/// The score order never puts a score above itself.
pub proof fn lemma_exceeds_irreflexive(s: NccScore)
    ensures
        !s.exceeds(s),
{
}

/// The score order is transitive.
pub proof fn lemma_exceeds_transitive(a: NccScore, b: NccScore, c: NccScore)
    requires
        a.exceeds(b),
        b.exceeds(c),
    ensures
        a.exceeds(c),
{
    lemma_exceeds_mixed(a, b, c);
}

/// A score above `b` is above every score that is not above `b`.
pub proof fn lemma_exceeds_mixed(s: NccScore, b: NccScore, w: NccScore)
    requires
        s.exceeds(b),
        !w.exceeds(b),
    ensures
        s.exceeds(w),
{
    lemma_key_den_positive(s);
    lemma_key_den_positive(b);
    lemma_key_den_positive(w);
    let (ns, ds) = (s.key_num(), s.key_den());
    let (nb, db) = (b.key_num(), b.key_den());
    let (nw, dw) = (w.key_num(), w.key_den());
    assert(ns * dw > nw * ds) by (nonlinear_arith)
        requires
            ns * db > nb * ds,
            nw * db <= nb * dw,
            ds > 0,
            db > 0,
            dw > 0,
    {
        assert(ns * db * dw > nb * ds * dw);
        assert(nw * db * ds <= nb * dw * ds);
        assert(ns * dw * db > nw * ds * db);
    }
}

/// A score is above the zero score exactly when it is positive.
pub proof fn lemma_exceeds_zero(s: NccScore)
    ensures
        s.exceeds(NccScore::spec_zero()) <==> s.is_positive(),
        !NccScore::spec_zero().exceeds(s) <==> s.key_num() >= 0,
{
    lemma_key_den_positive(s);
    lemma_mul_basics(s.key_den());
    lemma_mul_basics(s.key_num());
    assert(NccScore::spec_zero().key_den() == 1);
    assert(NccScore::spec_zero().key_num() == 0);
}

/// Sum of the first `k` values.
pub open spec fn prefix_sum(s: Seq<u8>, k: int) -> int
    decreases k,
{
    if k <= 0 {
        0
    } else {
        prefix_sum(s, k - 1) + s[k - 1]
    }
}

/// Sum of the squares of the first `k` values.
pub open spec fn prefix_sum_sq(s: Seq<u8>, k: int) -> int
    decreases k,
{
    if k <= 0 {
        0
    } else {
        prefix_sum_sq(s, k - 1) + s[k - 1] * s[k - 1]
    }
}

/// Sum of the products of the first `k` pairs.
pub open spec fn prefix_dot(s: Seq<u8>, t: Seq<u8>, k: int) -> int
    decreases k,
{
    if k <= 0 {
        0
    } else {
        prefix_dot(s, t, k - 1) + s[k - 1] * t[k - 1]
    }
}

/// `n` times the sum of squared deviations from the mean: `n * sum(x^2) - sum(x)^2`.
pub open spec fn spread(s: Seq<u8>) -> int {
    s.len() * prefix_sum_sq(s, s.len() as int) - prefix_sum(s, s.len() as int) * prefix_sum(
        s,
        s.len() as int,
    )
}

/// `n` times the sum of products of deviations: `n * sum(x * y) - sum(x) * sum(y)`.
pub open spec fn covariance(s: Seq<u8>, t: Seq<u8>) -> int {
    t.len() * prefix_dot(s, t, t.len() as int) - prefix_sum(s, t.len() as int) * prefix_sum(
        t,
        t.len() as int,
    )
}

/// The pixels that a `tw` by `th` template covers at offset `(x, y)`, row by row.
pub open spec fn window(img: GrayRaster, x: int, y: int, tw: int, th: int) -> Seq<u8> {
    Seq::new((tw * th) as nat, |k: int| img.at(x + k % tw, y + k / tw))
}

/// The correlation score of the template at offset `(x, y)` of the image.
pub open spec fn spec_window_score(img: GrayRaster, tpl: GrayRaster, x: int, y: int) -> NccScore {
    let w = window(img, x, y, tpl.width as int, tpl.height as int);
    NccScore {
        covariance: covariance(w, tpl.data@) as i128,
        image_spread: spread(w) as u128,
        template_spread: spread(tpl.data@) as u128,
    }
}

/// The correlation score of the top-left `tw` by `th` part of the template at
/// offset `(x, y)` of the image.
pub open spec fn spec_partial_score(
    img: GrayRaster,
    tpl: GrayRaster,
    x: int,
    y: int,
    tw: int,
    th: int,
) -> NccScore {
    let w = window(img, x, y, tw, th);
    let t = window(tpl, 0, 0, tw, th);
    NccScore {
        covariance: covariance(w, t) as i128,
        image_spread: spread(w) as u128,
        template_spread: spread(t) as u128,
    }
}

/// A whole buffer read as its own window is the buffer itself.
pub proof fn lemma_full_window(img: GrayRaster)
    requires
        img.wf(),
    ensures
        window(img, 0, 0, img.width as int, img.height as int) =~= img.data@,
{
    let w = img.width as int;
    let h = img.height as int;
    assert forall|k: int| 0 <= k < w * h implies #[trigger] img.data@[k] == img.at(k % w, k / w) by {
        vstd::arithmetic::div_mod::lemma_fundamental_div_mod(k, w);
        lemma_mul_is_commutative(w, k / w);
    }
}

/// `sum((x_i - c)^2)` over the first `k` values, expanded, is never negative.
proof fn lemma_deviation_nonneg(s: Seq<u8>, k: int, c: int)
    requires
        0 <= k <= s.len(),
    ensures
        prefix_sum_sq(s, k) - 2 * c * prefix_sum(s, k) + k * c * c >= 0,
    decreases k,
{
    if k > 0 {
        lemma_deviation_nonneg(s, k - 1, c);
        let x = s[k - 1] as int;
        let q = prefix_sum_sq(s, k - 1);
        let t = prefix_sum(s, k - 1);
        assert(prefix_sum_sq(s, k) - 2 * c * prefix_sum(s, k) + k * c * c == (q - 2 * c * t + (k
            - 1) * c * c) + (x - c) * (x - c)) by (nonlinear_arith)
            requires
                prefix_sum_sq(s, k) == q + x * x,
                prefix_sum(s, k) == t + x,
        ;
        assert((x - c) * (x - c) >= 0) by (nonlinear_arith);
    } else {
        assert(k * c * c == 0) by (nonlinear_arith)
            requires
                k == 0,
        ;
    }
}

/// `k * sum(x^2) - sum(x)^2` over the first `k` values is never negative.
pub proof fn lemma_prefix_spread_nonneg(s: Seq<u8>, k: int)
    requires
        0 <= k <= s.len(),
    ensures
        k * prefix_sum_sq(s, k) - prefix_sum(s, k) * prefix_sum(s, k) >= 0,
    decreases k,
{
    if k > 0 {
        lemma_prefix_spread_nonneg(s, k - 1);
        let x = s[k - 1] as int;
        lemma_deviation_nonneg(s, k - 1, x);
        let q = prefix_sum_sq(s, k - 1);
        let t = prefix_sum(s, k - 1);
        assert(k * prefix_sum_sq(s, k) - prefix_sum(s, k) * prefix_sum(s, k) == ((k - 1) * q - t
            * t) + (q - 2 * x * t + (k - 1) * x * x)) by (nonlinear_arith)
            requires
                prefix_sum_sq(s, k) == q + x * x,
                prefix_sum(s, k) == t + x,
        ;
    }
}

/// The spread of a sequence is never negative.
pub proof fn lemma_spread_nonneg(s: Seq<u8>)
    ensures
        spread(s) >= 0,
{
    lemma_prefix_spread_nonneg(s, s.len() as int);
}

/// Bounds of the prefix sums of bytes.
proof fn lemma_prefix_bounds(s: Seq<u8>, t: Seq<u8>, k: int)
    requires
        0 <= k <= s.len(),
        k <= t.len(),
    ensures
        0 <= prefix_sum(s, k) <= 255 * k,
        0 <= prefix_sum_sq(s, k) <= 65025 * k,
        0 <= prefix_dot(s, t, k) <= 65025 * k,
    decreases k,
{
    if k > 0 {
        lemma_prefix_bounds(s, t, k - 1);
        let x = s[k - 1];
        let y = t[k - 1];
        assert(0 <= x * x <= 65025) by (nonlinear_arith)
            requires
                x <= 255,
        ;
        assert(0 <= x * y <= 65025) by (nonlinear_arith)
            requires
                x <= 255,
                y <= 255,
        ;
    }
}

/// The exact correlation score of the template at `(offset_x, offset_y)`.
fn calculate_ncc(
    image: &GrayRaster,
    template: &GrayRaster,
    offset_x: u32,
    offset_y: u32,
    tpl_width: u32,
    tpl_height: u32,
) -> (score: NccScore)
    requires
        image.wf(),
        template.wf(),
        tpl_width <= template.width,
        tpl_height <= template.height,
        offset_x + tpl_width <= image.width,
        offset_y + tpl_height <= image.height,
        tpl_width * tpl_height <= u32::MAX,
    ensures
        score == spec_partial_score(
            *image,
            *template,
            offset_x as int,
            offset_y as int,
            tpl_width as int,
            tpl_height as int,
        ),
{
    let ghost w = window(*image, offset_x as int, offset_y as int, tpl_width as int, tpl_height as int);
    let ghost t = window(*template, 0, 0, tpl_width as int, tpl_height as int);
    let ghost n = tpl_width * tpl_height;
    let mut sum_img: u64 = 0;
    let mut sum_tpl: u64 = 0;
    let mut sq_img: u64 = 0;
    let mut sq_tpl: u64 = 0;
    let mut dot: u64 = 0;
    let mut k: usize = 0;
    proof {
        lemma_mul_basics(tpl_width as int);
    }
    for dy in 0..tpl_height
        invariant
            image.wf(),
            template.wf(),
            tpl_width <= template.width,
            tpl_height <= template.height,
            offset_x + tpl_width <= image.width,
            offset_y + tpl_height <= image.height,
            n == tpl_width * tpl_height,
            n <= u32::MAX,
            w == window(*image, offset_x as int, offset_y as int, tpl_width as int, tpl_height as int),
            t == window(*template, 0, 0, tpl_width as int, tpl_height as int),
            k == dy * tpl_width,
            sum_img == prefix_sum(w, k as int),
            sum_tpl == prefix_sum(t, k as int),
            sq_img == prefix_sum_sq(w, k as int),
            sq_tpl == prefix_sum_sq(t, k as int),
            dot == prefix_dot(w, t, k as int),
    {
        proof {
            lemma_mul_inequality(dy + 1, tpl_height as int, tpl_width as int);
            lemma_mul_is_distributive_add_other_way(tpl_width as int, dy as int, 1);
            lemma_mul_is_commutative(tpl_width as int, tpl_height as int);
        }
        for dx in 0..tpl_width
            invariant
                image.wf(),
                template.wf(),
                tpl_width <= template.width,
                tpl_height <= template.height,
                offset_x + tpl_width <= image.width,
                offset_y + tpl_height <= image.height,
                n == tpl_width * tpl_height,
                n <= u32::MAX,
                dy < tpl_height,
                (dy + 1) * tpl_width <= n,
                w == window(*image, offset_x as int, offset_y as int, tpl_width as int, tpl_height as int),
                t == window(*template, 0, 0, tpl_width as int, tpl_height as int),
                k == dy * tpl_width + dx,
                sum_img == prefix_sum(w, k as int),
                sum_tpl == prefix_sum(t, k as int),
                sq_img == prefix_sum_sq(w, k as int),
                sq_tpl == prefix_sum_sq(t, k as int),
                dot == prefix_dot(w, t, k as int),
        {
            proof {
                lemma_mul_is_distributive_add_other_way(tpl_width as int, dy as int, 1);
                assert(k < n);
                vstd::arithmetic::div_mod::lemma_fundamental_div_mod_converse(
                    k as int,
                    tpl_width as int,
                    dy as int,
                    dx as int,
                );
                assert(w[k as int] == image.at(offset_x + dx, offset_y + dy));
                assert(t[k as int] == template.at(dx as int, dy as int));
                lemma_prefix_bounds(w, t, k as int);
                lemma_prefix_bounds(t, t, k as int);
            }
            let ip = image.get_pixel(offset_x + dx, offset_y + dy) as u64;
            let tp = template.get_pixel(dx, dy) as u64;
            assert(ip * ip <= 65025 && tp * tp <= 65025 && ip * tp <= 65025) by (nonlinear_arith)
                requires
                    ip <= 255,
                    tp <= 255,
            ;
            sum_img = sum_img + ip;
            sum_tpl = sum_tpl + tp;
            sq_img = sq_img + ip * ip;
            sq_tpl = sq_tpl + tp * tp;
            dot = dot + ip * tp;
            k = k + 1;
        }
    }
    proof {
        lemma_mul_is_commutative(tpl_width as int, tpl_height as int);
        assert(k == n);
        lemma_prefix_bounds(w, t, n as int);
        lemma_prefix_bounds(t, t, n as int);
        lemma_spread_nonneg(w);
        lemma_spread_nonneg(t);
    }
    let count = k as u64;
    assert(count * dot <= 0x1_0000_0000 * (65025 * 0x1_0000_0000)) by (nonlinear_arith)
        requires
            count <= 0xffff_ffff,
            dot <= 65025 * count,
    ;
    assert(count * sq_img <= 0x1_0000_0000 * (65025 * 0x1_0000_0000)) by (nonlinear_arith)
        requires
            count <= 0xffff_ffff,
            sq_img <= 65025 * count,
    ;
    assert(count * sq_tpl <= 0x1_0000_0000 * (65025 * 0x1_0000_0000)) by (nonlinear_arith)
        requires
            count <= 0xffff_ffff,
            sq_tpl <= 65025 * count,
    ;
    assert(sum_img * sum_tpl <= (255 * 0x1_0000_0000) * (255 * 0x1_0000_0000)) by (nonlinear_arith)
        requires
            count <= 0xffff_ffff,
            sum_img <= 255 * count,
            sum_tpl <= 255 * count,
    ;
    assert(sum_img * sum_img <= (255 * 0x1_0000_0000) * (255 * 0x1_0000_0000)) by (nonlinear_arith)
        requires
            count <= 0xffff_ffff,
            sum_img <= 255 * count,
    ;
    assert(sum_tpl * sum_tpl <= (255 * 0x1_0000_0000) * (255 * 0x1_0000_0000)) by (nonlinear_arith)
        requires
            count <= 0xffff_ffff,
            sum_tpl <= 255 * count,
    ;
    assert(sum_img <= 0x100_0000_0000 && sum_tpl <= 0x100_0000_0000);
    assert(sum_img * sum_tpl <= 0x100_0000_0000 * 0x100_0000_0000) by (nonlinear_arith)
        requires
            sum_img <= 0x100_0000_0000,
            sum_tpl <= 0x100_0000_0000,
    ;
    let cov: i128 = count as i128 * dot as i128 - sum_img as i128 * sum_tpl as i128;
    let spread_img: i128 = count as i128 * sq_img as i128 - sum_img as i128 * sum_img as i128;
    let spread_tpl: i128 = count as i128 * sq_tpl as i128 - sum_tpl as i128 * sum_tpl as i128;
    NccScore {
        covariance: cov,
        image_spread: spread_img as u128,
        template_spread: spread_tpl as u128,
    }
}


/// Settings of the template search.
#[derive(Debug, Clone, Copy, PartialEq, Eq, Structural)]
pub struct NccConfig {
    /// The least score at which the watermark counts as found.
    pub threshold: Fraction,
    /// Scale of the search; the search does not read it.
    pub search_scale: Fraction,
}

impl Default for NccConfig {
    /// A threshold of 0.7 and a search scale of 1.
    fn default() -> (config: NccConfig)
        ensures
            config.threshold == (Fraction { numerator: 7, denominator: 10 }),
            config.search_scale == (Fraction { numerator: 1, denominator: 1 }),
    {
        NccConfig {
            threshold: Fraction { numerator: 7, denominator: 10 },
            search_scale: Fraction { numerator: 1, denominator: 1 },
        }
    }
}

/// What a template search found.
#[derive(Debug, Clone, Copy, PartialEq, Eq)]
pub struct NccResult {
    /// The best score reaches the threshold.
    pub found: bool,
    /// The best score, and 0 where no window scored above 0.
    pub confidence: NccScore,
    /// The offset of the first window with the best score, where that score is above 0.
    pub position: Option<(u32, u32)>,
}

/// The template fits inside the image.
pub open spec fn template_fits(image: GrayRaster, template: GrayRaster) -> bool {
    template.width <= image.width && template.height <= image.height
}

/// `(x, y)` is an offset at which the whole template lies inside the image.
pub open spec fn valid_offset(image: GrayRaster, template: GrayRaster, x: int, y: int) -> bool {
    0 <= x <= image.width - template.width && 0 <= y <= image.height - template.height
}

/// Offset `(x1, y1)` comes before `(x2, y2)` in row-major order.
pub open spec fn scanned_before(x1: int, y1: int, x2: int, y2: int) -> bool {
    y1 < y2 || (y1 == y2 && x1 < x2)
}

/// The result of a search over a template that fits: the first best window, if
/// any window scored above 0.
pub open spec fn is_best_match(image: GrayRaster, template: GrayRaster, result: NccResult) -> bool {
    match result.position {
        None => {
            &&& result.confidence == NccScore::spec_zero()
            &&& forall|x: int, y: int|
                valid_offset(image, template, x, y) ==> !#[trigger] spec_window_score(
                    image,
                    template,
                    x,
                    y,
                ).is_positive()
        },
        Some((px, py)) => {
            &&& valid_offset(image, template, px as int, py as int)
            &&& result.confidence == spec_window_score(image, template, px as int, py as int)
            &&& result.confidence.is_positive()
            &&& forall|x: int, y: int|
                valid_offset(image, template, x, y) ==> !#[trigger] spec_window_score(
                    image,
                    template,
                    x,
                    y,
                ).exceeds(result.confidence)
            &&& forall|x: int, y: int|
                valid_offset(image, template, x, y) && scanned_before(x, y, px as int, py as int)
                    ==> result.confidence.exceeds(#[trigger] spec_window_score(image, template, x, y))
        },
    }
}

/// What a search with the given threshold reports: nothing where the template
/// does not fit; otherwise the first best window, found when its score reaches
/// the threshold.
pub open spec fn detection_outcome(
    image: GrayRaster,
    template: GrayRaster,
    threshold: Fraction,
    result: NccResult,
) -> bool {
    &&& !template_fits(image, template) ==> result == (NccResult {
        found: false,
        confidence: NccScore::spec_zero(),
        position: None,
    })
    &&& template_fits(image, template) ==> {
        &&& is_best_match(image, template, result)
        &&& result.found == result.confidence.reaches(threshold)
    }
}

/// `a` is at most `b`, for fractions with positive denominators.
pub open spec fn fraction_le(a: Fraction, b: Fraction) -> bool {
    a.numerator * b.denominator <= b.numerator * a.denominator
}

/// Slides the template over every offset where it fits and keeps the first
/// window with the highest score; the watermark is found when that score reaches
/// the threshold. A template larger than the image is never found.
pub fn detect_watermark(image: &GrayRaster, template: &GrayRaster, config: &NccConfig) -> (result:
    NccResult)
    requires
        image.wf(),
        template.wf(),
        config.threshold.denominator > 0,
        template_fits(*image, *template) ==> {
            &&& template.width * template.height <= u32::MAX
            &&& image.width - template.width < u32::MAX
            &&& image.height - template.height < u32::MAX
        },
    ensures
        detection_outcome(*image, *template, config.threshold, result),
{
    let img_width = image.width;
    let img_height = image.height;
    let tpl_width = template.width;
    let tpl_height = template.height;
    if tpl_width > img_width || tpl_height > img_height {
        return NccResult { found: false, confidence: NccScore::zero(), position: None };
    }
    let max_x = img_width - tpl_width + 1;
    let max_y = img_height - tpl_height + 1;
    let mut best_score = NccScore::zero();
    let mut best_position: Option<(u32, u32)> = None;
    let ghost img = *image;
    let ghost tpl = *template;
    for y in 0..max_y
        invariant
            img == *image,
            tpl == *template,
            image.wf(),
            template.wf(),
            template_fits(img, tpl),
            img_width == image.width,
            img_height == image.height,
            tpl_width == template.width,
            tpl_height == template.height,
            max_x == img_width - tpl_width + 1,
            max_y == img_height - tpl_height + 1,
            tpl_width * tpl_height <= u32::MAX,
            forall|xx: int, yy: int|
                0 <= xx < max_x && 0 <= yy < y ==> !#[trigger] spec_window_score(
                    img,
                    tpl,
                    xx,
                    yy,
                ).exceeds(best_score),
            best_position is None ==> best_score == NccScore::spec_zero(),
            best_position matches Some((px, py)) ==> {
                &&& px < max_x
                &&& py < y
                &&& best_score == spec_window_score(img, tpl, px as int, py as int)
                &&& best_score.is_positive()
                &&& forall|xx: int, yy: int|
                    0 <= xx < max_x && 0 <= yy < max_y && scanned_before(xx, yy, px as int, py as int)
                        ==> best_score.exceeds(#[trigger] spec_window_score(img, tpl, xx, yy))
            },
    {
        for x in 0..max_x
            invariant
                img == *image,
                tpl == *template,
                image.wf(),
                template.wf(),
                template_fits(img, tpl),
                img_width == image.width,
                img_height == image.height,
                tpl_width == template.width,
                tpl_height == template.height,
                max_x == img_width - tpl_width + 1,
                max_y == img_height - tpl_height + 1,
                tpl_width * tpl_height <= u32::MAX,
                y < max_y,
                forall|xx: int, yy: int|
                    0 <= xx < max_x && 0 <= yy < max_y && scanned_before(xx, yy, x as int, y as int)
                        ==> !#[trigger] spec_window_score(img, tpl, xx, yy).exceeds(best_score),
                best_position is None ==> best_score == NccScore::spec_zero(),
                best_position matches Some((px, py)) ==> {
                    &&& px < max_x
                    &&& py < max_y
                    &&& scanned_before(px as int, py as int, x as int, y as int)
                    &&& best_score == spec_window_score(img, tpl, px as int, py as int)
                    &&& best_score.is_positive()
                    &&& forall|xx: int, yy: int|
                        0 <= xx < max_x && 0 <= yy < max_y && scanned_before(
                            xx,
                            yy,
                            px as int,
                            py as int,
                        ) ==> best_score.exceeds(#[trigger] spec_window_score(img, tpl, xx, yy))
                },
        {
            let score = calculate_ncc(image, template, x, y, tpl_width, tpl_height);
            proof {
                lemma_full_window(*template);
            }
            if score.gt(&best_score) {
                proof {
                    let old_best = best_score;
                    if old_best == NccScore::spec_zero() {
                        lemma_exceeds_zero(score);
                    } else {
                        lemma_exceeds_zero(old_best);
                        lemma_exceeds_transitive(score, old_best, NccScore::spec_zero());
                        lemma_exceeds_zero(score);
                    }
                    assert forall|xx: int, yy: int|
                        0 <= xx < max_x && 0 <= yy < max_y && scanned_before(
                            xx,
                            yy,
                            x as int,
                            y as int,
                        ) implies score.exceeds(#[trigger] spec_window_score(img, tpl, xx, yy)) by {
                        lemma_exceeds_mixed(score, old_best, spec_window_score(img, tpl, xx, yy));
                    }
                }
                best_score = score;
                best_position = Some((x, y));
            }
        }
    }
    let found = best_score.reaches_fraction(config.threshold);
    proof {
        if best_position is None {
            assert forall|xx: int, yy: int| valid_offset(img, tpl, xx, yy) implies !#[trigger] spec_window_score(
                img,
                tpl,
                xx,
                yy,
            ).is_positive() by {
                lemma_exceeds_zero(spec_window_score(img, tpl, xx, yy));
            }
        }
    }
    NccResult { found, confidence: best_score, position: best_position }
}


/// The template to search for: one gray pixel per alpha-map entry, whose value
/// is the alpha level (alpha times 255).
pub fn create_template_from_alpha_map(alpha_map: &[u8], width: u32, height: u32) -> (template:
    GrayRaster)
    requires
        width * height <= alpha_map.len(),
        width * height <= u32::MAX + 1,
    ensures
        template.width == width,
        template.height == height,
        template.wf(),
        template.data@ == alpha_map@.take(width * height),
{
    let n = width as usize * height as usize;
    let mut data: Vec<u8> = Vec::new();
    for k in 0..n
        invariant
            n == width * height,
            n <= alpha_map.len(),
            data@ == alpha_map@.take(k as int),
    {
        proof {
            assert(alpha_map@.take(k + 1) =~= alpha_map@.take(k as int).push(alpha_map@[k as int]));
        }
        data.push(alpha_map[k]);
    }
    GrayRaster { width, height, data }
}

/// `sum((m * x_i - a)^2)` over the first `k` values.
pub open spec fn centered_sq(x: Seq<u8>, m: int, a: int, k: int) -> int
    decreases k,
{
    if k <= 0 {
        0
    } else {
        centered_sq(x, m, a, k - 1) + (m * x[k - 1] - a) * (m * x[k - 1] - a)
    }
}

/// `sum((m * x_i - a) * (m * y_i - b))` over the first `k` pairs.
pub open spec fn centered_dot(x: Seq<u8>, y: Seq<u8>, m: int, a: int, b: int, k: int) -> int
    decreases k,
{
    if k <= 0 {
        0
    } else {
        centered_dot(x, y, m, a, b, k - 1) + (m * x[k - 1] - a) * (m * y[k - 1] - b)
    }
}

/// The centered sums expand into the plain ones.
proof fn lemma_centered_expansion(x: Seq<u8>, y: Seq<u8>, m: int, a: int, b: int, k: int)
    requires
        0 <= k <= x.len(),
        k <= y.len(),
    ensures
        centered_sq(x, m, a, k) == m * m * prefix_sum_sq(x, k) - 2 * m * a * prefix_sum(x, k) + k
            * a * a,
        centered_dot(x, y, m, a, b, k) == m * m * prefix_dot(x, y, k) - m * b * prefix_sum(x, k)
            - m * a * prefix_sum(y, k) + k * a * b,
    decreases k,
{
    if k > 0 {
        lemma_centered_expansion(x, y, m, a, b, k - 1);
        let xi = x[k - 1] as int;
        let yi = y[k - 1] as int;
        let (q, s, t, d) = (
            prefix_sum_sq(x, k - 1),
            prefix_sum(x, k - 1),
            prefix_sum(y, k - 1),
            prefix_dot(x, y, k - 1),
        );
        let mm = m * m;
        lemma_mul_is_distributive_add(mm, q, xi * xi);
        lemma_mul_is_distributive_add(2 * m * a, s, xi);
        lemma_mul_is_distributive_add(mm, d, xi * yi);
        lemma_mul_is_distributive_add(m * b, s, xi);
        lemma_mul_is_distributive_add(m * a, t, yi);
        lemma_step_times(k, a, a);
        lemma_step_times(k, a, b);
        lemma_affine_product(m, xi, xi, a, a);
        lemma_affine_product(m, xi, yi, a, b);
        assert(2 * m * a * xi == m * a * xi + m * a * xi) by (nonlinear_arith);
        assert(m * a * xi == m * a * xi);
    } else {
        assert(k * a * a == 0 && k * a * b == 0) by (nonlinear_arith)
            requires
                k == 0,
        ;
        assert(m * m * 0 == 0 && 2 * m * a * 0 == 0 && m * b * 0 == 0 && m * a * 0 == 0)
            by (nonlinear_arith);
    }
}

/// `p^2 * sum(v^2) + q^2 * sum(u^2) - 2 p q sum(u v)` is a sum of squares.
proof fn lemma_cross_term_nonneg(
    x: Seq<u8>,
    y: Seq<u8>,
    m: int,
    a: int,
    b: int,
    p: int,
    q: int,
    k: int,
)
    requires
        0 <= k <= x.len(),
        k <= y.len(),
    ensures
        p * p * centered_sq(y, m, b, k) + q * q * centered_sq(x, m, a, k) - 2 * p * q
            * centered_dot(x, y, m, a, b, k) >= 0,
    decreases k,
{
    if k > 0 {
        lemma_cross_term_nonneg(x, y, m, a, b, p, q, k - 1);
        let u = m * x[k - 1] - a;
        let v = m * y[k - 1] - b;
        let (pu, pv, r) = (
            centered_sq(x, m, a, k - 1),
            centered_sq(y, m, b, k - 1),
            centered_dot(x, y, m, a, b, k - 1),
        );
        lemma_mul_is_distributive_add(p * p, pv, v * v);
        lemma_mul_is_distributive_add(q * q, pu, u * u);
        lemma_mul_is_distributive_add(2 * p * q, r, u * v);
        lemma_difference_square(p, v, q, u);
        assert((p * v - q * u) * (p * v - q * u) >= 0) by (nonlinear_arith);
    } else {
        assert(p * p * 0 + q * q * 0 - 2 * p * q * 0 == 0) by (nonlinear_arith);
    }
}

/// Cauchy-Schwarz for the centered sums.
proof fn lemma_centered_cauchy_schwarz(x: Seq<u8>, y: Seq<u8>, m: int, a: int, b: int, k: int)
    requires
        0 <= k <= x.len(),
        k <= y.len(),
    ensures
        centered_dot(x, y, m, a, b, k) * centered_dot(x, y, m, a, b, k) <= centered_sq(x, m, a, k)
            * centered_sq(y, m, b, k),
    decreases k,
{
    if k > 0 {
        lemma_centered_cauchy_schwarz(x, y, m, a, b, k - 1);
        let u = m * x[k - 1] - a;
        let v = m * y[k - 1] - b;
        lemma_cross_term_nonneg(x, y, m, a, b, u, v, k - 1);
        let (pu, pv, r) = (
            centered_sq(x, m, a, k - 1),
            centered_sq(y, m, b, k - 1),
            centered_dot(x, y, m, a, b, k - 1),
        );
        lemma_sum_product(pu, u * u, pv, v * v);
        lemma_sum_product(r, u * v, r, u * v);
        assert((u * u) * (v * v) == (u * v) * (u * v)) by (nonlinear_arith);
        assert(r * (u * v) == u * v * r) by (nonlinear_arith);
        assert(pu * (v * v) == v * v * pu) by (nonlinear_arith);
        assert(2 * u * v * r == u * v * r + u * v * r) by (nonlinear_arith);
    }
}

/// `k * a * b` is one `a * b` more than `(k - 1) * a * b`.
proof fn lemma_step_times(k: int, a: int, b: int)
    ensures
        k * a * b == (k - 1) * a * b + a * b,
{
    assert(k * a * b == (k - 1) * a * b + a * b) by (nonlinear_arith);
}

/// `(m * x - a) * (m * y - b)` multiplied out.
proof fn lemma_affine_product(m: int, x: int, y: int, a: int, b: int)
    ensures
        (m * x - a) * (m * y - b) == m * m * (x * y) - m * b * x - m * a * y + a * b,
{
    let (mx, my) = (m * x, m * y);
    assert((mx - a) * (my - b) == mx * my - mx * b - a * my + a * b) by (nonlinear_arith);
    assert(mx * my == m * m * (x * y)) by (nonlinear_arith)
        requires
            mx == m * x,
            my == m * y,
    ;
    assert(mx * b == m * b * x) by (nonlinear_arith)
        requires
            mx == m * x,
    ;
    assert(a * my == m * a * y) by (nonlinear_arith)
        requires
            my == m * y,
    ;
}

/// `(p * v - q * u)^2` multiplied out.
proof fn lemma_difference_square(p: int, v: int, q: int, u: int)
    ensures
        (p * v - q * u) * (p * v - q * u) == p * p * (v * v) + q * q * (u * u) - 2 * p * q * (u
            * v),
{
    let (x, y) = (p * v, q * u);
    assert((x - y) * (x - y) == x * x - 2 * (x * y) + y * y) by (nonlinear_arith);
    assert(x * x == p * p * (v * v)) by (nonlinear_arith)
        requires
            x == p * v,
    ;
    assert(y * y == q * q * (u * u)) by (nonlinear_arith)
        requires
            y == q * u,
    ;
    assert(2 * (x * y) == 2 * p * q * (u * v)) by (nonlinear_arith)
        requires
            x == p * v,
            y == q * u,
    ;
}

/// `(a + b) * (c + d)` multiplied out.
proof fn lemma_sum_product(a: int, b: int, c: int, d: int)
    ensures
        (a + b) * (c + d) == a * c + a * d + b * c + b * d,
{
    assert((a + b) * (c + d) == a * c + a * d + b * c + b * d) by (nonlinear_arith);
}

/// The covariance is bounded by the spreads: `cov^2 <= spread(x) * spread(y)`,
/// so a correlation score lies between -1 and 1.
pub proof fn lemma_covariance_cauchy_schwarz(x: Seq<u8>, y: Seq<u8>)
    requires
        x.len() == y.len(),
    ensures
        covariance(x, y) * covariance(x, y) <= spread(x) * spread(y),
{
    let n = y.len() as int;
    let sx = prefix_sum(x, n);
    let sy = prefix_sum(y, n);
    lemma_centered_expansion(x, y, n, sx, sy, n);
    lemma_centered_expansion(y, x, n, sy, sx, n);
    lemma_centered_cauchy_schwarz(x, y, n, sx, sy, n);
    let a = covariance(x, y);
    let bx = spread(x);
    let cy = spread(y);
    assert(centered_sq(x, n, sx, n) == n * bx) by (nonlinear_arith)
        requires
            centered_sq(x, n, sx, n) == n * n * prefix_sum_sq(x, n) - 2 * n * sx * sx + n * sx * sx,
            bx == n * prefix_sum_sq(x, n) - sx * sx,
    ;
    assert(centered_sq(y, n, sy, n) == n * cy) by (nonlinear_arith)
        requires
            centered_sq(y, n, sy, n) == n * n * prefix_sum_sq(y, n) - 2 * n * sy * sy + n * sy * sy,
            cy == n * prefix_sum_sq(y, n) - sy * sy,
    ;
    assert(centered_dot(x, y, n, sx, sy, n) == n * a) by (nonlinear_arith)
        requires
            centered_dot(x, y, n, sx, sy, n) == n * n * prefix_dot(x, y, n) - n * sy * sx - n * sx
                * sy + n * sx * sy,
            a == n * prefix_dot(x, y, n) - sx * sy,
    ;
    if n > 0 {
        assert(a * a <= bx * cy) by (nonlinear_arith)
            requires
                (n * a) * (n * a) <= (n * bx) * (n * cy),
                n > 0,
        ;
    } else {
        assert(a == 0 && bx == 0 && cy == 0) by (nonlinear_arith)
            requires
                n == 0,
                a == n * prefix_dot(x, y, n) - sx * sy,
                bx == n * prefix_sum_sq(x, n) - sx * sx,
                cy == n * prefix_sum_sq(y, n) - sy * sy,
                sx == 0,
                sy == 0,
        ;
    }
}

/// The score 1, perfect correlation.
pub open spec fn spec_score_one() -> NccScore {
    NccScore { covariance: 1, image_spread: 1, template_spread: 1 }
}

/// The score -1, perfect anticorrelation.
pub open spec fn spec_score_minus_one() -> NccScore {
    NccScore { covariance: -1i128, image_spread: 1, template_spread: 1 }
}

/// Every window's score lies between -1 and 1.
pub proof fn lemma_window_score_within_one(img: GrayRaster, tpl: GrayRaster, x: int, y: int)
    requires
        img.wf(),
        tpl.wf(),
        valid_offset(img, tpl, x, y),
        tpl.width * tpl.height <= u32::MAX,
    ensures
        !spec_window_score(img, tpl, x, y).exceeds(spec_score_one()),
        !spec_score_minus_one().exceeds(spec_window_score(img, tpl, x, y)),
{
    let w = window(img, x, y, tpl.width as int, tpl.height as int);
    let t = tpl.data@;
    let n = t.len() as int;
    let s = spec_window_score(img, tpl, x, y);
    lemma_prefix_bounds(w, t, n);
    lemma_prefix_bounds(t, t, n);
    lemma_spread_nonneg(w);
    lemma_spread_nonneg(t);
    lemma_covariance_cauchy_schwarz(w, t);
    let a = covariance(w, t);
    let b = spread(w);
    let c = spread(t);
    assert(-0x4_0000_0000_0000_0000_0000 <= a <= 0x4_0000_0000_0000_0000_0000
        && b <= 0x4_0000_0000_0000_0000_0000 && c <= 0x4_0000_0000_0000_0000_0000)
        by (nonlinear_arith)
        requires
            0 <= n <= 0xffff_ffff,
            0 <= prefix_sum(w, n) <= 255 * n,
            0 <= prefix_sum(t, n) <= 255 * n,
            0 <= prefix_sum_sq(w, n) <= 65025 * n,
            0 <= prefix_sum_sq(t, n) <= 65025 * n,
            0 <= prefix_dot(w, t, n) <= 65025 * n,
            a == n * prefix_dot(w, t, n) - prefix_sum(w, n) * prefix_sum(t, n),
            b == n * prefix_sum_sq(w, n) - prefix_sum(w, n) * prefix_sum(w, n),
            c == n * prefix_sum_sq(t, n) - prefix_sum(t, n) * prefix_sum(t, n),
    ;
    assert(s.covariance == a && s.image_spread == b && s.template_spread == c);
    lemma_key_den_positive(s);
    lemma_spread_product_zero(s);
    assert(spec_score_one().key_num() == 1 && spec_score_one().key_den() == 1);
    assert(spec_score_minus_one().key_num() == -1 && spec_score_minus_one().key_den() == 1);
    lemma_mul_basics(s.key_num());
    lemma_mul_basics(s.key_den());
    if s.spread_product() != 0 {
        assert(a * a == (-a) * (-a)) by (nonlinear_arith);
    }
}

/// There is only one first best match: two results that both are one have the
/// same confidence and position.
pub proof fn lemma_best_match_unique(
    image: GrayRaster,
    template: GrayRaster,
    r1: NccResult,
    r2: NccResult,
)
    requires
        is_best_match(image, template, r1),
        is_best_match(image, template, r2),
    ensures
        r1.confidence == r2.confidence,
        r1.position == r2.position,
{
    match (r1.position, r2.position) {
        (None, None) => {},
        (None, Some((x2, y2))) => {
            assert(!spec_window_score(image, template, x2 as int, y2 as int).is_positive());
        },
        (Some((x1, y1)), None) => {
            assert(!spec_window_score(image, template, x1 as int, y1 as int).is_positive());
        },
        (Some((x1, y1)), Some((x2, y2))) => {
            let s1 = spec_window_score(image, template, x1 as int, y1 as int);
            let s2 = spec_window_score(image, template, x2 as int, y2 as int);
            if scanned_before(x1 as int, y1 as int, x2 as int, y2 as int) {
                assert(r2.confidence.exceeds(s1));
                assert(!s2.exceeds(r1.confidence));
            } else if scanned_before(x2 as int, y2 as int, x1 as int, y1 as int) {
                assert(r1.confidence.exceeds(s2));
                assert(!s1.exceeds(r2.confidence));
            }
        },
    }
}

/// A score that reaches a threshold reaches every lower one.
pub proof fn lemma_reaches_monotone(s: NccScore, low: Fraction, high: Fraction)
    requires
        low.denominator > 0,
        high.denominator > 0,
        fraction_le(low, high),
        s.reaches(high),
    ensures
        s.reaches(low),
{
    lemma_key_den_positive(s);
    let k = s.key_num();
    let d = s.key_den();
    let (n1, d1) = (low.numerator as int, low.denominator as int);
    let (n2, d2) = (high.numerator as int, high.denominator as int);
    assert(k * (d1 * d1) >= (n1 * n1) * d) by (nonlinear_arith)
        requires
            d > 0,
            d1 > 0,
            d2 > 0,
            n1 >= 0,
            n2 >= 0,
            n1 * d2 <= n2 * d1,
            k * (d2 * d2) >= (n2 * n2) * d,
    {
        assert((n2 * n2) * d >= 0);
        assert(k >= 0);
        assert((n1 * d2) * (n1 * d2) <= (n2 * d1) * (n2 * d1));
        assert(k * (d1 * d1) * (d2 * d2) >= (n2 * n2) * d * (d1 * d1));
        assert((n2 * n2) * (d1 * d1) >= (n1 * n1) * (d2 * d2));
        assert(k * (d1 * d1) * (d2 * d2) >= (n1 * n1) * d * (d2 * d2));
    }
}

/// The threshold decides only whether the watermark counts as found: two searches
/// of the same image and template report the same confidence and position, and
/// one that finds the watermark under a higher threshold finds it under a lower
/// one too.
pub proof fn lemma_threshold_only_decides_found(
    image: GrayRaster,
    template: GrayRaster,
    low: Fraction,
    high: Fraction,
    r_low: NccResult,
    r_high: NccResult,
)
    requires
        low.denominator > 0,
        high.denominator > 0,
        fraction_le(low, high),
        detection_outcome(image, template, low, r_low),
        detection_outcome(image, template, high, r_high),
    ensures
        r_low.confidence == r_high.confidence,
        r_low.position == r_high.position,
        r_high.found ==> r_low.found,
{
    if template_fits(image, template) {
        lemma_best_match_unique(image, template, r_low, r_high);
        if r_high.found {
            lemma_reaches_monotone(r_high.confidence, low, high);
        }
    }
}

/// Sums of a sequence whose values are those of `w` inverted (`255 - w_i`).
proof fn lemma_inverted_sums(w: Seq<u8>, v: Seq<u8>, t: Seq<u8>, k: int)
    requires
        0 <= k <= w.len(),
        v.len() == w.len(),
        k <= t.len(),
        forall|i: int| 0 <= i < w.len() ==> #[trigger] v[i] == 255 - w[i],
    ensures
        prefix_sum(v, k) == 255 * k - prefix_sum(w, k),
        prefix_sum_sq(v, k) == 65025 * k - 510 * prefix_sum(w, k) + prefix_sum_sq(w, k),
        prefix_dot(v, t, k) == 255 * prefix_sum(t, k) - prefix_dot(w, t, k),
    decreases k,
{
    if k > 0 {
        lemma_inverted_sums(w, v, t, k - 1);
        let a = w[k - 1] as int;
        let b = t[k - 1] as int;
        assert(v[k - 1] == 255 - a);
        assert((255 - a) * (255 - a) == 65025 - 510 * a + a * a) by (nonlinear_arith);
        assert((255 - a) * b == 255 * b - a * b) by (nonlinear_arith);
    }
}

/// The sum of products does not depend on the order of the two sequences.
proof fn lemma_dot_symmetric(s: Seq<u8>, t: Seq<u8>, k: int)
    requires
        0 <= k <= s.len(),
        k <= t.len(),
    ensures
        prefix_dot(s, t, k) == prefix_dot(t, s, k),
    decreases k,
{
    if k > 0 {
        lemma_dot_symmetric(s, t, k - 1);
        lemma_mul_is_commutative(s[k - 1] as int, t[k - 1] as int);
    }
}

/// The fields of a partial score are the exact covariance and spreads: they fit
/// their integer types.
proof fn lemma_partial_score_fields(
    img: GrayRaster,
    tpl: GrayRaster,
    x: int,
    y: int,
    tw: int,
    th: int,
)
    requires
        0 <= tw,
        0 <= th,
        tw * th <= u32::MAX,
    ensures
        ({
            let w = window(img, x, y, tw, th);
            let t = window(tpl, 0, 0, tw, th);
            let s = spec_partial_score(img, tpl, x, y, tw, th);
            &&& s.covariance == covariance(w, t)
            &&& s.image_spread == spread(w)
            &&& s.template_spread == spread(t)
            &&& -0x4_0000_0000_0000_0000_0000 <= covariance(w, t) <= 0x4_0000_0000_0000_0000_0000
        }),
{
    let w = window(img, x, y, tw, th);
    let t = window(tpl, 0, 0, tw, th);
    let n = tw * th;
    lemma_mul_nonnegative(tw, th);
    lemma_prefix_bounds(w, t, n);
    lemma_prefix_bounds(t, t, n);
    lemma_spread_nonneg(w);
    lemma_spread_nonneg(t);
    let a = covariance(w, t);
    let b = spread(w);
    let c = spread(t);
    assert(-0x4_0000_0000_0000_0000_0000 <= a <= 0x4_0000_0000_0000_0000_0000
        && b <= 0x4_0000_0000_0000_0000_0000 && c <= 0x4_0000_0000_0000_0000_0000)
        by (nonlinear_arith)
        requires
            0 <= n <= 0xffff_ffff,
            0 <= prefix_sum(w, n) <= 255 * n,
            0 <= prefix_sum(t, n) <= 255 * n,
            0 <= prefix_sum_sq(w, n) <= 65025 * n,
            0 <= prefix_sum_sq(t, n) <= 65025 * n,
            0 <= prefix_dot(w, t, n) <= 65025 * n,
            a == n * prefix_dot(w, t, n) - prefix_sum(w, n) * prefix_sum(t, n),
            b == n * prefix_sum_sq(w, n) - prefix_sum(w, n) * prefix_sum(w, n),
            c == n * prefix_sum_sq(t, n) - prefix_sum(t, n) * prefix_sum(t, n),
    ;
}

/// Inverting every pixel of the window (`255 - p`) negates its score: the
/// covariance changes sign and the spreads stay.
pub proof fn lemma_score_negates_under_inversion(
    img: GrayRaster,
    inverted: GrayRaster,
    tpl: GrayRaster,
    x: int,
    y: int,
    tw: int,
    th: int,
)
    requires
        0 <= tw,
        0 <= th,
        tw * th <= u32::MAX,
        forall|px: int, py: int|
            x <= px < x + tw && y <= py < y + th ==> #[trigger] inverted.at(px, py) == 255
                - img.at(px, py),
    ensures
        spec_partial_score(inverted, tpl, x, y, tw, th).covariance == -spec_partial_score(
            img,
            tpl,
            x,
            y,
            tw,
            th,
        ).covariance,
        spec_partial_score(inverted, tpl, x, y, tw, th).image_spread == spec_partial_score(
            img,
            tpl,
            x,
            y,
            tw,
            th,
        ).image_spread,
        spec_partial_score(inverted, tpl, x, y, tw, th).template_spread == spec_partial_score(
            img,
            tpl,
            x,
            y,
            tw,
            th,
        ).template_spread,
{
    let w = window(img, x, y, tw, th);
    let v = window(inverted, x, y, tw, th);
    let t = window(tpl, 0, 0, tw, th);
    let n = tw * th;
    lemma_mul_nonnegative(tw, th);
    assert forall|i: int| 0 <= i < w.len() implies #[trigger] v[i] == 255 - w[i] by {
        assert(tw > 0) by (nonlinear_arith)
            requires
                0 <= i < tw * th,
                tw >= 0,
                th >= 0,
        ;
        vstd::arithmetic::div_mod::lemma_mod_bound(i, tw);
        vstd::arithmetic::div_mod::lemma_div_pos_is_pos(i, tw);
        vstd::arithmetic::div_mod::lemma_multiply_divide_lt(i, tw, th);
        assert(inverted.at(x + i % tw, y + i / tw) == 255 - img.at(x + i % tw, y + i / tw));
    }
    lemma_inverted_sums(w, v, t, n);
    lemma_partial_score_fields(img, tpl, x, y, tw, th);
    lemma_partial_score_fields(inverted, tpl, x, y, tw, th);
    let (sw, st, q, d) = (prefix_sum(w, n), prefix_sum(t, n), prefix_sum_sq(w, n), prefix_dot(w, t, n));
    assert(covariance(v, t) == -covariance(w, t)) by (nonlinear_arith)
        requires
            covariance(v, t) == n * prefix_dot(v, t, n) - prefix_sum(v, n) * st,
            covariance(w, t) == n * d - sw * st,
            prefix_dot(v, t, n) == 255 * st - d,
            prefix_sum(v, n) == 255 * n - sw,
    ;
    assert(spread(v) == spread(w)) by (nonlinear_arith)
        requires
            spread(v) == n * prefix_sum_sq(v, n) - prefix_sum(v, n) * prefix_sum(v, n),
            spread(w) == n * q - sw * sw,
            prefix_sum_sq(v, n) == 65025 * n - 510 * sw + q,
            prefix_sum(v, n) == 255 * n - sw,
    ;
}

/// Swapping the roles of window and template keeps the score: searching the
/// template's pixels for the window's pixels gives the same covariance, with the
/// two spreads exchanged.
pub proof fn lemma_score_symmetric(
    img: GrayRaster,
    tpl: GrayRaster,
    x: int,
    y: int,
    tw: int,
    th: int,
    swapped_img: GrayRaster,
    swapped_tpl: GrayRaster,
)
    requires
        0 <= tw,
        0 <= th,
        tw * th <= u32::MAX,
        swapped_img.wf(),
        swapped_tpl.wf(),
        swapped_img.width == tw,
        swapped_img.height == th,
        swapped_img.data@ == window(tpl, 0, 0, tw, th),
        swapped_tpl.width == tw,
        swapped_tpl.height == th,
        swapped_tpl.data@ == window(img, x, y, tw, th),
    ensures
        ({
            let s = spec_partial_score(img, tpl, x, y, tw, th);
            let r = spec_partial_score(swapped_img, swapped_tpl, 0, 0, tw, th);
            &&& r.covariance == s.covariance
            &&& r.image_spread == s.template_spread
            &&& r.template_spread == s.image_spread
            &&& !r.exceeds(s)
            &&& !s.exceeds(r)
        }),
{
    let w = window(img, x, y, tw, th);
    let t = window(tpl, 0, 0, tw, th);
    let n = tw * th;
    lemma_mul_nonnegative(tw, th);
    lemma_full_window(swapped_img);
    lemma_full_window(swapped_tpl);
    lemma_partial_score_fields(img, tpl, x, y, tw, th);
    lemma_partial_score_fields(swapped_img, swapped_tpl, 0, 0, tw, th);
    lemma_dot_symmetric(w, t, n);
    lemma_mul_is_commutative(prefix_sum(w, n), prefix_sum(t, n));
    assert(covariance(t, w) == covariance(w, t));
    let s = spec_partial_score(img, tpl, x, y, tw, th);
    let r = spec_partial_score(swapped_img, swapped_tpl, 0, 0, tw, th);
    lemma_mul_is_commutative(s.image_spread as int, s.template_spread as int);
    assert(r.spread_product() == s.spread_product());
    assert(r.key_num() == s.key_num() && r.key_den() == s.key_den());
}

/// The score order is the order of the scores' values
/// `covariance / sqrt(image_spread * template_spread)` (0 where a spread is 0):
/// comparing `sign(s) * s^2` of both sides with their denominators cleared,
/// written out on the fields.
pub proof fn lemma_exceeds_matches_value(a: NccScore, b: NccScore)
    ensures
        a.exceeds(b) <==> (if a.image_spread == 0 || a.template_spread == 0 {
            0int
        } else if a.covariance >= 0 {
            a.covariance * a.covariance
        } else {
            -(a.covariance * a.covariance)
        }) * (if b.image_spread == 0 || b.template_spread == 0 {
            1int
        } else {
            b.image_spread * b.template_spread
        }) > (if b.image_spread == 0 || b.template_spread == 0 {
            0int
        } else if b.covariance >= 0 {
            b.covariance * b.covariance
        } else {
            -(b.covariance * b.covariance)
        }) * (if a.image_spread == 0 || a.template_spread == 0 {
            1int
        } else {
            a.image_spread * a.template_spread
        }),
        // two scores with positive covariance and spreads compare by cov^2 / spreads
        a.covariance > 0 && b.covariance > 0 && a.image_spread > 0 && a.template_spread > 0
            && b.image_spread > 0 && b.template_spread > 0 ==> (a.exceeds(b) <==> a.covariance
            * a.covariance * (b.image_spread * b.template_spread) > b.covariance * b.covariance * (
        a.image_spread * a.template_spread)),
{
    lemma_spread_product_zero(a);
    lemma_spread_product_zero(b);
}

/// A perfect match beats every imperfect one: a score whose squared covariance
/// equals its spread product (value 1) exceeds every score of value below 1, and
/// no score exceeds it.
pub proof fn lemma_perfect_score_is_maximal(a: NccScore, b: NccScore)
    requires
        a.covariance > 0,
        a.image_spread > 0,
        a.template_spread > 0,
        a.covariance * a.covariance == a.image_spread * a.template_spread,
        b.covariance * b.covariance < b.image_spread * b.template_spread || b.covariance <= 0,
    ensures
        a.exceeds(b),
        !b.exceeds(a),
{
    lemma_spread_product_zero(a);
    lemma_spread_product_zero(b);
    lemma_key_den_positive(b);
    let kb = b.key_num();
    let db = b.key_den();
    let da = a.key_den();
    assert(a.key_num() == da);
    assert(kb < db) by (nonlinear_arith)
        requires
            b.covariance * b.covariance < b.image_spread * b.template_spread || b.covariance <= 0,
            kb == (if b.spread_product() == 0 {
                0int
            } else if b.covariance >= 0 {
                b.covariance * b.covariance
            } else {
                -(b.covariance * b.covariance)
            }),
            db == (if b.spread_product() == 0 {
                1int
            } else {
                b.spread_product()
            }),
            b.spread_product() == b.image_spread * b.template_spread,
            b.spread_product() >= 0,
    ;
    assert(da * db > kb * da) by (nonlinear_arith)
        requires
            kb < db,
            da > 0,
    ;
}
} // verus!
