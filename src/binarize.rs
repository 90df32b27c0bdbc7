//! Global thresholding by Otsu's method.
use vstd::prelude::*;
use crate::raster::{GrayImage, Raster};

verus! {

/// The largest number of pixels for which the exact variance comparison fits
/// in 128-bit arithmetic.
pub const MAX_PIXELS: usize = 0x8_0000;

/// How many intensities of `s` equal `v`.
pub open spec fn count_eq(s: Seq<u8>, v: int) -> nat
    decreases s.len(),
{
    if s.len() == 0 {
        0
    } else {
        count_eq(s.drop_last(), v) + if s.last() == v { 1nat } else { 0nat }
    }
}

/// How many intensities of `s` are at most `t`.
pub open spec fn count_le(s: Seq<u8>, t: int) -> nat
    decreases s.len(),
{
    if s.len() == 0 {
        0
    } else {
        count_le(s.drop_last(), t) + if s.last() <= t { 1nat } else { 0nat }
    }
}

/// The sum of the intensities of `s` that are at most `t`.
pub open spec fn sum_le(s: Seq<u8>, t: int) -> nat
    decreases s.len(),
{
    if s.len() == 0 {
        0
    } else {
        sum_le(s.drop_last(), t) + if s.last() <= t { s.last() as nat } else { 0nat }
    }
}

/// Threshold `t` splits `s` into a non-empty background (`<= t`) and a
/// non-empty foreground (`> t`).
pub open spec fn separates(s: Seq<u8>, t: int) -> bool {
    0 < count_le(s, t) < s.len()
}

/// `bg * fg * (mean_bg - mean_fg)` scaled by `bg * fg`: with `den` below, the
/// between-class variance of threshold `t` is `spread(s, t)^2 / den(s, t)`.
pub open spec fn spread(s: Seq<u8>, t: int) -> int {
    s.len() * sum_le(s, t) - sum_le(s, 255) * count_le(s, t)
}

/// The product of the background and foreground counts of threshold `t`.
pub open spec fn den(s: Seq<u8>, t: int) -> int {
    count_le(s, t) * (s.len() - count_le(s, t))
}

/// The between-class variance of threshold `t` exceeds that of `u` (both
/// thresholds separating `s`).
pub open spec fn variance_gt(s: Seq<u8>, t: int, u: int) -> bool {
    spread(s, t) * spread(s, t) * den(s, u) > spread(s, u) * spread(s, u) * den(s, t)
}

/// `r` is Otsu's threshold of `s`: the first threshold, scanning upward, whose
/// between-class variance is positive and maximal; 0 when no threshold has a
/// positive variance.
pub open spec fn is_otsu_threshold(s: Seq<u8>, r: int) -> bool {
    ||| r == 0 && forall|t: int| 0 <= t < 256 && #[trigger] separates(s, t) ==> spread(s, t) == 0
    ||| {
        &&& 0 <= r < 256
        &&& separates(s, r)
        &&& spread(s, r) != 0
        &&& forall|t: int| 0 <= t < 256 && #[trigger] separates(s, t) ==> !variance_gt(s, t, r)
        &&& forall|t: int| 0 <= t < r && #[trigger] separates(s, t) ==> variance_gt(s, r, t)
    }
}

/// Each intensity of `s` mapped to 255 when above Otsu's threshold, else 0.
pub open spec fn binarized(s: Seq<u8>) -> Seq<u8> {
    Seq::new(s.len(), |i: int| if s[i] > otsu_level(s) { 255u8 } else { 0u8 })
}

/// The binarization of an image.
pub open spec fn binarize_view(img: Raster) -> Raster {
    Raster { width: img.width, height: img.height, pixels: binarized(img.pixels) }
}

/// Otsu's threshold of the intensities `s`.
pub open spec fn otsu_level(s: Seq<u8>) -> int {
    choose|r: int| is_otsu_threshold(s, r)
}

proof fn lemma_counts_step(s: Seq<u8>, t: int)
    ensures
        count_le(s, t) == count_le(s, t - 1) + count_eq(s, t),
        sum_le(s, t) == sum_le(s, t - 1) + t * count_eq(s, t),
        count_le(s, t) <= s.len(),
        count_eq(s, t) <= s.len(),
        sum_le(s, t) <= 255 * count_le(s, t),
    decreases s.len(),
{
    if s.len() > 0 {
        lemma_counts_step(s.drop_last(), t);
        assert(sum_le(s, t) == sum_le(s, t - 1) + t * count_eq(s, t)) by (nonlinear_arith)
            requires
                sum_le(s.drop_last(), t) == sum_le(s.drop_last(), t - 1) + t * count_eq(
                    s.drop_last(),
                    t,
                ),
                sum_le(s, t) == sum_le(s.drop_last(), t) + if s.last() <= t {
                    s.last() as nat
                } else {
                    0nat
                },
                sum_le(s, t - 1) == sum_le(s.drop_last(), t - 1) + if s.last() <= t - 1 {
                    s.last() as nat
                } else {
                    0nat
                },
                count_eq(s, t) == count_eq(s.drop_last(), t) + if s.last() == t {
                    1nat
                } else {
                    0nat
                },
        ;
    }
}

proof fn lemma_sum_above(s: Seq<u8>, t: int)
    ensures
        sum_le(s, t) <= sum_le(s, 255),
        sum_le(s, 255) - sum_le(s, t) <= 255 * (s.len() - count_le(s, t)),
    decreases s.len(),
{
    if s.len() > 0 {
        lemma_sum_above(s.drop_last(), t);
    }
}

proof fn lemma_prefix_step(s: Seq<u8>, i: int)
    requires
        0 <= i < s.len(),
    ensures
        s.take(i + 1).drop_last() == s.take(i),
        s.take(i + 1).last() == s[i],
{
    assert(s.take(i + 1).drop_last() =~= s.take(i));
}

proof fn lemma_none_below_zero(s: Seq<u8>)
    ensures
        count_le(s, -1) == 0,
        sum_le(s, -1) == 0,
    decreases s.len(),
{
    if s.len() > 0 {
        lemma_none_below_zero(s.drop_last());
    }
}

proof fn lemma_all_at_most_255(s: Seq<u8>)
    ensures
        count_le(s, 255) == s.len(),
    decreases s.len(),
{
    if s.len() > 0 {
        lemma_all_at_most_255(s.drop_last());
    }
}

/// If `a/b <= c/d < e/f` for positive denominators, then `a/b < e/f`.
proof fn lemma_ratio_chain(a: int, b: int, c: int, d: int, e: int, f: int)
    requires
        b > 0,
        d > 0,
        f > 0,
        a >= 0,
        a * d <= c * b,
        c * f < e * d,
    ensures
        a * f < e * b,
{
    assert(a * d * f <= c * b * f) by (nonlinear_arith)
        requires
            a * d <= c * b,
            f > 0,
    ;
    assert(c * f * b < e * d * b) by (nonlinear_arith)
        requires
            c * f < e * d,
            b > 0,
    ;
    assert(a * f * d < e * b * d) by (nonlinear_arith)
        requires
            a * d * f <= c * b * f,
            c * f * b < e * d * b,
    ;
    assert(a * f < e * b) by (nonlinear_arith)
        requires
            a * f * d < e * b * d,
            d > 0,
    ;
}

/// Otsu's threshold is unique.
proof fn lemma_otsu_unique(s: Seq<u8>, r1: int, r2: int)
    requires
        is_otsu_threshold(s, r1),
        is_otsu_threshold(s, r2),
    ensures
        r1 == r2,
{
    if r1 != r2 {
        if r1 < r2 {
            if separates(s, r2) && spread(s, r2) != 0 && separates(s, r1) && spread(s, r1) != 0 {
                assert(variance_gt(s, r2, r1));
                assert(!variance_gt(s, r2, r1));
            } else if separates(s, r2) && spread(s, r2) != 0 {
                assert(!separates(s, r1) || spread(s, r1) == 0);
                assert(spread(s, r2) == 0);
            } else {
                assert(separates(s, r1) && spread(s, r1) != 0);
                assert(spread(s, r1) == 0);
            }
        } else {
            if separates(s, r2) && spread(s, r2) != 0 && separates(s, r1) && spread(s, r1) != 0 {
                assert(variance_gt(s, r1, r2));
                assert(!variance_gt(s, r1, r2));
            } else if separates(s, r2) && spread(s, r2) != 0 {
                assert(spread(s, r2) == 0);
            } else {
                assert(separates(s, r1) && spread(s, r1) != 0);
                assert(spread(s, r1) == 0);
            }
        }
    }
}

fn otsu_threshold(gray: &GrayImage) -> (r: u8)
    requires
        gray.data@.len() <= MAX_PIXELS,
    ensures
        is_otsu_threshold(gray.data@, r as int),
{
    let ghost s = gray.data@;
    let data = &gray.data;
    let n = data.len();
    let mut hist: Vec<u32> = Vec::new();
    let mut v: usize = 0;
    while v < 256
        invariant
            v <= 256,
            hist@.len() == v,
            forall|k: int| 0 <= k < v ==> hist@[k] == 0,
        decreases 256 - v,
    {
        hist.push(0);
        v = v + 1;
    }
    let mut total_sum: u64 = 0;
    let mut i: usize = 0;
    while i < n
        invariant
            n == s.len(),
            n <= MAX_PIXELS,
            data@ == s,
            i <= n,
            hist@.len() == 256,
            forall|k: int| 0 <= k < 256 ==> hist@[k] == count_eq(#[trigger] s.take(i as int), k),
            total_sum == sum_le(s.take(i as int), 255),
            total_sum <= 255 * i,
        decreases n - i,
    {
        let p = data[i];
        proof {
            lemma_prefix_step(s, i as int);
            assert forall|k: int| 0 <= k < 256 implies count_eq(s.take(i as int), k) <= i by {
                lemma_counts_step(s.take(i as int), k);
            }
        }
        let c = hist[p as usize];
        hist.set(p as usize, c + 1);
        total_sum = total_sum + p as u64;
        i = i + 1;
        proof {
            assert(s.take(i as int).drop_last() == s.take(i - 1));
            assert forall|k: int| 0 <= k < 256 implies hist@[k] == count_eq(
                #[trigger] s.take(i as int),
                k,
            ) by {}
        }
    }
    proof {
        assert(s.take(n as int) =~= s);
        lemma_all_at_most_255(s);
        lemma_none_below_zero(s);
        lemma_counts_step(s, 255);
    }
    let total = n as u64;
    let mut best_threshold: u8 = 0;
    let mut best_dd: u128 = 0;
    let mut best_den: u128 = 1;
    let mut bg: u64 = 0;
    let mut sum_bg: u64 = 0;
    let mut t: usize = 0;
    while t < 256
        invariant
            n == s.len(),
            n <= MAX_PIXELS,
            total == n,
            total_sum == sum_le(s, 255),
            total_sum <= 255 * total,
            best_den <= 0x10_0000_0000,
            best_dd <= 0x100_0000_0000_0000_0000_0000,
            count_le(s, 255) == n,
            t <= 256,
            hist@.len() == 256,
            forall|k: int| 0 <= k < 256 ==> hist@[k] == count_eq(s, k),
            bg == count_le(s, t - 1),
            sum_bg == sum_le(s, t - 1),
            best_dd == 0 ==> best_den == 1 && best_threshold == 0 && forall|u: int|
                0 <= u < t && #[trigger] separates(s, u) ==> spread(s, u) == 0,
            best_dd != 0 ==> {
                &&& best_threshold < t
                &&& separates(s, best_threshold as int)
                &&& best_dd == spread(s, best_threshold as int) * spread(s, best_threshold as int)
                &&& best_den == den(s, best_threshold as int)
                &&& forall|u: int|
                    0 <= u < t && #[trigger] separates(s, u) ==> !variance_gt(
                        s,
                        u,
                        best_threshold as int,
                    )
                &&& forall|u: int|
                    0 <= u < best_threshold && #[trigger] separates(s, u) ==> variance_gt(
                        s,
                        best_threshold as int,
                        u,
                    )
            },
        decreases 256 - t,
    {
        proof {
            lemma_counts_step(s, t as int);
        }
        bg = bg + hist[t] as u64;
        sum_bg = sum_bg + t as u64 * hist[t] as u64;
        let fg = total - bg;
        if bg != 0 && fg != 0 {
            proof {
                lemma_sum_above(s, t as int);
            }
            let ghost sum_fg: int = total_sum - sum_bg;
            assert(bg * fg <= 0x10_0000_0000) by (nonlinear_arith)
                requires
                    bg + fg == total,
                    total <= 0x8_0000,
                    bg >= 0,
                    fg >= 0,
            ;
            assert(total * sum_bg <= 0x4000_0000_0000) by (nonlinear_arith)
                requires
                    total <= 0x8_0000,
                    sum_bg <= 255 * total,
            ;
            assert(total_sum * bg <= 0x4000_0000_0000) by (nonlinear_arith)
                requires
                    total_sum <= 255 * total,
                    bg <= total,
                    total <= 0x8_0000,
            ;
            let a = total * sum_bg;
            let b = total_sum * bg;
            let diff: u64 = if a >= b { a - b } else { b - a };
            assert(diff as int * diff as int == spread(s, t as int) * spread(s, t as int)) by (nonlinear_arith)
                requires
                    diff == a - b || diff == b - a,
                    spread(s, t as int) == a - b,
            ;
            assert(diff <= 255 * (bg * fg)) by (nonlinear_arith)
                requires
                    a == total * sum_bg,
                    b == total_sum * bg,
                    total == bg + fg,
                    total_sum == sum_bg + sum_fg,
                    0 <= sum_bg <= 255 * bg,
                    0 <= sum_fg <= 255 * fg,
                    bg >= 0,
                    fg >= 0,
                    diff == a - b || diff == b - a,
            ;
            assert(diff * diff <= 0x100_0000_0000_0000_0000_0000) by (nonlinear_arith)
                requires
                    0 <= diff <= 255 * (bg * fg),
                    bg * fg <= 0x10_0000_0000,
            ;
            let dd: u128 = diff as u128 * diff as u128;
            let d: u128 = bg as u128 * fg as u128;
            assert(d > 0) by (nonlinear_arith)
                requires
                    bg > 0,
                    fg > 0,
                    d == bg * fg,
            ;
            assert(d == den(s, t as int));
            assert(dd * best_den <= 0x1000_0000_0000_0000_0000_0000_0000_0000) by (nonlinear_arith)
                requires
                    dd <= 0x100_0000_0000_0000_0000_0000,
                    best_den <= 0x10_0000_0000,
            ;
            assert(best_dd * d <= 0x1000_0000_0000_0000_0000_0000_0000_0000) by (nonlinear_arith)
                requires
                    best_dd <= 0x100_0000_0000_0000_0000_0000,
                    d <= 0x10_0000_0000,
            ;
            if dd * best_den > best_dd * d {
                assert(dd != 0) by (nonlinear_arith)
                    requires
                        dd * best_den > best_dd * d,
                        best_dd >= 0,
                        d >= 0,
                ;
                proof {
                    let ti = t as int;
                    assert(separates(s, ti));
                    if best_dd != 0 {
                        let r = best_threshold as int;
                        assert forall|u: int|
                            0 <= u <= ti && #[trigger] separates(s, u) implies !variance_gt(
                            s,
                            u,
                            ti,
                        ) && (u < ti ==> variance_gt(s, ti, u)) by {
                            if u < ti {
                                assert(!variance_gt(s, u, r));
                                assert(den(s, u) > 0) by (nonlinear_arith)
                                    requires
                                        0 < count_le(s, u) < s.len(),
                                        den(s, u) == count_le(s, u) * (s.len() - count_le(s, u)),
                                ;
                                assert(spread(s, u) * spread(s, u) >= 0) by (nonlinear_arith);
                                lemma_ratio_chain(
                                    spread(s, u) * spread(s, u),
                                    den(s, u),
                                    best_dd as int,
                                    best_den as int,
                                    dd as int,
                                    d as int,
                                );
                            }
                        }
                    } else {
                        assert forall|u: int|
                            0 <= u <= ti && #[trigger] separates(s, u) implies !variance_gt(
                            s,
                            u,
                            ti,
                        ) && (u < ti ==> variance_gt(s, ti, u)) by {
                            if u < ti {
                                assert(spread(s, u) == 0);
                                assert(den(s, u) > 0) by (nonlinear_arith)
                                    requires
                                        0 < count_le(s, u) < s.len(),
                                        den(s, u) == count_le(s, u) * (s.len() - count_le(s, u)),
                                ;
                                assert(dd > 0);
                                assert(dd * den(s, u) > 0) by (nonlinear_arith)
                                    requires
                                        dd > 0,
                                        den(s, u) > 0,
                                ;
                                assert(spread(s, u) * spread(s, u) * den(s, ti) == 0) by (
                                nonlinear_arith)
                                    requires
                                        spread(s, u) == 0,
                                ;
                                assert(spread(s, ti) * spread(s, ti) * den(s, u) > 0);
                            } else {
                                assert(!variance_gt(s, ti, ti));
                            }
                        }
                    }
                }
                best_dd = dd;
                best_den = d;
                best_threshold = t as u8;
            } else {
                proof {
                    let ti = t as int;
                    if best_dd == 0 {
                        assert(dd == 0);
                        assert(spread(s, ti) * spread(s, ti) == 0);
                        assert(spread(s, ti) == 0) by (nonlinear_arith)
                            requires
                                spread(s, ti) * spread(s, ti) == 0,
                        ;
                        assert forall|u: int|
                            0 <= u < ti + 1 && #[trigger] separates(s, u) implies spread(s, u)
                            == 0 by {}
                    }
                }
            }
        }
        t = t + 1;
    }
    best_threshold
}

/// Binarizes `img` at its Otsu threshold: pixels strictly above it become 255,
/// the others 0.
pub fn otsu_binarize(img: &GrayImage) -> (r: GrayImage)
    requires
        img.wf(),
        img.data@.len() <= MAX_PIXELS,
    ensures
        r.wf(),
        r.width == img.width,
        r.height == img.height,
        r.data@.len() == img.data@.len(),
        r@ == binarize_view(img@),
        forall|i: int|
            0 <= i < r.data@.len() ==> #[trigger] r.data@[i] == if img.data@[i] > otsu_level(
                img.data@,
            ) {
                255u8
            } else {
                0u8
            },
{
    let threshold = otsu_threshold(img);
    proof {
        lemma_otsu_unique(img.data@, threshold as int, otsu_level(img.data@));
    }
    let n = img.data.len();
    let mut out: Vec<u8> = Vec::new();
    let mut i: usize = 0;
    while i < n
        invariant
            n == img.data@.len(),
            i <= n,
            out@.len() == i,
            threshold as int == otsu_level(img.data@),
            forall|k: int|
                0 <= k < i ==> #[trigger] out@[k] == if img.data@[k] > threshold {
                    255u8
                } else {
                    0u8
                },
        decreases n - i,
    {
        let p = img.data[i];
        out.push(if p > threshold { 255 } else { 0 });
        i = i + 1;
    }
    assert(out@ =~= binarized(img.data@));
    GrayImage { width: img.width, height: img.height, data: out }
}

proof fn lemma_two_level_counts(s: Seq<u8>, lo: int, hi: int, t: int)
    requires
        0 <= lo < hi <= 255,
        forall|i: int| 0 <= i < s.len() ==> #[trigger] s[i] == lo || s[i] == hi,
    ensures
        count_le(s, t) == (if t >= lo { count_eq(s, lo) } else { 0 }) + (if t >= hi {
            count_eq(s, hi)
        } else {
            0
        }),
        sum_le(s, t) == (if t >= lo { lo * count_eq(s, lo) } else { 0 }) + (if t >= hi {
            hi * count_eq(s, hi)
        } else {
            0
        }),
        s.len() == count_eq(s, lo) + count_eq(s, hi),
    decreases s.len(),
{
    if s.len() > 0 {
        let p = s.drop_last();
        assert forall|i: int| 0 <= i < p.len() implies #[trigger] p[i] == lo || p[i] == hi by {
            assert(p[i] == s[i]);
        }
        assert(s.last() == s[s.len() - 1]);
        lemma_two_level_counts(p, lo, hi, t);
        let cl = count_eq(p, lo) as int;
        let ch = count_eq(p, hi) as int;
        let el: int = if s.last() == lo { 1 } else { 0 };
        let eh: int = if s.last() == hi { 1 } else { 0 };
        assert(lo * (cl + el) == lo * cl + lo * el) by (nonlinear_arith);
        assert(hi * (ch + eh) == hi * ch + hi * eh) by (nonlinear_arith);
        assert(count_eq(s, lo) == cl + el);
        assert(count_eq(s, hi) == ch + eh);
        let v = s.last() as int;
        assert(v == lo || v == hi);
        assert(sum_le(s, t) == sum_le(p, t) + if v <= t { v } else { 0 });
        if v == lo {
            assert(lo * el == lo);
            assert(hi * eh == 0);
        } else {
            assert(lo * el == 0);
            assert(hi * eh == hi);
        }
        assert(sum_le(p, t) == (if t >= lo { lo * cl } else { 0 }) + (if t >= hi { hi * ch } else { 0 }));
    } else {
        assert(count_eq(s, lo) == 0 && count_eq(s, hi) == 0);
        assert(lo * 0 == 0 && hi * 0 == 0);
    }
}

proof fn lemma_present_is_counted(s: Seq<u8>, i: int)
    requires
        0 <= i < s.len(),
    ensures
        count_eq(s, s[i] as int) > 0,
    decreases s.len(),
{
    if i < s.len() - 1 {
        assert(s.drop_last()[i] == s[i]);
        lemma_present_is_counted(s.drop_last(), i);
    }
}

/// On intensities that take exactly two values `lo < hi`, Otsu's threshold is
/// `lo`: every threshold from `lo` to `hi - 1` splits alike, and the first wins.
proof fn lemma_two_level_threshold(s: Seq<u8>, lo: int, hi: int, ilo: int, ihi: int)
    requires
        0 <= lo < hi <= 255,
        forall|i: int| 0 <= i < s.len() ==> #[trigger] s[i] == lo || s[i] == hi,
        0 <= ilo < s.len() && s[ilo] == lo,
        0 <= ihi < s.len() && s[ihi] == hi,
    ensures
        otsu_level(s) == lo,
{
    let a = count_eq(s, lo) as int;
    let b = count_eq(s, hi) as int;
    lemma_present_is_counted(s, ilo);
    lemma_present_is_counted(s, ihi);
    lemma_two_level_counts(s, lo, hi, lo);
    lemma_two_level_counts(s, lo, hi, 255);
    assert(spread(s, lo) == (lo - hi) * a * b) by (nonlinear_arith)
        requires
            spread(s, lo) == s.len() * sum_le(s, lo) - sum_le(s, 255) * count_le(s, lo),
            s.len() == a + b,
            sum_le(s, lo) == lo * a,
            sum_le(s, 255) == lo * a + hi * b,
            count_le(s, lo) == a,
    ;
    assert(spread(s, lo) != 0) by (nonlinear_arith)
        requires
            spread(s, lo) == (lo - hi) * a * b,
            lo < hi,
            a > 0,
            b > 0,
    ;
    assert(separates(s, lo));
    assert forall|t: int| 0 <= t < 256 && #[trigger] separates(s, t) implies !variance_gt(s, t, lo)
        && lo <= t < hi by {
        lemma_two_level_counts(s, lo, hi, t);
        assert(count_le(s, t) == count_le(s, lo) && sum_le(s, t) == sum_le(s, lo));
        assert(spread(s, t) == spread(s, lo));
        assert(den(s, t) == den(s, lo));
    }
    assert forall|t: int| 0 <= t < lo && #[trigger] separates(s, t) implies variance_gt(s, lo, t) by {
        lemma_two_level_counts(s, lo, hi, t);
    }
    assert(is_otsu_threshold(s, lo));
    lemma_otsu_unique(s, lo, otsu_level(s));
}

/// On an image whose intensities are all 10 or 200, both present, Otsu's
/// threshold falls in `[10, 200)` (it is 10, the first of the equally good
/// splits), so binarization sends exactly the 200s to the foreground.
pub proof fn lemma_bimodal_split(s: Seq<u8>, i10: int, i200: int)
    requires
        forall|i: int| 0 <= i < s.len() ==> #[trigger] s[i] == 10 || s[i] == 200,
        0 <= i10 < s.len() && s[i10] == 10,
        0 <= i200 < s.len() && s[i200] == 200,
    ensures
        otsu_level(s) == 10,
        forall|i: int|
            0 <= i < s.len() ==> #[trigger] binarized(s)[i] == if s[i] == 200 {
                255u8
            } else {
                0u8
            },
{
    lemma_two_level_threshold(s, 10, 200, i10, i200);
}

/// A binary image is its own binarization; in particular binarizing twice is
/// binarizing once.
pub proof fn lemma_binarize_idempotent(s: Seq<u8>)
    ensures
        (forall|i: int| 0 <= i < s.len() ==> #[trigger] s[i] == 0 || s[i] == 255) ==> binarized(s)
            == s,
        binarized(binarized(s)) == binarized(s),
{
    lemma_binary_fixed(s);
    lemma_binary_fixed(binarized(s));
}

proof fn lemma_binary_fixed(s: Seq<u8>)
    ensures
        (forall|i: int| 0 <= i < s.len() ==> #[trigger] s[i] == 0 || s[i] == 255) ==> binarized(s)
            == s,
{
    if forall|i: int| 0 <= i < s.len() ==> #[trigger] s[i] == 0 || s[i] == 255 {
        if (exists|i: int| 0 <= i < s.len() && s[i] == 0) && (exists|i: int|
            0 <= i < s.len() && s[i] == 255) {
            let i0 = choose|i: int| 0 <= i < s.len() && s[i] == 0;
            let i1 = choose|i: int| 0 <= i < s.len() && s[i] == 255;
            lemma_two_level_threshold(s, 0, 255, i0, i1);
        } else {
            assert forall|t: int| 0 <= t < 256 && #[trigger] separates(s, t) implies spread(s, t)
                == 0 by {
                lemma_two_level_counts(s, 0, 255, t);
                if exists|i: int| 0 <= i < s.len() && s[i] == 0 {
                    let i0 = choose|i: int| 0 <= i < s.len() && s[i] == 0;
                    lemma_no_value(s, 255);
                } else {
                    lemma_no_value(s, 0);
                }
            }
            assert(is_otsu_threshold(s, 0));
            lemma_otsu_unique(s, 0, otsu_level(s));
        }
        assert(binarized(s) =~= s);
    }
}

proof fn lemma_no_value(s: Seq<u8>, v: int)
    requires
        forall|i: int| 0 <= i < s.len() ==> s[i] != v,
    ensures
        count_eq(s, v) == 0,
    decreases s.len(),
{
    if s.len() > 0 {
        assert(s.last() == s[s.len() - 1]);
        lemma_no_value(s.drop_last(), v);
    }
}

} // verus!
