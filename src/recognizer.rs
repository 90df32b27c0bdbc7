//! Recognition of the money and attack readings.
use vstd::prelude::*;
use vstd::arithmetic::div_mod::{lemma_fundamental_div_mod, lemma_mod_pos_bound};
use vstd::wrapping::u32_specs::{wrapping_add, wrapping_mul};
use crate::binarize::{MAX_PIXELS, binarize_view, otsu_binarize};
use crate::gallery::{MONEY_DIGIT_COUNT, TemplateGallery, attack_levels, bucket_range};
use crate::matcher::{best_index, classify, entry_score, lemma_best_index_minimal};
use crate::raster::{GrayImage, Raster, lemma_pixel_index_bounds};
use crate::segment::{
    digit_intervals, ink_extent, lemma_digit_intervals_ordered, vertical_digit_divide,
    vertical_number_divide,
};

verus! {

/// The columns `b..e` of `img`, full height.
pub open spec fn crop_view(img: Raster, b: int, e: int) -> Raster {
    Raster {
        width: e - b,
        height: img.height,
        pixels: Seq::new(
            ((e - b) * img.height) as nat,
            |k: int| img.at(b + k % (e - b), k / (e - b)),
        ),
    }
}

/// The pixels of a `w` x `h` image resampled to `nw` x `nh` by the
/// nearest-neighbour filter.
pub uninterp spec fn nearest_resized(src: Seq<u8>, w: nat, h: nat, nw: nat, nh: nat) -> Seq<u8>;

/// Relies on `image::imageops::resize` with `FilterType::Nearest`: it returns an
/// `nw` x `nh` image whose pixels depend on the source pixels and the sizes alone.
#[verifier::external_body]
fn resize_nearest(img: &GrayImage, nw: u32, nh: u32) -> (r: GrayImage)
    requires
        img.wf(),
        nw as int * nh as int <= usize::MAX,
    ensures
        r.wf(),
        r.width == nw,
        r.height == nh,
        r.data@ == nearest_resized(img.data@, img.width as nat, img.height as nat, nw as nat, nh as nat),
{
    let src = image::GrayImage::from_raw(img.width, img.height, img.data.clone()).unwrap();
    let out = image::imageops::resize(&src, nw, nh, image::imageops::FilterType::Nearest);
    GrayImage { width: nw, height: nh, data: out.into_raw() }
}

/// The columns `begin..end` of `img`, full height.
pub fn crop_columns(img: &GrayImage, begin: u32, end: u32) -> (r: GrayImage)
    requires
        img.wf(),
        begin < end <= img.width,
    ensures
        r.wf(),
        r@ == crop_view(img@, begin as int, end as int),
        r.data@.len() <= img.data@.len(),
{
    let cw = (end - begin) as usize;
    let w = img.width as usize;
    let h = img.height as usize;
    let len = img.data.len();
    assert(cw * h <= w * h) by (nonlinear_arith)
        requires
            cw <= w,
    ;
    let n = cw * h;
    let mut out: Vec<u8> = Vec::new();
    let mut k: usize = 0;
    while k < n
        invariant
            img.wf(),
            w == img.width,
            h == img.height,
            begin < end <= img.width,
            cw == end - begin,
            n == cw * h,
            n <= img.data@.len(),
            len == img.data@.len(),
            k <= n,
            out@.len() == k,
            forall|j: int|
                0 <= j < k ==> #[trigger] out@[j] == img@.at(begin + j % (cw as int), j / (cw as int)),
        decreases n - k,
    {
        let x = k % cw;
        let y = k / cw;
        proof {
            lemma_fundamental_div_mod(k as int, cw as int);
            lemma_mod_pos_bound(k as int, cw as int);
            assert(y < h) by (nonlinear_arith)
                requires
                    k < cw * h,
                    k == cw * y + x,
                    0 <= x,
                    cw > 0,
            ;
            lemma_pixel_index_bounds(w as int, h as int, begin + x, y as int);
        }
        let idx = y * w + begin as usize + x;
        out.push(img.data[idx]);
        k = k + 1;
    }
    let r = GrayImage { width: end - begin, height: img.height, data: out };
    assert(r@.pixels =~= crop_view(img@, begin as int, end as int).pixels);
    r
}

/// The glyph of interval `iv` of the binary strip `b`: its columns, resampled to
/// the digit templates' size unless already of that size.
pub open spec fn glyph(g: TemplateGallery, b: Raster, iv: (u8, u8)) -> Seq<u8> {
    let c = crop_view(b, iv.0 as int, iv.1 as int);
    let tw = g.money@[0].fg.width;
    let th = g.money@[0].fg.height;
    if c.width == tw && c.height == th {
        c.pixels
    } else {
        nearest_resized(c.pixels, c.width as nat, c.height as nat, tw as nat, th as nat)
    }
}

/// The digits read from the intervals `ivs` of `b`, most significant first, and
/// their summed scores, both kept modulo 2^32.
pub open spec fn money_reading(g: TemplateGallery, b: Raster, ivs: Seq<(u8, u8)>) -> (u32, u32)
    decreases ivs.len(),
{
    if ivs.len() == 0 {
        (0, 0)
    } else {
        let prev = money_reading(g, b, ivs.drop_last());
        let q = glyph(g, b, ivs.last());
        let e = g.money@[best_index(q, g.money@, MONEY_DIGIT_COUNT as int)];
        (
            wrapping_add(wrapping_mul(prev.0, 10), e.label as u32),
            wrapping_add(prev.1, entry_score(q, e) as u32),
        )
    }
}

/// Reads the money strip `source`: binarizes it, splits it into glyphs, classifies
/// each against the ten digits and returns the number they spell with the summed
/// score; `(0, 0)` when no glyph is found.
pub fn recognize_money(gallery: &TemplateGallery, source: &GrayImage) -> (r: (u32, u32))
    requires
        gallery.wf(),
        source.wf(),
        source.data@.len() <= MAX_PIXELS,
        source.width <= 256,
    ensures
        r == money_reading(*gallery, binarize_view(source@), digit_intervals(binarize_view(source@))),
{
    let binary = otsu_binarize(source);
    let intervals = vertical_digit_divide(&binary);
    let ghost ivs = intervals@;
    let tw = gallery.money[0].fg.width;
    let th = gallery.money[0].fg.height;
    proof {
        assert(gallery.money@[0].wf());
        assert(gallery.money@.subrange(0, MONEY_DIGIT_COUNT as int) =~= gallery.money@);
    }
    let mut money: u32 = 0;
    let mut score: u32 = 0;
    let mut i: usize = 0;
    while i < intervals.len()
        invariant
            gallery.wf(),
            binary.wf(),
            binary@ == binarize_view(source@),
            binary.data@.len() <= MAX_PIXELS,
            ivs == intervals@,
            ivs == digit_intervals(binary@),
            crate::segment::runs_ordered(ivs, binary.width - 1),
            tw == gallery.money@[0].fg.width,
            th == gallery.money@[0].fg.height,
            gallery.money@[0].fg.data@.len() == tw * th,
            gallery.money@.subrange(0, MONEY_DIGIT_COUNT as int) == gallery.money@,
            i <= ivs.len(),
            (money, score) == money_reading(*gallery, binary@, ivs.take(i as int)),
        decreases ivs.len() - i,
    {
        let (b, e) = intervals[i];
        assert(ivs[i as int].0 + 3 < ivs[i as int].1 <= binary.width - 1);
        let single = crop_columns(&binary, b as u32, e as u32);
        let cropped = if single.width == tw && single.height == th {
            single
        } else {
            resize_nearest(&single, tw, th)
        };
        let (digit, s) = classify(&cropped, &gallery.money, 0, MONEY_DIGIT_COUNT);
        money = money.wrapping_mul(10).wrapping_add(digit as u32);
        score = score.wrapping_add(s);
        proof {
            assert(ivs.take(i + 1).drop_last() =~= ivs.take(i as int));
        }
        i = i + 1;
    }
    assert(ivs.take(ivs.len() as int) =~= ivs);
    (money, score)
}

/// The width bucket whose recorded width is nearest to `width`; the first such
/// bucket on a tie.
pub open spec fn nearest_bucket(widths: Seq<u8>, width: int) -> int {
    let d0 = if widths[0] >= width { widths[0] - width } else { width - widths[0] };
    let d1 = if widths[1] >= width { widths[1] - width } else { width - widths[1] };
    let d2 = if widths[2] >= width { widths[2] - width } else { width - widths[2] };
    if d1 < d0 {
        if d2 < d1 {
            2
        } else {
            1
        }
    } else if d2 < d0 {
        2
    } else {
        0
    }
}

/// The attack reading of `img`: its ink width selects a width bucket, and the
/// binarized image is classified against that bucket's levels alone.
pub open spec fn attack_reading(g: TemplateGallery, img: Raster) -> (u16, u32) {
    let b = binarize_view(img);
    let ext = ink_extent(b);
    bucket_reading(g, b.pixels, nearest_bucket(g.widths@, ext.1 - ext.0))
}

/// The label and score of the first lowest-scoring level of width bucket `k`
/// for the binary query `q`.
pub open spec fn bucket_reading(g: TemplateGallery, q: Seq<u8>, k: int) -> (u16, u32) {
    let es = g.attack@.subrange(bucket_range(k).0, bucket_range(k).1);
    let best = best_index(q, es, es.len() as int);
    (es[best].label, entry_score(q, es[best]) as u32)
}

fn abs_diff(a: u8, b: u8) -> (r: u8)
    ensures
        r == if a >= b { a - b } else { b - a },
{
    if a >= b {
        a - b
    } else {
        b - a
    }
}

/// Reads the attack numeral `source` as one unsegmented numeral: its ink width
/// picks the nearest width bucket, and it is classified against the levels of
/// that bucket only.
pub fn recognize_attack(gallery: &TemplateGallery, source: &GrayImage) -> (r: (u16, u32))
    requires
        gallery.wf(),
        source.wf(),
        source.data@.len() <= MAX_PIXELS,
        source.width <= 255,
    ensures
        r == attack_reading(*gallery, source@),
{
    let binary = otsu_binarize(source);
    let (begin, end) = vertical_number_divide(&binary);
    let width = end - begin;
    let d0 = abs_diff(gallery.widths[0], width);
    let d1 = abs_diff(gallery.widths[1], width);
    let d2 = abs_diff(gallery.widths[2], width);
    let mut bucket: usize = 0;
    let mut best = d0;
    if d1 < best {
        bucket = 1;
        best = d1;
    }
    if d2 < best {
        bucket = 2;
    }
    let (lo, hi): (usize, usize) = if bucket == 0 {
        (0, 3)
    } else if bucket == 1 {
        (3, 26)
    } else {
        (26, 29)
    };
    assert(bucket as int == nearest_bucket(gallery.widths@, width as int));
    assert(forall|k: int| lo <= k < hi ==> (#[trigger] gallery.attack@[k]).wf());
    classify(&binary, &gallery.attack, lo, hi)
}

proof fn lemma_best_label_in_range(g: TemplateGallery, q: Seq<u8>, lo: int, hi: int)
    requires
        g.wf(),
        0 <= lo < hi <= g.attack@.len(),
    ensures
        ({
            let es = g.attack@.subrange(lo, hi);
            let j = lo + best_index(q, es, es.len() as int);
            &&& lo <= j < hi
            &&& es[best_index(q, es, es.len() as int)].label == attack_levels()[j]
        }),
{
    let es = g.attack@.subrange(lo, hi);
    lemma_best_index_minimal(q, es, es.len() as int);
    let best = best_index(q, es, es.len() as int);
    assert(es[best] == g.attack@[lo + best]);
}

proof fn lemma_bucket_reading_in_range(g: TemplateGallery, q: Seq<u8>, k: int)
    requires
        g.wf(),
    ensures
        exists|j: int|
            bucket_range(k).0 <= j < bucket_range(k).1 && bucket_reading(g, q, k).0
                == #[trigger] attack_levels()[j],
        k == 0 ==> bucket_reading(g, q, k).0 == 25 || bucket_reading(g, q, k).0 == 50
            || bucket_reading(g, q, k).0 == 75,
{
    let lo = bucket_range(k).0;
    let hi = bucket_range(k).1;
    lemma_best_label_in_range(g, q, lo, hi);
    let es = g.attack@.subrange(lo, hi);
    let j = lo + best_index(q, es, es.len() as int);
    assert(bucket_reading(g, q, k).0 == attack_levels()[j]);
    assert(lo <= j < hi);
    if k == 0 {
        assert(attack_levels()[0] == 25);
        assert(attack_levels()[1] == 50);
        assert(attack_levels()[2] == 75);
    }
}

/// An attack reading is always one of the levels of the width bucket nearest to
/// the numeral's ink width, whatever the other levels would score; in
/// particular a numeral nearest to the narrow bucket reads 25, 50 or 75.
pub proof fn lemma_attack_reading_in_bucket(g: TemplateGallery, img: Raster)
    requires
        g.wf(),
    ensures
        ({
            let ext = ink_extent(binarize_view(img));
            let k = nearest_bucket(g.widths@, ext.1 - ext.0);
            &&& exists|j: int|
                bucket_range(k).0 <= j < bucket_range(k).1 && attack_reading(g, img).0
                    == #[trigger] attack_levels()[j]
            &&& k == 0 ==> attack_reading(g, img).0 == 25 || attack_reading(g, img).0 == 50
                || attack_reading(g, img).0 == 75
        }),
{
    let b = binarize_view(img);
    let ext = ink_extent(b);
    let k = nearest_bucket(g.widths@, ext.1 - ext.0);
    lemma_bucket_reading_in_range(g, b.pixels, k);
    assert(attack_reading(g, img) == bucket_reading(g, b.pixels, k));
}

} // verus!
