//! The table of reference templates that recognition matches against.
use vstd::prelude::*;
use crate::binarize::{MAX_PIXELS, binarize_view, otsu_binarize};
use crate::distance::{bidirectional_distance_transform, field_seq};
use crate::matcher::TemplateEntry;
use crate::raster::{GrayImage, Raster};
use crate::segment::{ink_extent, vertical_number_divide};

verus! {

/// Number of money digit classes, 0 to 9.
pub const MONEY_DIGIT_COUNT: usize = 10;

/// Number of known attack levels.
pub const ATTACK_LEVEL_COUNT: usize = 29;

/// Number of width buckets of attack numerals.
pub const WIDTH_BUCKET_COUNT: usize = 3;

/// The known attack levels, ascending.
pub open spec fn attack_levels() -> Seq<u16> {
    seq![
        25u16, 50, 75, 100, 125, 150, 175, 200, 225, 250, 275, 300, 325, 350, 375, 400, 425, 450,
        475, 500, 550, 600, 650, 700, 750, 800, 1000, 1200, 1500,
    ]
}

/// The known attack levels, ascending.
pub fn attack_level_values() -> (r: Vec<u16>)
    ensures
        r@ == attack_levels(),
{
    let r = vec![
        25u16, 50, 75, 100, 125, 150, 175, 200, 225, 250, 275, 300, 325, 350, 375, 400, 425, 450,
        475, 500, 550, 600, 650, 700, 750, 800, 1000, 1200, 1500,
    ];
    assert(r@ =~= attack_levels());
    r
}

/// The position among the attack levels of the representative numeral of width
/// bucket `k` (levels 50, 450 and 1000).
pub open spec fn bucket_representative(k: int) -> int {
    if k == 0 {
        1
    } else if k == 1 {
        17
    } else {
        26
    }
}

/// The positions `lo..hi` among the attack levels of the candidates of width
/// bucket `k`: {25, 50, 75}, 100 to 800, and {1000, 1200, 1500}.
pub open spec fn bucket_range(k: int) -> (int, int) {
    if k == 0 {
        (0, 3)
    } else if k == 1 {
        (3, 26)
    } else {
        (26, 29)
    }
}

/// A template image that the gallery can take.
pub open spec fn template_fits(t: GrayImage) -> bool {
    &&& t.wf()
    &&& t.width > 0
    &&& t.height > 0
    &&& t.data@.len() <= MAX_PIXELS
    &&& t.width <= 255
}

/// `e` holds label `label` with the distance fields of the binarized template `t`.
pub open spec fn entry_of(e: TemplateEntry, label: u16, t: Raster) -> bool {
    let b = binarize_view(t);
    &&& e.label == label
    &&& e.fg@ == Raster { width: t.width, height: t.height, pixels: field_seq(b.pixels, t.width, true) }
    &&& e.bg@ == Raster { width: t.width, height: t.height, pixels: field_seq(b.pixels, t.width, false) }
}

/// The width of the ink of the binarized template `t`.
pub open spec fn template_ink_width(t: Raster) -> int {
    ink_extent(binarize_view(t)).1 - ink_extent(binarize_view(t)).0
}

/// The distance fields of every money digit and attack level, and the ink width
/// of each width bucket's representative numeral.
pub struct TemplateGallery {
    pub money: Vec<TemplateEntry>,
    pub attack: Vec<TemplateEntry>,
    pub widths: Vec<u8>,
}

impl TemplateGallery {
    /// Digits 0 to 9 in order, all of one size; the attack levels in order; one
    /// width per bucket.
    pub open spec fn wf(&self) -> bool {
        &&& self.money@.len() == MONEY_DIGIT_COUNT
        &&& forall|i: int|
            0 <= i < MONEY_DIGIT_COUNT ==> {
                &&& (#[trigger] self.money@[i]).label == i
                &&& self.money@[i].wf()
                &&& self.money@[i].fg.width == self.money@[0].fg.width
                &&& self.money@[i].fg.height == self.money@[0].fg.height
            }
        &&& self.money@[0].fg.data@.len() <= MAX_PIXELS
        &&& self.attack@.len() == ATTACK_LEVEL_COUNT
        &&& forall|i: int|
            0 <= i < ATTACK_LEVEL_COUNT ==> (#[trigger] self.attack@[i]).label == attack_levels()[i]
                && self.attack@[i].wf()
        &&& self.widths@.len() == WIDTH_BUCKET_COUNT
    }
}

fn fits(t: &GrayImage) -> (r: bool)
    ensures
        r == template_fits(*t),
{
    assert(t.width as u64 * t.height as u64 <= u64::MAX) by (nonlinear_arith);
    t.data.len() as u64 == t.width as u64 * t.height as u64 && t.width > 0 && t.height > 0
        && t.data.len() <= MAX_PIXELS && t.width <= 255
}

fn make_entry(label: u16, t: &GrayImage) -> (r: TemplateEntry)
    requires
        template_fits(*t),
    ensures
        entry_of(r, label, t@),
        r.wf(),
        r.fg.width == t.width && r.fg.height == t.height,
        r.fg.data@.len() == t.data@.len(),
{
    let binary = otsu_binarize(t);
    let (fg, bg) = bidirectional_distance_transform(&binary);
    TemplateEntry { label, fg, bg }
}

/// Builds the gallery from the money digit templates (digits 0 to 9, in order)
/// and the attack level templates (in the order of the known levels): each is
/// binarized and its distance fields computed, and the ink width of each width
/// bucket's representative is recorded. `None` unless there are 10 and 29
/// templates, each non-empty and fitting, and the digit templates share one size.
pub fn initialize(money_templates: &Vec<GrayImage>, attack_templates: &Vec<GrayImage>) -> (r: Option<
    TemplateGallery,
>)
    ensures
        r is Some <==> {
            &&& money_templates@.len() == MONEY_DIGIT_COUNT
            &&& attack_templates@.len() == ATTACK_LEVEL_COUNT
            &&& forall|i: int|
                0 <= i < MONEY_DIGIT_COUNT ==> template_fits(#[trigger] money_templates@[i])
                    && money_templates@[i].width == money_templates@[0].width
                    && money_templates@[i].height == money_templates@[0].height
            &&& forall|i: int|
                0 <= i < ATTACK_LEVEL_COUNT ==> template_fits(#[trigger] attack_templates@[i])
        },
        r matches Some(g) ==> {
            &&& g.wf()
            &&& forall|i: int|
                0 <= i < MONEY_DIGIT_COUNT ==> entry_of(
                    #[trigger] g.money@[i],
                    i as u16,
                    money_templates@[i]@,
                )
            &&& forall|i: int|
                0 <= i < ATTACK_LEVEL_COUNT ==> entry_of(
                    #[trigger] g.attack@[i],
                    attack_levels()[i],
                    attack_templates@[i]@,
                )
            &&& forall|k: int|
                0 <= k < WIDTH_BUCKET_COUNT ==> #[trigger] g.widths@[k] as int == template_ink_width(
                    attack_templates@[bucket_representative(k)]@,
                )
        },
{
    if money_templates.len() != MONEY_DIGIT_COUNT || attack_templates.len() != ATTACK_LEVEL_COUNT {
        return None;
    }
    let w0 = money_templates[0].width;
    let h0 = money_templates[0].height;
    let mut money: Vec<TemplateEntry> = Vec::new();
    let mut i: usize = 0;
    while i < MONEY_DIGIT_COUNT
        invariant
            money_templates@.len() == MONEY_DIGIT_COUNT,
            w0 == money_templates@[0].width,
            h0 == money_templates@[0].height,
            i <= MONEY_DIGIT_COUNT,
            money@.len() == i,
            forall|j: int|
                0 <= j < i ==> template_fits(#[trigger] money_templates@[j])
                    && money_templates@[j].width == w0 && money_templates@[j].height == h0,
            forall|j: int|
                0 <= j < i ==> entry_of(#[trigger] money@[j], j as u16, money_templates@[j]@)
                    && money@[j].wf() && money@[j].fg.width == w0 && money@[j].fg.height == h0
                    && money@[j].fg.data@.len() == money_templates@[j].data@.len(),
        decreases MONEY_DIGIT_COUNT - i,
    {
        let t = &money_templates[i];
        if !fits(t) || t.width != w0 || t.height != h0 {
            return None;
        }
        let e = make_entry(i as u16, t);
        money.push(e);
        i = i + 1;
    }
    let levels = attack_level_values();
    let mut attack: Vec<TemplateEntry> = Vec::new();
    let mut i: usize = 0;
    while i < ATTACK_LEVEL_COUNT
        invariant
            attack_templates@.len() == ATTACK_LEVEL_COUNT,
            levels@ == attack_levels(),
            i <= ATTACK_LEVEL_COUNT,
            attack@.len() == i,
            forall|j: int| 0 <= j < i ==> template_fits(#[trigger] attack_templates@[j]),
            forall|j: int|
                0 <= j < i ==> entry_of(#[trigger] attack@[j], attack_levels()[j], attack_templates@[j]@)
                    && attack@[j].wf(),
        decreases ATTACK_LEVEL_COUNT - i,
    {
        let t = &attack_templates[i];
        if !fits(t) {
            return None;
        }
        let e = make_entry(levels[i], t);
        attack.push(e);
        i = i + 1;
    }
    let mut widths: Vec<u8> = Vec::new();
    let reps: [usize; 3] = [1, 17, 26];
    let mut k: usize = 0;
    while k < WIDTH_BUCKET_COUNT
        invariant
            attack_templates@.len() == ATTACK_LEVEL_COUNT,
            forall|j: int| 0 <= j < ATTACK_LEVEL_COUNT ==> template_fits(#[trigger] attack_templates@[j]),
            reps@ == seq![1usize, 17, 26],
            k <= WIDTH_BUCKET_COUNT,
            widths@.len() == k,
            forall|j: int|
                0 <= j < k ==> #[trigger] widths@[j] as int == template_ink_width(
                    attack_templates@[bucket_representative(j)]@,
                ),
        decreases WIDTH_BUCKET_COUNT - k,
    {
        let t = &attack_templates[reps[k]];
        assert(reps[k as int] as int == bucket_representative(k as int));
        let binary = otsu_binarize(t);
        let (begin, end) = vertical_number_divide(&binary);
        widths.push(end - begin);
        k = k + 1;
    }
    Some(TemplateGallery { money, attack, widths })
}

} // verus!
