//! Column-run segmentation of binary images.
use vstd::prelude::*;
use crate::raster::{GrayImage, Raster, lemma_pixel_index_bounds};

verus! {

/// Runs of ink no wider than this many columns are noise (such as a comma).
pub const NOISE_WIDTH: u8 = 3;

/// Whether any pixel of column `x` is non-zero.
pub open spec fn column_ink(img: Raster, x: int) -> bool {
    exists|y: int| 0 <= y < img.height && #[trigger] img.at(x, y) != 0
}

/// For each column, whether it holds ink.
pub open spec fn ink_columns(img: Raster) -> Seq<bool> {
    Seq::new(img.width as nat, |x: int| column_ink(img, x))
}

/// The runs closed within the first `k` columns, and the start of the run still
/// open after them, if any. A run is kept only when wider than the noise width.
pub open spec fn scan_runs(ink: Seq<bool>, k: int) -> (Seq<(u8, u8)>, Option<int>)
    decreases k,
{
    if k <= 0 {
        (Seq::empty(), None)
    } else {
        let (runs, open) = scan_runs(ink, k - 1);
        let x = k - 1;
        match open {
            None => if ink[x] {
                (runs, Some(x))
            } else {
                (runs, None)
            },
            Some(b) => if ink[x] {
                (runs, Some(b))
            } else if x - b > NOISE_WIDTH {
                (runs.push((b as u8, x as u8)), None)
            } else {
                (runs, None)
            },
        }
    }
}

/// The half-open column intervals of the glyphs of `img`, left to right. A run
/// still open at the last column closes at `width - 1`, under the same width test.
pub open spec fn digit_intervals(img: Raster) -> Seq<(u8, u8)> {
    let (runs, open) = scan_runs(ink_columns(img), img.width as int);
    match open {
        Some(b) => if img.width - 1 - b > NOISE_WIDTH {
            runs.push((b as u8, (img.width - 1) as u8))
        } else {
            runs
        },
        None => runs,
    }
}

/// Intervals each wider than the noise width and ending at most at `limit`,
/// ordered left to right with a gap between neighbours.
pub open spec fn runs_ordered(runs: Seq<(u8, u8)>, limit: int) -> bool {
    &&& forall|i: int|
        0 <= i < runs.len() ==> (#[trigger] runs[i]).0 + NOISE_WIDTH < runs[i].1 <= limit
    &&& forall|i: int, j: int| 0 <= i < j < runs.len() ==> (#[trigger] runs[i]).1 < (#[trigger] runs[j]).0
}

proof fn lemma_scan_runs_ordered(ink: Seq<bool>, k: int)
    requires
        0 <= k <= 256,
    ensures
        runs_ordered(scan_runs(ink, k).0, k - 1),
        scan_runs(ink, k).1 matches Some(b) ==> 0 <= b < k && forall|i: int|
            0 <= i < scan_runs(ink, k).0.len() ==> (#[trigger] scan_runs(ink, k).0[i]).1 < b,
    decreases k,
{
    if k > 0 {
        lemma_scan_runs_ordered(ink, k - 1);
    }
}

/// The glyph intervals of an image lie inside it, are wider than the noise
/// width, and are ordered left to right without overlap.
pub proof fn lemma_digit_intervals_ordered(img: Raster)
    requires
        0 <= img.width <= 256,
    ensures
        runs_ordered(digit_intervals(img), img.width - 1),
{
    lemma_scan_runs_ordered(ink_columns(img), img.width);
}

/// `[b, e)` is a maximal run of ink columns.
pub open spec fn ink_run(ink: Seq<bool>, b: int, e: int) -> bool {
    &&& 0 <= b < e <= ink.len()
    &&& forall|x: int| b <= x < e ==> #[trigger] ink[x]
    &&& b == 0 || !ink[b - 1]
    &&& e == ink.len() || !ink[e]
}

/// The glyph interval of the maximal run `[b, e)`: a run reaching the last
/// column closes at `width - 1`.
pub open spec fn run_interval(ink: Seq<bool>, b: int, e: int) -> (int, int) {
    (b, if e == ink.len() { e - 1 } else { e })
}

/// Interval `iv` comes from a maximal ink run and is wider than the noise width.
pub open spec fn is_glyph_interval(ink: Seq<bool>, iv: (u8, u8)) -> bool {
    exists|b: int, e: int|
        #[trigger] ink_run(ink, b, e) && run_interval(ink, b, e) == (iv.0 as int, iv.1 as int)
            && iv.1 - iv.0 > NOISE_WIDTH
}

proof fn lemma_scan_runs_exact(ink: Seq<bool>, k: int)
    requires
        0 <= k <= ink.len(),
        ink.len() <= 256,
    ensures
        forall|i: int|
            0 <= i < scan_runs(ink, k).0.len() ==> {
                let r = #[trigger] scan_runs(ink, k).0[i];
                &&& ink_run(ink, r.0 as int, r.1 as int)
                &&& r.1 < k
                &&& r.1 - r.0 > NOISE_WIDTH
            },
        forall|b: int, e: int|
            #[trigger] ink_run(ink, b, e) && e < k && e - b > NOISE_WIDTH ==> scan_runs(
                ink,
                k,
            ).0.contains((b as u8, e as u8)),
        scan_runs(ink, k).1 matches Some(b) ==> {
            &&& 0 <= b < k
            &&& forall|x: int| b <= x < k ==> #[trigger] ink[x]
            &&& b == 0 || !ink[b - 1]
        },
        scan_runs(ink, k).1 is None ==> k == 0 || !ink[k - 1],
    decreases k,
{
    if k > 0 {
        lemma_scan_runs_exact(ink, k - 1);
        let prev = scan_runs(ink, k - 1);
        let cur = scan_runs(ink, k);
        assert forall|i: int| 0 <= i < prev.0.len() implies #[trigger] cur.0.contains(prev.0[i]) by {
            if cur.0 != prev.0 {
                assert(cur.0[i] == prev.0[i]);
            }
        }
        assert forall|b: int, e: int|
            #[trigger] ink_run(ink, b, e) && e < k && e - b > NOISE_WIDTH implies cur.0.contains(
            (b as u8, e as u8),
        ) by {
            if e < k - 1 {
                let j = choose|j: int| 0 <= j < prev.0.len() && prev.0[j] == (b as u8, e as u8);
                assert(cur.0.contains(prev.0[j]));
            } else {
                assert(!ink[k - 1]);
                if prev.1 is None {
                    assert(ink[k - 2]);
                }
                let ob = prev.1->Some_0;
                if ob < b {
                    assert(!ink[b - 1]);
                } else if ob > b {
                    assert(ink[ob - 1]);
                }
                assert(cur.0 == prev.0.push((b as u8, e as u8)));
                assert(cur.0[cur.0.len() - 1] == (b as u8, e as u8));
            }
        }
    }
}

/// The glyph intervals are exactly the maximal ink runs wider than the noise
/// width, each closed at its end or, when it reaches the last column, at
/// `width - 1`; a run of at most the noise width yields no interval.
pub proof fn lemma_digit_intervals_exact(img: Raster)
    requires
        0 <= img.width <= 256,
    ensures
        forall|i: int|
            0 <= i < digit_intervals(img).len() ==> is_glyph_interval(
                ink_columns(img),
                #[trigger] digit_intervals(img)[i],
            ),
        forall|b: int, e: int|
            #[trigger] ink_run(ink_columns(img), b, e) && run_interval(ink_columns(img), b, e).1 - b
                > NOISE_WIDTH ==> digit_intervals(img).contains(
                (b as u8, run_interval(ink_columns(img), b, e).1 as u8),
            ),
{
    let ink = ink_columns(img);
    let w = img.width;
    lemma_scan_runs_exact(ink, w);
    let sr = scan_runs(ink, w);
    let d = digit_intervals(img);
    assert forall|i: int| 0 <= i < d.len() implies is_glyph_interval(ink, #[trigger] d[i]) by {
        if i < sr.0.len() {
            let r = sr.0[i];
            assert(d[i] == r);
            assert(ink_run(ink, r.0 as int, r.1 as int));
            assert(run_interval(ink, r.0 as int, r.1 as int) == (r.0 as int, r.1 as int));
        } else {
            let b = sr.1->Some_0;
            assert(ink_run(ink, b, w));
            assert(run_interval(ink, b, w) == (d[i].0 as int, d[i].1 as int));
        }
    }
    assert forall|b: int, e: int|
        #[trigger] ink_run(ink, b, e) && run_interval(ink, b, e).1 - b > NOISE_WIDTH implies d.contains(
        (b as u8, run_interval(ink, b, e).1 as u8),
    ) by {
        if e < w {
            let j = choose|j: int| 0 <= j < sr.0.len() && sr.0[j] == (b as u8, e as u8);
            assert(d[j] == sr.0[j]);
        } else {
            if sr.1 is None {
                assert(ink[w - 1]);
            }
            let ob = sr.1->Some_0;
            if ob < b {
                assert(!ink[b - 1]);
            } else if ob > b {
                assert(ink[ob - 1]);
            }
            assert(d == sr.0.push((b as u8, (w - 1) as u8)));
            assert(d[d.len() - 1] == (b as u8, (w - 1) as u8));
        }
    }
}

/// Whether some column of `img` holds ink.
pub open spec fn has_ink(img: Raster) -> bool {
    exists|x: int| 0 <= x < img.width && #[trigger] column_ink(img, x)
}

/// The first column of `img` that holds ink.
pub open spec fn first_ink(img: Raster) -> int {
    choose|x: int|
        0 <= x < img.width && column_ink(img, x) && forall|j: int|
            0 <= j < x ==> !#[trigger] column_ink(img, j)
}

/// The last column of `img` that holds ink.
pub open spec fn last_ink(img: Raster) -> int {
    choose|x: int|
        0 <= x < img.width && column_ink(img, x) && forall|j: int|
            x < j < img.width ==> !#[trigger] column_ink(img, j)
}

/// The half-open column range `[begin, end)` that spans all ink of `img`, or
/// `(0, 0)` without ink.
pub open spec fn ink_extent(img: Raster) -> (int, int) {
    if has_ink(img) {
        (first_ink(img), last_ink(img) + 1)
    } else {
        (0, 0)
    }
}

/// Whether column `x` of a well-formed image holds a non-zero pixel.
pub fn column_has_ink(img: &GrayImage, x: u32) -> (r: bool)
    requires
        img.wf(),
        x < img.width,
    ensures
        r == column_ink(img@, x as int),
{
    let w = img.width;
    let h = img.height;
    let n = img.data.len();
    let mut y: u32 = 0;
    while y < h
        invariant
            img.wf(),
            n == img.data@.len(),
            w == img.width,
            h == img.height,
            x < w,
            y <= h,
            forall|j: int| 0 <= j < y ==> #[trigger] img@.at(x as int, j) == 0,
        decreases h - y,
    {
        proof {
            lemma_pixel_index_bounds(w as int, h as int, x as int, y as int);
        }
        let idx = y as usize * w as usize + x as usize;
        if img.data[idx] != 0 {
            assert(img@.at(x as int, y as int) != 0);
            return true;
        }
        y = y + 1;
    }
    false
}

/// Splits a binary strip into glyph intervals `[begin, end)`, ordered left to
/// right, dropping runs no wider than the noise width.
pub fn vertical_digit_divide(binary: &GrayImage) -> (r: Vec<(u8, u8)>)
    requires
        binary.wf(),
        binary.width <= 256,
    ensures
        r@ == digit_intervals(binary@),
        runs_ordered(r@, binary.width - 1),
        forall|i: int| 0 <= i < r@.len() ==> is_glyph_interval(ink_columns(binary@), #[trigger] r@[i]),
        forall|b: int, e: int|
            #[trigger] ink_run(ink_columns(binary@), b, e) && run_interval(ink_columns(binary@), b, e).1
                - b > NOISE_WIDTH ==> r@.contains(
                (b as u8, run_interval(ink_columns(binary@), b, e).1 as u8),
            ),
{
    proof {
        lemma_digit_intervals_ordered(binary@);
        lemma_digit_intervals_exact(binary@);
    }
    let ghost ink = ink_columns(binary@);
    let mut intervals: Vec<(u8, u8)> = Vec::new();
    let mut in_character = false;
    let mut char_begin: u8 = 0;
    let width = binary.width;
    let mut x: u32 = 0;
    while x < width
        invariant
            binary.wf(),
            width == binary.width,
            width <= 256,
            x <= width,
            ink == ink_columns(binary@),
            scan_runs(ink, x as int) == (intervals@, if in_character {
                Some(char_begin as int)
            } else {
                None::<int>
            }),
            in_character ==> char_begin < x,
        decreases width - x,
    {
        let has_white = column_has_ink(binary, x);
        if !in_character && has_white {
            in_character = true;
            char_begin = x as u8;
        } else if in_character && !has_white {
            in_character = false;
            if x as u8 - char_begin > NOISE_WIDTH {
                intervals.push((char_begin, x as u8));
            }
        }
        x = x + 1;
    }
    if in_character {
        let last = (width - 1) as u8;
        if last - char_begin > NOISE_WIDTH {
            intervals.push((char_begin, last));
        }
    }
    intervals
}

/// The horizontal extent `[begin, end)` of all ink in `binary`, as one numeral;
/// `(0, 0)` when there is no ink.
pub fn vertical_number_divide(binary: &GrayImage) -> (r: (u8, u8))
    requires
        binary.wf(),
        binary.width <= 255,
    ensures
        r.0 as int == ink_extent(binary@).0,
        r.1 as int == ink_extent(binary@).1,
        (forall|x: int| 0 <= x < binary.width ==> !column_ink(binary@, x)) ==> r == (0u8, 0u8),
        (exists|x: int| 0 <= x < binary.width && column_ink(binary@, x)) ==> {
            &&& r.0 < r.1 <= binary.width
            &&& column_ink(binary@, r.0 as int)
            &&& column_ink(binary@, r.1 - 1)
            &&& forall|x: int| 0 <= x < r.0 ==> !column_ink(binary@, x)
            &&& forall|x: int| r.1 <= x < binary.width ==> !column_ink(binary@, x)
        },
{
    let width = binary.width;
    let mut begin: u8 = 0;
    let mut x: u32 = 0;
    while x < width
        invariant_except_break
            binary.wf(),
            width == binary.width,
            width <= 255,
            x <= width,
            forall|j: int| 0 <= j < x ==> !column_ink(binary@, j),
        ensures
            x < width ==> column_ink(binary@, x as int) && begin == x,
            forall|j: int| 0 <= j < x ==> !column_ink(binary@, j),
            x <= width,
        decreases width - x,
    {
        if column_has_ink(binary, x) {
            begin = x as u8;
            break;
        }
        x = x + 1;
    }
    if x == width {
        assert(!has_ink(binary@));
        return (0, 0);
    }
    let mut end: u32 = width;
    while end > 0
        invariant_except_break
            binary.wf(),
            width == binary.width,
            end <= width,
            forall|j: int| end <= j < width ==> !column_ink(binary@, j),
        ensures
            end > 0 ==> column_ink(binary@, end - 1),
            forall|j: int| end <= j < width ==> !column_ink(binary@, j),
            end <= width,
        decreases end,
    {
        if column_has_ink(binary, end - 1) {
            break;
        }
        end = end - 1;
    }
    proof {
        let img = binary@;
        assert(column_ink(img, end - 1));
        assert(has_ink(img));
        let f = first_ink(img);
        let l = last_ink(img);
        assert(0 <= f < img.width && column_ink(img, f) && forall|j: int|
            0 <= j < f ==> !#[trigger] column_ink(img, j));
        assert(0 <= l < img.width && column_ink(img, l) && forall|j: int|
            l < j < img.width ==> !#[trigger] column_ink(img, j));
        if f < begin {
        } else if f > begin {
            assert(!column_ink(img, begin as int));
        }
        if l < end - 1 {
            assert(!column_ink(img, end - 1));
        } else if l > end - 1 {
        }
    }
    (begin, end as u8)
}

} // verus!
