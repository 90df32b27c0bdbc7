//! Paired 4-connected chamfer distance fields of binary images.
use vstd::prelude::*;
use crate::raster::GrayImage;
use vstd::arithmetic::div_mod::{
    lemma_fundamental_div_mod, lemma_fundamental_div_mod_converse_div,
    lemma_fundamental_div_mod_converse_mod, lemma_mod_pos_bound,
};

verus! {

/// The foreground intensity of a binary image.
pub const FOREGROUND: u8 = 255;

/// Whether pixel `i` of `b` belongs to the target class: the foreground when
/// `fg`, else the background.
pub open spec fn is_target(b: Seq<u8>, i: int, fg: bool) -> bool {
    (b[i] == FOREGROUND) == fg
}

/// `v + 1`, saturating at 255.
pub open spec fn inc_sat(v: u8) -> u8 {
    if v == 255 {
        255
    } else {
        (v + 1) as u8
    }
}

pub open spec fn min_u8(a: u8, b: u8) -> u8 {
    if a <= b {
        a
    } else {
        b
    }
}

/// The field at pixel `i` (row-major, rows `w` wide) after the forward raster
/// pass: its seed (0 on the target class, else 255) relaxed against the cell
/// above and the cell to the left.
pub open spec fn forward_field(b: Seq<u8>, w: int, fg: bool, i: int) -> u8
    decreases i,
{
    if i < 0 || w <= 0 {
        0
    } else {
        let seed: u8 = if is_target(b, i, fg) {
            0
        } else {
            255
        };
        let from_up = if i >= w {
            min_u8(seed, inc_sat(forward_field(b, w, fg, i - w)))
        } else {
            seed
        };
        if i >= 1 && i % w > 0 {
            min_u8(from_up, inc_sat(forward_field(b, w, fg, i - 1)))
        } else {
            from_up
        }
    }
}

/// The field at pixel `i` after the backward raster pass, which relaxes the
/// forward field against the cell below and the cell to the right.
pub open spec fn chamfer_field(b: Seq<u8>, w: int, fg: bool, i: int) -> u8
    decreases b.len() - i,
{
    if i < 0 || i >= b.len() || w <= 0 {
        0
    } else {
        let from_down = if i + w < b.len() {
            min_u8(forward_field(b, w, fg, i), inc_sat(chamfer_field(b, w, fg, i + w)))
        } else {
            forward_field(b, w, fg, i)
        };
        if i % w < w - 1 && i + 1 < b.len() {
            min_u8(from_down, inc_sat(chamfer_field(b, w, fg, i + 1)))
        } else {
            from_down
        }
    }
}

/// The whole chamfer field of the binary pixels `b`, rows `w` wide.
pub open spec fn field_seq(b: Seq<u8>, w: int, fg: bool) -> Seq<u8> {
    Seq::new(b.len(), |i: int| chamfer_field(b, w, fg, i))
}

/// `f` holds, for each pixel, the city-block distance to the nearest pixel of
/// the target class of `b` (rows `w` wide), saturating at 255: no more than the
/// distance to any target pixel, and unless saturated the distance to one.
pub open spec fn is_nearest_distance_field(b: Seq<u8>, w: int, fg: bool, f: Seq<u8>) -> bool {
    &&& forall|i: int, q: int|
        0 <= i < f.len() && 0 <= q < b.len() && #[trigger] is_target(b, q, fg) ==> #[trigger] f[i]
            <= city_block(w, i, q)
    &&& forall|i: int|
        0 <= i < f.len() ==> #[trigger] f[i] == 255 || exists|q: int|
            0 <= q < b.len() && #[trigger] is_target(b, q, fg) && city_block(w, i, q) <= f[i]
}

proof fn lemma_field_seq_nearest(b: Seq<u8>, w: int, h: int, fg: bool)
    requires
        w >= 0,
        h >= 0,
        b.len() == w * h,
    ensures
        is_nearest_distance_field(b, w, fg, field_seq(b, w, fg)),
{
    let f = field_seq(b, w, fg);
    if b.len() > 0 {
        assert(w > 0) by (nonlinear_arith)
            requires
                b.len() == w * h,
                b.len() > 0,
                w >= 0,
                h >= 0,
        ;
        assert forall|i: int, q: int|
            0 <= i < f.len() && 0 <= q < b.len() && #[trigger] is_target(b, q, fg) implies #[trigger] f[i]
            <= city_block(w, i, q) by {
            lemma_field_is_nearest_distance(b, w, h, fg, i);
        }
        assert forall|i: int| 0 <= i < f.len() implies #[trigger] f[i] == 255 || exists|q: int|
            0 <= q < b.len() && #[trigger] is_target(b, q, fg) && city_block(w, i, q) <= f[i] by {
            lemma_field_is_nearest_distance(b, w, h, fg, i);
        }
    }
}

/// The chamfer distance field of `binary` towards the foreground (`fg`) or the
/// background.
fn chamfer(binary: &GrayImage, fg: bool) -> (r: Vec<u8>)
    requires
        binary.wf(),
    ensures
        r@.len() == binary.data@.len(),
        forall|i: int|
            0 <= i < r@.len() ==> #[trigger] r@[i] == chamfer_field(
                binary.data@,
                binary.width as int,
                fg,
                i,
            ),
{
    let ghost b = binary.data@;
    let ghost wi = binary.width as int;
    let n = binary.data.len();
    let w = binary.width as usize;
    assert(wi > 0 || n == 0) by (nonlinear_arith)
        requires
            n == wi * binary.height,
            wi >= 0,
    ;
    let mut f: Vec<u8> = Vec::new();
    let mut i: usize = 0;
    while i < n
        invariant
            b == binary.data@,
            n == b.len(),
            wi == w,
            w > 0 || n == 0,
            i <= n,
            f@.len() == i,
            forall|k: int| 0 <= k < i ==> #[trigger] f@[k] == forward_field(b, wi, fg, k),
        decreases n - i,
    {
        let mut v: u8 = if (binary.data[i] == FOREGROUND) == fg {
            0
        } else {
            255
        };
        if i >= w {
            let up = f[i - w].saturating_add(1);
            if up < v {
                v = up;
            }
        }
        if i >= 1 && i % w > 0 {
            let left = f[i - 1].saturating_add(1);
            if left < v {
                v = left;
            }
        }
        f.push(v);
        i = i + 1;
    }
    let mut i: usize = n;
    while i > 0
        invariant
            b == binary.data@,
            n == b.len(),
            wi == w,
            w > 0 || n == 0,
            i <= n,
            f@.len() == n,
            forall|k: int| 0 <= k < i ==> #[trigger] f@[k] == forward_field(b, wi, fg, k),
            forall|k: int| i <= k < n ==> #[trigger] f@[k] == chamfer_field(b, wi, fg, k),
        decreases i,
    {
        i = i - 1;
        let mut v: u8 = f[i];
        if w < n - i {
            let down = f[i + w].saturating_add(1);
            if down < v {
                v = down;
            }
        }
        if i % w < w - 1 && i + 1 < n {
            let right = f[i + 1].saturating_add(1);
            if right < v {
                v = right;
            }
        }
        f.set(i, v);
    }
    f
}

/// The foreground and background distance fields of `binary`: each cell holds
/// the chamfer distance (saturating at 255) to the nearest foreground pixel,
/// respectively background pixel.
pub fn bidirectional_distance_transform(binary: &GrayImage) -> (r: (GrayImage, GrayImage))
    requires
        binary.wf(),
    ensures
        r.0.wf() && r.1.wf(),
        r.0.width == binary.width && r.0.height == binary.height,
        r.1.width == binary.width && r.1.height == binary.height,
        r.0.data@.len() == binary.data@.len(),
        r.1.data@.len() == binary.data@.len(),
        r.0.data@ == field_seq(binary.data@, binary.width as int, true),
        r.1.data@ == field_seq(binary.data@, binary.width as int, false),
        is_nearest_distance_field(binary.data@, binary.width as int, true, r.0.data@),
        is_nearest_distance_field(binary.data@, binary.width as int, false, r.1.data@),
        forall|i: int|
            0 <= i < binary.data@.len() ==> #[trigger] r.0.data@[i] == chamfer_field(
                binary.data@,
                binary.width as int,
                true,
                i,
            ),
        forall|i: int|
            0 <= i < binary.data@.len() ==> #[trigger] r.1.data@[i] == chamfer_field(
                binary.data@,
                binary.width as int,
                false,
                i,
            ),
{
    let fg = chamfer(binary, true);
    let bg = chamfer(binary, false);
    assert(fg@ =~= field_seq(binary.data@, binary.width as int, true));
    assert(bg@ =~= field_seq(binary.data@, binary.width as int, false));
    proof {
        lemma_field_seq_nearest(binary.data@, binary.width as int, binary.height as int, true);
        lemma_field_seq_nearest(binary.data@, binary.width as int, binary.height as int, false);
    }
    (
        GrayImage { width: binary.width, height: binary.height, data: fg },
        GrayImage { width: binary.width, height: binary.height, data: bg },
    )
}

/// A distance field is 0 exactly on the pixels of its target class: the
/// foreground field vanishes on every foreground pixel and only there, and the
/// background field likewise on the background.
pub proof fn lemma_field_zero_on_target(b: Seq<u8>, w: int, fg: bool, i: int)
    requires
        w > 0,
        0 <= i < b.len(),
    ensures
        chamfer_field(b, w, fg, i) == 0 <==> is_target(b, i, fg),
{
    assert(forward_field(b, w, fg, i) == 0 <==> is_target(b, i, fg));
}

/// The column of pixel `i` in rows `w` wide.
pub open spec fn col(w: int, i: int) -> int {
    i % w
}

/// The row of pixel `i` in rows `w` wide.
pub open spec fn row(w: int, i: int) -> int {
    i / w
}

pub open spec fn abs(v: int) -> int {
    if v < 0 {
        -v
    } else {
        v
    }
}

/// The 4-connected (city-block) distance between pixels `i` and `j`.
pub open spec fn city_block(w: int, i: int, j: int) -> int {
    abs(col(w, i) - col(w, j)) + abs(row(w, i) - row(w, j))
}

proof fn lemma_coords(w: int, i: int, x: int, y: int)
    requires
        w > 0,
        0 <= x < w,
        i == y * w + x,
    ensures
        col(w, i) == x,
        row(w, i) == y,
{
    lemma_fundamental_div_mod_converse_div(i, w, y, x);
    lemma_fundamental_div_mod_converse_mod(i, w, y, x);
}

proof fn lemma_split(w: int, i: int)
    requires
        w > 0,
        i >= 0,
    ensures
        i == row(w, i) * w + col(w, i),
        0 <= col(w, i) < w,
        row(w, i) >= 0,
{
    lemma_fundamental_div_mod(i, w);
    lemma_mod_pos_bound(i, w);
    assert(i == row(w, i) * w + col(w, i)) by (nonlinear_arith)
        requires
            i == w * (i / w) + i % w,
            row(w, i) == i / w,
            col(w, i) == i % w,
    ;
    assert(row(w, i) >= 0) by (nonlinear_arith)
        requires
            i == row(w, i) * w + col(w, i),
            col(w, i) < w,
            i >= 0,
            w > 0,
    ;
}

proof fn lemma_up(w: int, i: int)
    requires
        w > 0,
        i >= w,
    ensures
        col(w, i - w) == col(w, i),
        row(w, i - w) == row(w, i) - 1,
{
    lemma_split(w, i);
    assert(i - w == (row(w, i) - 1) * w + col(w, i)) by (nonlinear_arith)
        requires
            i == row(w, i) * w + col(w, i),
    ;
    lemma_coords(w, i - w, col(w, i), row(w, i) - 1);
}

proof fn lemma_down(w: int, i: int)
    requires
        w > 0,
        i >= 0,
    ensures
        col(w, i + w) == col(w, i),
        row(w, i + w) == row(w, i) + 1,
{
    lemma_split(w, i);
    assert(i + w == (row(w, i) + 1) * w + col(w, i)) by (nonlinear_arith)
        requires
            i == row(w, i) * w + col(w, i),
    ;
    lemma_coords(w, i + w, col(w, i), row(w, i) + 1);
}

proof fn lemma_left(w: int, i: int)
    requires
        w > 0,
        i >= 1,
        col(w, i) > 0,
    ensures
        col(w, i - 1) == col(w, i) - 1,
        row(w, i - 1) == row(w, i),
{
    lemma_split(w, i);
    lemma_coords(w, i - 1, col(w, i) - 1, row(w, i));
}

proof fn lemma_right(w: int, i: int)
    requires
        w > 0,
        i >= 0,
        col(w, i) < w - 1,
    ensures
        col(w, i + 1) == col(w, i) + 1,
        row(w, i + 1) == row(w, i),
{
    lemma_split(w, i);
    lemma_coords(w, i + 1, col(w, i) + 1, row(w, i));
}

/// A pixel at or above and at or left of `i` comes no later than `i`, and one
/// on a row above comes no later than the pixel above `i`.
proof fn lemma_order(w: int, q: int, i: int)
    requires
        w > 0,
        q >= 0,
        i >= 0,
        col(w, q) <= col(w, i),
        row(w, q) <= row(w, i),
    ensures
        q <= i,
        row(w, q) < row(w, i) ==> i >= w && q <= i - w,
{
    lemma_split(w, q);
    lemma_split(w, i);
    assert(q <= i) by (nonlinear_arith)
        requires
            q == row(w, q) * w + col(w, q),
            i == row(w, i) * w + col(w, i),
            col(w, q) <= col(w, i),
            row(w, q) <= row(w, i),
            w > 0,
    ;
    if row(w, q) < row(w, i) {
        assert(i >= w && q <= i - w) by (nonlinear_arith)
            requires
                q == row(w, q) * w + col(w, q),
                i == row(w, i) * w + col(w, i),
                col(w, q) <= col(w, i),
                row(w, q) + 1 <= row(w, i),
                row(w, q) >= 0,
                col(w, q) >= 0,
                w > 0,
        ;
    }
}

/// After the forward pass a cell holds at most the distance to every target
/// above-left of it, and (unless saturated) exactly the distance to one of them.
proof fn lemma_forward_nearest(b: Seq<u8>, w: int, fg: bool, i: int)
    requires
        w > 0,
        0 <= i < b.len(),
    ensures
        forall|q: int|
            0 <= q < b.len() && col(w, q) <= col(w, i) && row(w, q) <= row(w, i)
                && #[trigger] is_target(b, q, fg) ==> forward_field(b, w, fg, i) <= city_block(
                w,
                i,
                q,
            ),
        forward_field(b, w, fg, i) == 255 || exists|q: int|
            0 <= q < b.len() && col(w, q) <= col(w, i) && row(w, q) <= row(w, i)
                && #[trigger] is_target(b, q, fg) && city_block(w, i, q) == forward_field(
                b,
                w,
                fg,
                i,
            ),
    decreases i,
{
    lemma_split(w, i);
    if i >= w {
        lemma_forward_nearest(b, w, fg, i - w);
        lemma_up(w, i);
    }
    if i >= 1 && i % w > 0 {
        lemma_forward_nearest(b, w, fg, i - 1);
        lemma_left(w, i);
    }
    assert forall|q: int|
        0 <= q < b.len() && col(w, q) <= col(w, i) && row(w, q) <= row(w, i)
            && #[trigger] is_target(b, q, fg) implies forward_field(b, w, fg, i) <= city_block(
        w,
        i,
        q,
    ) by {
        lemma_order(w, q, i);
        lemma_split(w, q);
        if q == i {
        } else if row(w, q) < row(w, i) {
        } else {
            assert(col(w, q) < col(w, i));
            assert(i >= 1);
        }
    }
}

/// After the backward pass a cell holds at most the forward value of every cell
/// below-right of it plus the distance there, and (unless saturated) exactly
/// that for one of them.
proof fn lemma_backward_nearest(b: Seq<u8>, w: int, fg: bool, i: int)
    requires
        w > 0,
        0 <= i < b.len(),
    ensures
        forall|r: int|
            0 <= r < b.len() && col(w, r) >= col(w, i) && row(w, r) >= row(w, i) ==> chamfer_field(
                b,
                w,
                fg,
                i,
            ) <= #[trigger] forward_field(b, w, fg, r) + city_block(w, i, r),
        chamfer_field(b, w, fg, i) == 255 || exists|r: int|
            0 <= r < b.len() && col(w, r) >= col(w, i) && row(w, r) >= row(w, i)
                && chamfer_field(b, w, fg, i) == #[trigger] forward_field(b, w, fg, r)
                + city_block(w, i, r),
    decreases b.len() - i,
{
    lemma_split(w, i);
    if i + w < b.len() {
        lemma_backward_nearest(b, w, fg, i + w);
        lemma_down(w, i);
    }
    if i % w < w - 1 && i + 1 < b.len() {
        lemma_backward_nearest(b, w, fg, i + 1);
        lemma_right(w, i);
    }
    assert forall|r: int|
        0 <= r < b.len() && col(w, r) >= col(w, i) && row(w, r) >= row(w, i) implies chamfer_field(
        b,
        w,
        fg,
        i,
    ) <= #[trigger] forward_field(b, w, fg, r) + city_block(w, i, r) by {
        lemma_order(w, i, r);
        lemma_split(w, r);
        if r == i {
        } else if row(w, r) > row(w, i) {
            assert(i + w < b.len());
        } else {
            assert(col(w, r) > col(w, i));
            assert(i + 1 < b.len());
        }
    }
}

/// A distance field holds, saturating at 255, the city-block distance from each
/// pixel to the nearest pixel of its target class: no more than the distance to
/// any target pixel, and (unless saturated) the distance to one of them.
pub proof fn lemma_field_is_nearest_distance(b: Seq<u8>, w: int, h: int, fg: bool, p: int)
    requires
        w > 0,
        b.len() == w * h,
        0 <= p < b.len(),
    ensures
        forall|q: int|
            0 <= q < b.len() && #[trigger] is_target(b, q, fg) ==> chamfer_field(b, w, fg, p)
                <= city_block(w, p, q),
        chamfer_field(b, w, fg, p) == 255 || exists|q: int|
            0 <= q < b.len() && #[trigger] is_target(b, q, fg) && city_block(w, p, q)
                <= chamfer_field(b, w, fg, p),
{
    lemma_backward_nearest(b, w, fg, p);
    lemma_split(w, p);
    assert forall|q: int| 0 <= q < b.len() && #[trigger] is_target(b, q, fg) implies chamfer_field(
        b,
        w,
        fg,
        p,
    ) <= city_block(w, p, q) by {
        lemma_split(w, q);
        let rx = if col(w, p) >= col(w, q) { col(w, p) } else { col(w, q) };
        let ry = if row(w, p) >= row(w, q) { row(w, p) } else { row(w, q) };
        let r = ry * w + rx;
        assert(row(w, p) < h && row(w, q) < h) by (nonlinear_arith)
            requires
                p == row(w, p) * w + col(w, p),
                q == row(w, q) * w + col(w, q),
                col(w, p) >= 0,
                col(w, q) >= 0,
                p < w * h,
                q < w * h,
                w > 0,
        ;
        assert(0 <= r < b.len()) by (nonlinear_arith)
            requires
                r == ry * w + rx,
                0 <= rx < w,
                0 <= ry < h,
                b.len() == w * h,
        ;
        lemma_coords(w, r, rx, ry);
        lemma_forward_nearest(b, w, fg, r);
        assert(forward_field(b, w, fg, r) <= city_block(w, r, q));
    }
    if chamfer_field(b, w, fg, p) != 255 {
        let r = choose|r: int|
            0 <= r < b.len() && col(w, r) >= col(w, p) && row(w, r) >= row(w, p)
                && chamfer_field(b, w, fg, p) == #[trigger] forward_field(b, w, fg, r)
                + city_block(w, p, r);
        lemma_forward_nearest(b, w, fg, r);
        let q = choose|q: int|
            0 <= q < b.len() && col(w, q) <= col(w, r) && row(w, q) <= row(w, r)
                && #[trigger] is_target(b, q, fg) && city_block(w, r, q) == forward_field(
                b,
                w,
                fg,
                r,
            );
        assert(city_block(w, p, q) <= chamfer_field(b, w, fg, p));
    }
}

/// Moving a query foreground pixel from `p` to a neighbouring cell `moved` that
/// lies farther from every template foreground pixel than `p` lies from its
/// nearest one never lowers the foreground field there, which is what that
/// pixel adds to the match score.
pub proof fn lemma_farther_never_cheaper(b: Seq<u8>, w: int, h: int, p: int, moved: int, q0: int)
    requires
        w > 0,
        b.len() == w * h,
        0 <= p < b.len(),
        0 <= moved < b.len(),
        city_block(w, p, moved) == 1,
        0 <= q0 < b.len(),
        is_target(b, q0, true),
        forall|q: int|
            0 <= q < b.len() && #[trigger] is_target(b, q, true) ==> city_block(w, moved, q)
                > city_block(w, p, q0),
    ensures
        chamfer_field(b, w, true, moved) >= chamfer_field(b, w, true, p),
{
    lemma_field_is_nearest_distance(b, w, h, true, p);
    lemma_field_is_nearest_distance(b, w, h, true, moved);
}

} // verus!
