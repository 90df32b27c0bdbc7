//! Chamfer template matching and nearest-template classification.
use vstd::prelude::*;
use crate::distance::{FOREGROUND, city_block, field_seq, is_target, lemma_farther_never_cheaper};
use crate::raster::GrayImage;

verus! {

/// One known class value with the foreground and background distance fields of
/// its template.
#[derive(Clone, Debug)]
pub struct TemplateEntry {
    pub label: u16,
    pub fg: GrayImage,
    pub bg: GrayImage,
}

impl TemplateEntry {
    /// Both fields cover the same number of cells.
    pub open spec fn wf(&self) -> bool {
        &&& self.fg.wf()
        &&& self.bg.wf()
        &&& self.fg.data@.len() == self.bg.data@.len()
    }
}

/// The cost of cell `i`: the foreground field where the query has foreground,
/// else the background field.
pub open spec fn cell_cost(q: Seq<u8>, fg: Seq<u8>, bg: Seq<u8>, i: int) -> nat {
    if q[i] == FOREGROUND {
        fg[i] as nat
    } else {
        bg[i] as nat
    }
}

/// The summed cost of the first `n` cells.
pub open spec fn match_score(q: Seq<u8>, fg: Seq<u8>, bg: Seq<u8>, n: int) -> nat
    decreases n,
{
    if n <= 0 {
        0
    } else {
        match_score(q, fg, bg, n - 1) + cell_cost(q, fg, bg, n - 1)
    }
}

/// The number of cells that a query and a template share.
pub open spec fn overlap(q: Seq<u8>, fg: Seq<u8>) -> int {
    if q.len() <= fg.len() {
        q.len() as int
    } else {
        fg.len() as int
    }
}

/// The dissimilarity of query `q` to a template entry; 0 is a perfect match.
pub open spec fn entry_score(q: Seq<u8>, e: TemplateEntry) -> nat {
    match_score(q, e.fg.data@, e.bg.data@, overlap(q, e.fg.data@))
}

/// The index of the first lowest-scoring entry among the first `k` of `es`.
pub open spec fn best_index(q: Seq<u8>, es: Seq<TemplateEntry>, k: int) -> int
    decreases k,
{
    if k <= 1 {
        0
    } else {
        let b = best_index(q, es, k - 1);
        if entry_score(q, es[k - 1]) < entry_score(q, es[b]) {
            k - 1
        } else {
            b
        }
    }
}

proof fn lemma_match_score_bound(q: Seq<u8>, fg: Seq<u8>, bg: Seq<u8>, n: int)
    requires
        0 <= n <= q.len(),
        n <= fg.len(),
        n <= bg.len(),
    ensures
        match_score(q, fg, bg, n) <= 255 * n,
    decreases n,
{
    if n > 0 {
        lemma_match_score_bound(q, fg, bg, n - 1);
    }
}

/// The first lowest-scoring entry scores no more than any entry, and strictly
/// less than every entry before it.
pub proof fn lemma_best_index_minimal(q: Seq<u8>, es: Seq<TemplateEntry>, k: int)
    requires
        1 <= k <= es.len(),
    ensures
        0 <= best_index(q, es, k) < k,
        forall|j: int|
            0 <= j < k ==> entry_score(q, es[best_index(q, es, k)]) <= #[trigger] entry_score(
                q,
                es[j],
            ),
        forall|j: int|
            0 <= j < best_index(q, es, k) ==> entry_score(q, es[best_index(q, es, k)])
                < #[trigger] entry_score(q, es[j]),
    decreases k,
{
    if k > 1 {
        lemma_best_index_minimal(q, es, k - 1);
    }
}

/// The chamfer score of `src_binary` against a template's fields: over the
/// cells they share, the foreground field where the query is foreground, else
/// the background field, summed.
pub fn template_match(src_binary: &GrayImage, tmpl_fg: &GrayImage, tmpl_bg: &GrayImage) -> (r: u32)
    requires
        255 * overlap(src_binary.data@, tmpl_fg.data@) <= u32::MAX,
        tmpl_fg.data@.len() == tmpl_bg.data@.len(),
    ensures
        r == match_score(
            src_binary.data@,
            tmpl_fg.data@,
            tmpl_bg.data@,
            overlap(src_binary.data@, tmpl_fg.data@),
        ),
{
    let q = &src_binary.data;
    let fg = &tmpl_fg.data;
    let bg = &tmpl_bg.data;
    let n = if q.len() <= fg.len() {
        q.len()
    } else {
        fg.len()
    };
    let mut score: u32 = 0;
    let mut i: usize = 0;
    while i < n
        invariant
            n == overlap(q@, fg@),
            255 * n <= u32::MAX,
            n <= fg@.len() == bg@.len(),
            n <= q@.len(),
            i <= n,
            score == match_score(q@, fg@, bg@, i as int),
        decreases n - i,
    {
        proof {
            lemma_match_score_bound(q@, fg@, bg@, i as int + 1);
        }
        let cost: u32 = if q[i] == FOREGROUND {
            fg[i] as u32
        } else {
            bg[i] as u32
        };
        score = score + cost;
        i = i + 1;
    }
    score
}

/// Scores `query` against the candidates `lo..hi` and returns the label and
/// score of the first lowest-scoring one.
pub fn classify(query: &GrayImage, candidates: &Vec<TemplateEntry>, lo: usize, hi: usize) -> (r: (
    u16,
    u32,
))
    requires
        255 * query.data@.len() <= u32::MAX,
        lo < hi <= candidates@.len(),
        forall|k: int| lo <= k < hi ==> (#[trigger] candidates@[k]).wf(),
    ensures
        ({
            let es = candidates@.subrange(lo as int, hi as int);
            let b = best_index(query.data@, es, es.len() as int);
            r.0 == es[b].label && r.1 == entry_score(query.data@, es[b])
        }),
{
    let ghost q = query.data@;
    let ghost es = candidates@.subrange(lo as int, hi as int);
    let first = &candidates[lo];
    let mut best_label = first.label;
    let mut best_score = template_match(query, &first.fg, &first.bg);
    let mut k: usize = lo + 1;
    while k < hi
        invariant
            q == query.data@,
            255 * q.len() <= u32::MAX,
            es == candidates@.subrange(lo as int, hi as int),
            lo < k <= hi <= candidates@.len(),
            forall|j: int| lo <= j < hi ==> (#[trigger] candidates@[j]).wf(),
            best_label == es[best_index(q, es, k - lo)].label,
            best_score == entry_score(q, es[best_index(q, es, k - lo)]),
        decreases hi - k,
    {
        let e = &candidates[k];
        assert(es[k - lo] == candidates@[k as int]);
        let s = template_match(query, &e.fg, &e.bg);
        if s < best_score {
            best_label = e.label;
            best_score = s;
        }
        k = k + 1;
    }
    (best_label, best_score)
}

/// Against a template whose foreground field is that of the binary image `t`,
/// a query foreground pixel at `p` costs no more than one moved to a
/// neighbouring cell `moved` that lies farther from every foreground pixel of
/// `t` than `p` lies from its nearest one.
pub proof fn lemma_moved_pixel_costs_no_less(
    t: Seq<u8>,
    w: int,
    h: int,
    e: TemplateEntry,
    before: Seq<u8>,
    after: Seq<u8>,
    p: int,
    moved: int,
    q0: int,
)
    requires
        w > 0,
        t.len() == w * h,
        e.fg.data@ == field_seq(t, w, true),
        0 <= p < t.len(),
        0 <= moved < t.len(),
        city_block(w, p, moved) == 1,
        p < before.len() && before[p] == FOREGROUND,
        moved < after.len() && after[moved] == FOREGROUND,
        0 <= q0 < t.len(),
        is_target(t, q0, true),
        forall|q: int|
            0 <= q < t.len() && #[trigger] is_target(t, q, true) ==> city_block(w, moved, q)
                > city_block(w, p, q0),
    ensures
        cell_cost(before, e.fg.data@, e.bg.data@, p) <= cell_cost(
            after,
            e.fg.data@,
            e.bg.data@,
            moved,
        ),
{
    lemma_farther_never_cheaper(t, w, h, p, moved, q0);
}

} // verus!
