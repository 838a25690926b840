//! The mathematical model of the direction grid: which boundary edges leave
//! each grid vertex, how many enter it, and how walking one edge changes that.
use vstd::arithmetic::div_mod::{
    lemma_fundamental_div_mod, lemma_fundamental_div_mod_converse, lemma_mod_pos_bound,
};
use vstd::prelude::*;

use crate::sums::{
    lemma_rect_add, lemma_rect_shift, lemma_trim_first_col, lemma_trim_first_row,
    lemma_trim_last_col, lemma_trim_last_row, rect_sum, row_sum,
};

verus! {

pub const DIR_L: u8 = 1;

pub const DIR_R: u8 = 2;

pub const DIR_D: u8 = 4;

pub const DIR_U: u8 = 8;

/// Cell `(x, y)` of a `w` by `h` occupancy grid is filled; outside the grid
/// nothing is.
pub open spec fn filled(image: Seq<bool>, w: int, h: int, x: int, y: int) -> bool {
    0 <= x < w && 0 <= y < h && image[x + y * w]
}

pub open spec fn is_dir(d: u8) -> bool {
    d == DIR_L || d == DIR_R || d == DIR_D || d == DIR_U
}

/// The bit `d` is set in the direction mask `c`.
pub open spec fn has_dir(c: u8, d: u8) -> bool {
    c & d != 0
}

pub open spec fn bit_count(b: bool) -> int {
    if b {
        1
    } else {
        0
    }
}

/// Number of boundary edges that leave a vertex with mask `c`.
pub open spec fn edges_at(c: u8) -> int {
    bit_count(has_dir(c, DIR_L)) + bit_count(has_dir(c, DIR_R)) + bit_count(has_dir(c, DIR_D))
        + bit_count(has_dir(c, DIR_U))
}

pub open spec fn dx(d: u8) -> int {
    if d == DIR_L {
        -1
    } else if d == DIR_R {
        1
    } else {
        0
    }
}

pub open spec fn dy(d: u8) -> int {
    if d == DIR_D {
        -1
    } else if d == DIR_U {
        1
    } else {
        0
    }
}

/// The mask built from four direction flags.
pub open spec fn mask_of(l: bool, r: bool, d: bool, u: bool) -> u8 {
    ((if l {
        DIR_L
    } else {
        0u8
    }) | (if r {
        DIR_R
    } else {
        0u8
    })) | ((if d {
        DIR_D
    } else {
        0u8
    }) | (if u {
        DIR_U
    } else {
        0u8
    }))
}

/// The boundary edges leaving grid vertex `(x, y)`, the corner shared by the
/// cells `(x - 1, y - 1)`, `(x, y - 1)`, `(x - 1, y)` and `(x, y)`. Each edge
/// keeps its filled cell on the same side, so every boundary runs the same
/// way round its region.
pub open spec fn vertex_mask(image: Seq<bool>, w: int, h: int, x: int, y: int) -> u8 {
    let a = filled(image, w, h, x - 1, y - 1);
    let b = filled(image, w, h, x, y - 1);
    let c = filled(image, w, h, x - 1, y);
    let d = filled(image, w, h, x, y);
    mask_of(c && !a, b && !d, a && !b, d && !c)
}

/// The mask at vertex `(x, y)` of a direction grid stored row by row, with
/// `gw` vertices to a row.
pub open spec fn grid_mask(g: Seq<u8>, gw: int, x: int, y: int) -> u8 {
    g[x + y * gw]
}

/// Number of boundary edges still in the direction grid that leave `(x, y)`.
pub open spec fn out_degree(g: Seq<u8>, gw: int, x: int, y: int) -> int {
    edges_at(grid_mask(g, gw, x, y))
}

/// Number of boundary edges still in the direction grid that enter `(x, y)`.
pub open spec fn in_degree(g: Seq<u8>, gw: int, gh: int, x: int, y: int) -> int {
    bit_count(x > 0 && has_dir(grid_mask(g, gw, x - 1, y), DIR_R)) + bit_count(
        x + 1 < gw && has_dir(grid_mask(g, gw, x + 1, y), DIR_L),
    ) + bit_count(y > 0 && has_dir(grid_mask(g, gw, x, y - 1), DIR_U)) + bit_count(
        y + 1 < gh && has_dir(grid_mask(g, gw, x, y + 1), DIR_D),
    )
}

pub open spec fn in_grid(gw: int, gh: int, x: int, y: int) -> bool {
    0 <= x < gw && 0 <= y < gh
}

/// Every mask uses the four direction bits only, and no edge leaves the grid.
pub open spec fn grid_valid(g: Seq<u8>, gw: int, gh: int) -> bool {
    &&& gw >= 1
    &&& gh >= 1
    &&& g.len() == gw * gh
    &&& forall|x: int, y: int|
        #![trigger grid_mask(g, gw, x, y)]
        in_grid(gw, gh, x, y) ==> {
            let c = grid_mask(g, gw, x, y);
            &&& c < 16
            &&& has_dir(c, DIR_L) ==> x > 0
            &&& has_dir(c, DIR_R) ==> x + 1 < gw
            &&& has_dir(c, DIR_D) ==> y > 0
            &&& has_dir(c, DIR_U) ==> y + 1 < gh
        }
}

pub open spec fn at(x: int, y: int, p: (int, int)) -> int {
    if x == p.0 && y == p.1 {
        1
    } else {
        0
    }
}

/// Each vertex has as many edges out as in, except that a walk which began at
/// `start` and now stands at `cur` has one edge more to leave `cur` by and
/// one more to come back to `start` by.
pub open spec fn balanced(g: Seq<u8>, gw: int, gh: int, cur: (int, int), start: (int, int)) -> bool {
    forall|x: int, y: int|
        #![trigger out_degree(g, gw, x, y)]
        in_grid(gw, gh, x, y) ==> out_degree(g, gw, x, y) - in_degree(g, gw, gh, x, y) == at(
            x,
            y,
            cur,
        ) - at(x, y, start)
}

/// The grid that the tracer builds from an occupancy grid.
pub open spec fn is_direction_grid(g: Seq<u8>, image: Seq<bool>, w: int, h: int) -> bool {
    &&& g.len() == (w + 1) * (h + 1)
    &&& forall|x: int, y: int|
        #![trigger grid_mask(g, w + 1, x, y)]
        in_grid(w + 1, h + 1, x, y) ==> grid_mask(g, w + 1, x, y) == vertex_mask(image, w, h, x, y)
}

/// Number of boundary edges still held in a direction grid.
pub open spec fn total_edges(g: Seq<u8>) -> int
    decreases g.len(),
{
    if g.len() == 0 {
        0
    } else {
        total_edges(g.drop_last()) + edges_at(g.last())
    }
}

/// Every edge of `g2` is an edge of `g1`.
pub open spec fn edges_within(g2: Seq<u8>, g1: Seq<u8>) -> bool {
    &&& g2.len() == g1.len()
    &&& forall|i: int, d: u8| 0 <= i < g2.len() && #[trigger] has_dir(g2[i], d) ==> has_dir(g1[i], d)
}

pub proof fn lemma_mask_of(l: bool, r: bool, d: bool, u: bool)
    ensures
        mask_of(l, r, d, u) < 16,
        has_dir(mask_of(l, r, d, u), DIR_L) == l,
        has_dir(mask_of(l, r, d, u), DIR_R) == r,
        has_dir(mask_of(l, r, d, u), DIR_D) == d,
        has_dir(mask_of(l, r, d, u), DIR_U) == u,
{
    let lb: u8 = if l {
        1u8
    } else {
        0u8
    };
    let rb: u8 = if r {
        2u8
    } else {
        0u8
    };
    let db: u8 = if d {
        4u8
    } else {
        0u8
    };
    let ub: u8 = if u {
        8u8
    } else {
        0u8
    };
    assert(mask_of(l, r, d, u) == (lb | rb) | (db | ub));
    assert(((lb | rb) | (db | ub)) < 16 && (((lb | rb) | (db | ub)) & 1 != 0) == (lb == 1) && (((
    lb | rb) | (db | ub)) & 2 != 0) == (rb == 2) && (((lb | rb) | (db | ub)) & 4 != 0) == (db
        == 4) && (((lb | rb) | (db | ub)) & 8 != 0) == (ub == 8)) by (bit_vector)
        requires
            lb == 0 || lb == 1,
            rb == 0 || rb == 2,
            db == 0 || db == 4,
            ub == 0 || ub == 8,
    ;
}

/// Clearing the direction bit `d` of a mask removes that bit and keeps the others.
pub proof fn lemma_clear(c: u8, d: u8)
    requires
        c < 16,
        is_dir(d),
    ensures
        c & !d < 16,
        !has_dir(c & !d, d),
        forall|e: u8| is_dir(e) && e != d ==> #[trigger] has_dir(c & !d, e) == has_dir(c, e),
        has_dir(c, d) ==> edges_at(c & !d) == edges_at(c) - 1,
        !has_dir(c, d) ==> c & !d == c,
{
    assert(c & !d < 16 && (c & !d) & d == 0 && (c & d == 0 ==> c & !d == c)) by (bit_vector)
        requires
            c < 16,
    ;
    assert(((c & !d) & 1 != 0) == (c & 1 != 0 && d != 1) && ((c & !d) & 2 != 0) == (c & 2 != 0
        && d != 2) && ((c & !d) & 4 != 0) == (c & 4 != 0 && d != 4) && ((c & !d) & 8 != 0) == (c
        & 8 != 0 && d != 8)) by (bit_vector)
        requires
            d == 1u8 || d == 2u8 || d == 4u8 || d == 8u8,
    ;
}

/// A mask that is neither empty nor a single direction has a second bit
/// besides any one of its directions.
pub proof fn lemma_ambiguous(c: u8)
    requires
        c < 16,
        c != 0,
        c != DIR_L && c != DIR_R && c != DIR_D && c != DIR_U,
    ensures
        has_dir(c, DIR_R) || has_dir(c, DIR_D) || has_dir(c, DIR_U),
        has_dir(c, DIR_L) || has_dir(c, DIR_D) || has_dir(c, DIR_U),
        has_dir(c, DIR_L) || has_dir(c, DIR_R) || has_dir(c, DIR_U),
        has_dir(c, DIR_L) || has_dir(c, DIR_R) || has_dir(c, DIR_D),
{
    assert((c & 2 != 0 || c & 4 != 0 || c & 8 != 0) && (c & 1 != 0 || c & 4 != 0 || c & 8 != 0)
        && (c & 1 != 0 || c & 2 != 0 || c & 8 != 0) && (c & 1 != 0 || c & 2 != 0 || c & 4 != 0))
        by (bit_vector)
        requires
            c < 16,
            c != 0,
            c != 1 && c != 2 && c != 4 && c != 8,
    ;
}

/// A mask with no direction bit is zero.
pub proof fn lemma_no_edges(c: u8)
    requires
        c < 16,
    ensures
        edges_at(c) >= 0,
        edges_at(c) == 0 <==> c == 0,
        c == DIR_L || c == DIR_R || c == DIR_D || c == DIR_U ==> edges_at(c) == 1 && has_dir(c, c),
{
    assert((c & 1 == 0 && c & 2 == 0 && c & 4 == 0 && c & 8 == 0) <==> c == 0) by (bit_vector)
        requires
            c < 16,
    ;
    assert(c == 1 ==> (c & 1 != 0 && c & 2 == 0 && c & 4 == 0 && c & 8 == 0)) by (bit_vector);
    assert(c == 2 ==> (c & 1 == 0 && c & 2 != 0 && c & 4 == 0 && c & 8 == 0)) by (bit_vector);
    assert(c == 4 ==> (c & 1 == 0 && c & 2 == 0 && c & 4 != 0 && c & 8 == 0)) by (bit_vector);
    assert(c == 8 ==> (c & 1 == 0 && c & 2 == 0 && c & 4 == 0 && c & 8 != 0)) by (bit_vector);
}

pub proof fn lemma_total_nonneg(g: Seq<u8>)
    ensures
        total_edges(g) >= 0,
    decreases g.len(),
{
    if g.len() > 0 {
        lemma_total_nonneg(g.drop_last());
    }
}

/// Replacing one mask changes the edge total by the difference of the two.
pub proof fn lemma_total_update(g: Seq<u8>, i: int, v: u8)
    requires
        0 <= i < g.len(),
    ensures
        total_edges(g.update(i, v)) == total_edges(g) - edges_at(g[i]) + edges_at(v),
    decreases g.len(),
{
    let g2 = g.update(i, v);
    if i == g.len() - 1 {
        assert(g2.drop_last() =~= g.drop_last());
    } else {
        lemma_total_update(g.drop_last(), i, v);
        assert(g2.drop_last() =~= g.drop_last().update(i, v));
    }
}

/// Row-major positions of in-grid vertices are in bounds and distinct.
pub proof fn lemma_index(gw: int, gh: int, x: int, y: int)
    requires
        in_grid(gw, gh, x, y),
    ensures
        0 <= x + y * gw < gw * gh,
        forall|x2: int, y2: int|
            in_grid(gw, gh, x2, y2) && #[trigger] (x2 + y2 * gw) == x + y * gw ==> x2 == x && y2
                == y,
{
    assert(0 <= x + y * gw < gw * gh) by (nonlinear_arith)
        requires
            0 <= x < gw,
            0 <= y < gh,
    ;
    assert forall|x2: int, y2: int|
        in_grid(gw, gh, x2, y2) && #[trigger] (x2 + y2 * gw) == x + y * gw implies x2 == x && y2
            == y by {
        if y2 < y {
            assert(x2 + y2 * gw < x + y * gw) by (nonlinear_arith)
                requires
                    0 <= x < gw,
                    0 <= x2 < gw,
                    y2 < y,
            ;
        } else if y2 > y {
            assert(x2 + y2 * gw > x + y * gw) by (nonlinear_arith)
                requires
                    0 <= x < gw,
                    0 <= x2 < gw,
                    y2 > y,
            ;
        }
    }
}

proof fn lemma_vertex_bits(g: Seq<u8>, image: Seq<bool>, w: int, h: int, x: int, y: int)
    requires
        is_direction_grid(g, image, w, h),
        in_grid(w + 1, h + 1, x, y),
    ensures
        ({
            let c = grid_mask(g, w + 1, x, y);
            let a = filled(image, w, h, x - 1, y - 1);
            let b = filled(image, w, h, x, y - 1);
            let cc = filled(image, w, h, x - 1, y);
            let d = filled(image, w, h, x, y);
            &&& c < 16
            &&& has_dir(c, DIR_L) == (cc && !a)
            &&& has_dir(c, DIR_R) == (b && !d)
            &&& has_dir(c, DIR_D) == (a && !b)
            &&& has_dir(c, DIR_U) == (d && !cc)
        }),
{
    let a = filled(image, w, h, x - 1, y - 1);
    let b = filled(image, w, h, x, y - 1);
    let cc = filled(image, w, h, x - 1, y);
    let d = filled(image, w, h, x, y);
    assert(grid_mask(g, w + 1, x, y) == vertex_mask(image, w, h, x, y));
    lemma_mask_of(cc && !a, b && !d, a && !b, d && !cc);
}

/// The direction grid of an occupancy grid is valid, and at each vertex as
/// many boundary edges leave as enter.
pub proof fn lemma_direction_grid_balanced(
    g: Seq<u8>,
    image: Seq<bool>,
    w: int,
    h: int,
    s: (int, int),
)
    requires
        w >= 0,
        h >= 0,
        is_direction_grid(g, image, w, h),
    ensures
        grid_valid(g, w + 1, h + 1),
        balanced(g, w + 1, h + 1, s, s),
{
    assert forall|x: int, y: int| #![trigger grid_mask(g, w + 1, x, y)] in_grid(w + 1, h + 1, x, y) implies {
        let c = grid_mask(g, w + 1, x, y);
        &&& c < 16
        &&& has_dir(c, DIR_L) ==> x > 0
        &&& has_dir(c, DIR_R) ==> x + 1 < w + 1
        &&& has_dir(c, DIR_D) ==> y > 0
        &&& has_dir(c, DIR_U) ==> y + 1 < h + 1
    } by {
        lemma_vertex_bits(g, image, w, h, x, y);
    }
    assert forall|x: int, y: int|
        #![trigger out_degree(g, w + 1, x, y)]
        in_grid(w + 1, h + 1, x, y) implies out_degree(g, w + 1, x, y) - in_degree(
            g,
            w + 1,
            h + 1,
            x,
            y,
        ) == at(x, y, s) - at(x, y, s) by {
        lemma_vertex_bits(g, image, w, h, x, y);
        if x > 0 {
            lemma_vertex_bits(g, image, w, h, x - 1, y);
        }
        if x + 1 < w + 1 {
            lemma_vertex_bits(g, image, w, h, x + 1, y);
        }
        if y > 0 {
            lemma_vertex_bits(g, image, w, h, x, y - 1);
        }
        if y + 1 < h + 1 {
            lemma_vertex_bits(g, image, w, h, x, y + 1);
        }
    }
}

proof fn lemma_cell_update(g: Seq<u8>, gw: int, gh: int, cur: (int, int), v: u8, x: int, y: int)
    requires
        g.len() == gw * gh,
        in_grid(gw, gh, cur.0, cur.1),
        in_grid(gw, gh, x, y),
    ensures
        grid_mask(g.update(cur.0 + cur.1 * gw, v), gw, x, y) == if x == cur.0 && y == cur.1 {
            v
        } else {
            grid_mask(g, gw, x, y)
        },
{
    lemma_index(gw, gh, cur.0, cur.1);
    lemma_index(gw, gh, x, y);
}

/// Walking one boundary edge out of `cur`: its bit is cleared, the walk
/// stands one step further on, the grid stays valid and balanced, and one
/// edge fewer is left.
pub proof fn lemma_step(g: Seq<u8>, gw: int, gh: int, cur: (int, int), start: (int, int), d: u8)
    requires
        grid_valid(g, gw, gh),
        balanced(g, gw, gh, cur, start),
        in_grid(gw, gh, cur.0, cur.1),
        is_dir(d),
        has_dir(grid_mask(g, gw, cur.0, cur.1), d),
    ensures
        ({
            let g2 = g.update(cur.0 + cur.1 * gw, grid_mask(g, gw, cur.0, cur.1) & !d);
            let nxt = (cur.0 + dx(d), cur.1 + dy(d));
            &&& in_grid(gw, gh, nxt.0, nxt.1)
            &&& grid_valid(g2, gw, gh)
            &&& balanced(g2, gw, gh, nxt, start)
            &&& total_edges(g2) == total_edges(g) - 1
            &&& edges_within(g2, g)
        }),
{
    let c = grid_mask(g, gw, cur.0, cur.1);
    let i = cur.0 + cur.1 * gw;
    let v = c & !d;
    let g2 = g.update(i, v);
    let nxt = (cur.0 + dx(d), cur.1 + dy(d));
    lemma_index(gw, gh, cur.0, cur.1);
    lemma_clear(c, d);
    lemma_total_update(g, i, v);
    assert forall|x: int, y: int| #![trigger grid_mask(g2, gw, x, y)] in_grid(gw, gh, x, y) implies {
        let c2 = grid_mask(g2, gw, x, y);
        &&& c2 < 16
        &&& has_dir(c2, DIR_L) ==> x > 0
        &&& has_dir(c2, DIR_R) ==> x + 1 < gw
        &&& has_dir(c2, DIR_D) ==> y > 0
        &&& has_dir(c2, DIR_U) ==> y + 1 < gh
    } by {
        lemma_cell_update(g, gw, gh, cur, v, x, y);
    }
    assert forall|x: int, y: int|
        #![trigger out_degree(g2, gw, x, y)]
        in_grid(gw, gh, x, y) implies out_degree(g2, gw, x, y) - in_degree(g2, gw, gh, x, y) == at(
            x,
            y,
            nxt,
        ) - at(x, y, start) by {
        assert(out_degree(g, gw, x, y) - in_degree(g, gw, gh, x, y) == at(x, y, cur) - at(
            x,
            y,
            start,
        ));
        lemma_cell_update(g, gw, gh, cur, v, x, y);
        if x > 0 {
            lemma_cell_update(g, gw, gh, cur, v, x - 1, y);
        }
        if x + 1 < gw {
            lemma_cell_update(g, gw, gh, cur, v, x + 1, y);
        }
        if y > 0 {
            lemma_cell_update(g, gw, gh, cur, v, x, y - 1);
        }
        if y + 1 < gh {
            lemma_cell_update(g, gw, gh, cur, v, x, y + 1);
        }
    }
    assert forall|j: int, e: u8| 0 <= j < g2.len() && #[trigger] has_dir(g2[j], e) implies has_dir(
        g[j],
        e,
    ) by {
        if j == i {
            assert(v & e != 0 ==> c & e != 0) by (bit_vector)
                requires
                    v == c & !d,
            ;
        }
    }
}

/// The direction grid of a `w` by `h` occupancy grid, vertices row by row.
pub open spec fn direction_grid(image: Seq<bool>, w: int, h: int) -> Seq<u8> {
    Seq::new(
        ((w + 1) * (h + 1)) as nat,
        |i: int| vertex_mask(image, w, h, i % (w + 1), i / (w + 1)),
    )
}

/// Number of boundary edges of an occupancy grid: one for each side of a
/// filled cell that borders an empty cell or the outside.
pub open spec fn boundary_edges(image: Seq<bool>, w: int, h: int) -> int {
    total_edges(direction_grid(image, w, h))
}

pub proof fn lemma_direction_grid(image: Seq<bool>, w: int, h: int)
    requires
        w >= 0,
        h >= 0,
    ensures
        is_direction_grid(direction_grid(image, w, h), image, w, h),
{
    let g = direction_grid(image, w, h);
    assert forall|x: int, y: int|
        #![trigger grid_mask(g, w + 1, x, y)]
        in_grid(w + 1, h + 1, x, y) implies grid_mask(g, w + 1, x, y) == vertex_mask(
            image,
            w,
            h,
            x,
            y,
        ) by {
        lemma_index(w + 1, h + 1, x, y);
        lemma_fundamental_div_mod_converse(x + y * (w + 1), w + 1, y, x);
    }
}

/// Two walks that ended where they began leave the same balance.
pub proof fn lemma_balanced_closed(g: Seq<u8>, gw: int, gh: int, s: (int, int), t: (int, int))
    requires
        balanced(g, gw, gh, s, s),
    ensures
        balanced(g, gw, gh, t, t),
{
    assert forall|x: int, y: int|
        #![trigger out_degree(g, gw, x, y)]
        in_grid(gw, gh, x, y) implies out_degree(g, gw, x, y) - in_degree(g, gw, gh, x, y) == at(
            x,
            y,
            t,
        ) - at(x, y, t) by {
        assert(out_degree(g, gw, x, y) - in_degree(g, gw, gh, x, y) == at(x, y, s) - at(x, y, s));
    }
}

/// Number of vertices among the first `n` of row `k` whose mask has bit `d`.
pub open spec fn row_count(g: Seq<u8>, gw: int, k: int, d: u8, n: int) -> int
    decreases n,
{
    if n <= 0 {
        0
    } else {
        row_count(g, gw, k, d, n - 1) + bit_count(has_dir(grid_mask(g, gw, n - 1, k), d))
    }
}

/// The `d` bits of row `k`, or none for a row outside the grid.
pub open spec fn row_total(g: Seq<u8>, gw: int, gh: int, k: int, d: u8) -> int {
    if 0 <= k < gh {
        row_count(g, gw, k, d, gw)
    } else {
        0
    }
}

proof fn lemma_row_count_zero(g: Seq<u8>, gw: int, k: int, d: u8, n: int)
    ensures
        row_count(g, gw, k, d, n) >= 0,
        row_count(g, gw, k, d, n) == 0 <==> forall|x: int|
            0 <= x < n ==> !has_dir(#[trigger] grid_mask(g, gw, x, k), d),
    decreases n,
{
    if n > 0 {
        lemma_row_count_zero(g, gw, k, d, n - 1);
        if row_count(g, gw, k, d, n) == 0 {
            assert forall|x: int| 0 <= x < n implies !has_dir(#[trigger] grid_mask(g, gw, x, k), d) by {
                if x < n - 1 {
                }
            }
        }
    }
}

proof fn lemma_row_prefix(g: Seq<u8>, gw: int, gh: int, k: int, n: int)
    requires
        grid_valid(g, gw, gh),
        0 <= k < gh,
        0 <= n <= gw,
        forall|x: int|
            0 <= x < gw ==> out_degree(g, gw, x, k) == in_degree(g, gw, gh, x, k),
    ensures
        row_count(g, gw, k, DIR_D, n) + row_count(g, gw, k, DIR_U, n) + bit_count(
            n > 0 && has_dir(grid_mask(g, gw, n - 1, k), DIR_R),
        ) == (if k > 0 {
            row_count(g, gw, k - 1, DIR_U, n)
        } else {
            0
        }) + (if k + 1 < gh {
            row_count(g, gw, k + 1, DIR_D, n)
        } else {
            0
        }) + bit_count(n < gw && has_dir(grid_mask(g, gw, n, k), DIR_L)),
    decreases n,
{
    if n == 0 {
    } else {
        lemma_row_prefix(g, gw, gh, k, n - 1);
        let x = n - 1;
        assert(out_degree(g, gw, x, k) == in_degree(g, gw, gh, x, k));
        if n < gw {
        }
    }
}

/// Summed over a row of a balanced grid, the edges leaving the row
/// vertically equal those entering it vertically.
pub proof fn lemma_row_balance(g: Seq<u8>, gw: int, gh: int, k: int)
    requires
        grid_valid(g, gw, gh),
        balanced(g, gw, gh, (0, 0), (0, 0)),
        0 <= k < gh,
    ensures
        row_total(g, gw, gh, k, DIR_D) + row_total(g, gw, gh, k, DIR_U) == row_total(
            g,
            gw,
            gh,
            k - 1,
            DIR_U,
        ) + row_total(g, gw, gh, k + 1, DIR_D),
{
    assert forall|x: int| 0 <= x < gw implies out_degree(g, gw, x, k) == in_degree(
        g,
        gw,
        gh,
        x,
        k,
    ) by {
        assert(out_degree(g, gw, x, k) - in_degree(g, gw, gh, x, k) == at(x, k, (0, 0)) - at(
            x,
            k,
            (0, 0),
        ));
    }
    lemma_row_prefix(g, gw, gh, k, gw);
}

/// With no upward edge left below row `r`, no downward edge is left in
/// rows up to `r`.
pub proof fn lemma_no_down(g: Seq<u8>, gw: int, gh: int, r: int, j: int)
    requires
        grid_valid(g, gw, gh),
        balanced(g, gw, gh, (0, 0), (0, 0)),
        forall|x: int, y: int|
            0 <= x < gw && 0 <= y < r && y < gh ==> !has_dir(
                #[trigger] grid_mask(g, gw, x, y),
                DIR_U,
            ),
        0 <= j <= r,
        j < gh,
    ensures
        row_total(g, gw, gh, j, DIR_D) == 0,
    decreases j,
{
    if j == 0 {
        assert forall|x: int| 0 <= x < gw implies !has_dir(
            #[trigger] grid_mask(g, gw, x, 0),
            DIR_D,
        ) by {
            assert(in_grid(gw, gh, x, 0));
        }
        lemma_row_count_zero(g, gw, 0, DIR_D, gw);
    } else {
        lemma_no_down(g, gw, gh, r, j - 1);
        lemma_row_balance(g, gw, gh, j - 1);
        lemma_row_count_zero(g, gw, j - 1, DIR_U, gw);
        lemma_row_count_zero(g, gw, j - 1, DIR_D, gw);
        lemma_row_count_zero(g, gw, j, DIR_D, gw);
        if j >= 2 {
            lemma_row_count_zero(g, gw, j - 2, DIR_U, gw);
        }
    }
}

/// The edges a grid holds, all of them edges of an occupancy grid's
/// direction grid, in a grid where each vertex is balanced.
pub open spec fn traced_state(g: Seq<u8>, image: Seq<bool>, w: int, h: int) -> bool {
    &&& w >= 0
    &&& h >= 0
    &&& grid_valid(g, w + 1, h + 1)
    &&& balanced(g, w + 1, h + 1, (0, 0), (0, 0))
    &&& edges_within(g, direction_grid(image, w, h))
}

/// No edge runs right out of `(x, k)` while another runs left into it from
/// `(x + 1, k)`: the cell under `(x, k)` would have to be both filled and
/// empty.
proof fn lemma_no_horizontal_pair(g: Seq<u8>, image: Seq<bool>, w: int, h: int, x: int, k: int)
    requires
        traced_state(g, image, w, h),
        in_grid(w + 1, h + 1, x, k),
        in_grid(w + 1, h + 1, x + 1, k),
        has_dir(grid_mask(g, w + 1, x, k), DIR_R),
    ensures
        !has_dir(grid_mask(g, w + 1, x + 1, k), DIR_L),
{
    let dg = direction_grid(image, w, h);
    lemma_direction_grid(image, w, h);
    lemma_index(w + 1, h + 1, x, k);
    lemma_index(w + 1, h + 1, x + 1, k);
    assert(has_dir(g[x + k * (w + 1)], DIR_R));
    assert(has_dir(dg[x + k * (w + 1)], DIR_R));
    lemma_vertex_bits(dg, image, w, h, x, k);
    lemma_vertex_bits(dg, image, w, h, x + 1, k);
    if has_dir(grid_mask(g, w + 1, x + 1, k), DIR_L) {
        assert(has_dir(g[(x + 1) + k * (w + 1)], DIR_L));
        assert(has_dir(dg[(x + 1) + k * (w + 1)], DIR_L));
    }
}

/// In a row with no vertical edges around, no vertex from the left end up
/// to `x` has an edge left.
proof fn lemma_row_clear(g: Seq<u8>, image: Seq<bool>, w: int, h: int, k: int, x: int)
    requires
        traced_state(g, image, w, h),
        0 <= k <= h,
        0 <= x <= w,
        forall|vx: int, vy: int|
            in_grid(w + 1, h + 1, vx, vy) ==> !has_dir(#[trigger] grid_mask(g, w + 1, vx, vy), DIR_U)
                && !has_dir(grid_mask(g, w + 1, vx, vy), DIR_D),
    ensures
        forall|vx: int| 0 <= vx <= x ==> #[trigger] out_degree(g, w + 1, vx, k) == 0,
    decreases x,
{
    let gw = w + 1;
    let gh = h + 1;
    if x > 0 {
        lemma_row_clear(g, image, w, h, k, x - 1);
    }
    let c = grid_mask(g, gw, x, k);
    assert(out_degree(g, gw, x, k) - in_degree(g, gw, gh, x, k) == at(x, k, (0, 0)) - at(
        x,
        k,
        (0, 0),
    ));
    if has_dir(c, DIR_L) {
        assert(out_degree(g, gw, x - 1, k) - in_degree(g, gw, gh, x - 1, k) == at(
            x - 1,
            k,
            (0, 0),
        ) - at(x - 1, k, (0, 0)));
        assert(out_degree(g, gw, x - 1, k) == 0);
        assert(false);
    }
    if has_dir(c, DIR_R) {
        if x > 0 && has_dir(grid_mask(g, gw, x - 1, k), DIR_R) {
            assert(out_degree(g, gw, x - 1, k) == 0);
        }
        lemma_no_horizontal_pair(g, image, w, h, x, k);
        if k > 0 {
            assert(!has_dir(grid_mask(g, gw, x, k - 1), DIR_U));
        }
        if k + 1 < gh {
            assert(!has_dir(grid_mask(g, gw, x, k + 1), DIR_D));
        }
        assert(false);
    }
    assert(!has_dir(c, DIR_U) && !has_dir(c, DIR_D));
}

proof fn lemma_total_zero(g: Seq<u8>)
    requires
        forall|i: int| 0 <= i < g.len() ==> edges_at(#[trigger] g[i]) == 0,
    ensures
        total_edges(g) == 0,
    decreases g.len(),
{
    if g.len() > 0 {
        let g2 = g.drop_last();
        assert forall|i: int| 0 <= i < g2.len() implies edges_at(#[trigger] g2[i]) == 0 by {
            assert(g2[i] == g[i]);
        }
        lemma_total_zero(g2);
        assert(edges_at(g[g.len() - 1]) == 0);
    }
}

/// Once no upward edge is left anywhere, no edge at all is left.
pub proof fn lemma_scan_done(g: Seq<u8>, image: Seq<bool>, w: int, h: int)
    requires
        traced_state(g, image, w, h),
        forall|vx: int, vy: int|
            in_grid(w + 1, h + 1, vx, vy) ==> !has_dir(#[trigger] grid_mask(g, w + 1, vx, vy), DIR_U),
    ensures
        total_edges(g) == 0,
{
    let gw = w + 1;
    let gh = h + 1;
    assert forall|vx: int, vy: int| in_grid(gw, gh, vx, vy) implies !has_dir(
        #[trigger] grid_mask(g, gw, vx, vy),
        DIR_U,
    ) && !has_dir(grid_mask(g, gw, vx, vy), DIR_D) by {
        lemma_no_down(g, gw, gh, gh, vy);
        lemma_row_count_zero(g, gw, vy, DIR_D, gw);
    }
    assert forall|i: int| 0 <= i < g.len() implies edges_at(#[trigger] g[i]) == 0 by {
        lemma_fundamental_div_mod(i, gw);
        lemma_mod_pos_bound(i, gw);
        let x = i % gw;
        let y = i / gw;
        assert(0 <= y < gh) by (nonlinear_arith)
            requires
                i == gw * y + x,
                0 <= x < gw,
                0 <= i < gw * gh,
                gw > 0,
        ;
        assert(i == x + y * gw) by (nonlinear_arith)
            requires
                i == gw * y + x,
        ;
        lemma_row_clear(g, image, w, h, y, w);
        assert(out_degree(g, gw, x, y) == 0);
    }
    lemma_total_zero(g);
}

/// Where the row-major scan finds the first upward edge left, that vertex
/// has no other edge: a walk from it leaves upwards.
pub proof fn lemma_scan_start(g: Seq<u8>, image: Seq<bool>, w: int, h: int, sx: int, sy: int)
    requires
        traced_state(g, image, w, h),
        in_grid(w + 1, h + 1, sx, sy),
        has_dir(grid_mask(g, w + 1, sx, sy), DIR_U),
        forall|vx: int, vy: int|
            in_grid(w + 1, h + 1, vx, vy) && vy < sy ==> !has_dir(
                #[trigger] grid_mask(g, w + 1, vx, vy),
                DIR_U,
            ),
    ensures
        grid_mask(g, w + 1, sx, sy) == DIR_U,
{
    let gw = w + 1;
    let gh = h + 1;
    let dg = direction_grid(image, w, h);
    let c = grid_mask(g, gw, sx, sy);
    lemma_no_down(g, gw, gh, sy, sy);
    lemma_row_count_zero(g, gw, sy, DIR_D, gw);
    lemma_direction_grid(image, w, h);
    lemma_index(gw, gh, sx, sy);
    let i = sx + sy * gw;
    assert(has_dir(g[i], DIR_U));
    assert(has_dir(dg[i], DIR_U));
    lemma_vertex_bits(dg, image, w, h, sx, sy);
    if has_dir(g[i], DIR_L) {
        assert(has_dir(dg[i], DIR_L));
    }
    if has_dir(g[i], DIR_R) {
        assert(has_dir(dg[i], DIR_R));
    }
    assert(c < 16 && c & 1 == 0 && c & 2 == 0 && c & 4 == 0 && c & 8 != 0 ==> c == 8) by (
    bit_vector);
}

pub open spec fn reverse(d: u8) -> u8 {
    if d == DIR_L {
        DIR_R
    } else if d == DIR_R {
        DIR_L
    } else if d == DIR_D {
        DIR_U
    } else {
        DIR_D
    }
}

/// No boundary edge of an occupancy grid is followed by the same edge
/// walked back: the two would keep the filled cell on opposite sides.
pub proof fn lemma_no_reverse(image: Seq<bool>, w: int, h: int, x: int, y: int, d: u8)
    requires
        w >= 0,
        h >= 0,
        is_dir(d),
        in_grid(w + 1, h + 1, x, y),
        in_grid(w + 1, h + 1, x + dx(d), y + dy(d)),
        has_dir(grid_mask(direction_grid(image, w, h), w + 1, x, y), d),
    ensures
        !has_dir(grid_mask(direction_grid(image, w, h), w + 1, x + dx(d), y + dy(d)), reverse(d)),
{
    let dg = direction_grid(image, w, h);
    lemma_direction_grid(image, w, h);
    lemma_vertex_bits(dg, image, w, h, x, y);
    lemma_vertex_bits(dg, image, w, h, x + dx(d), y + dy(d));
}

/// Number of sides of filled cell `(x, y)` that border an empty cell or the
/// outside of the grid.
pub open spec fn cell_sides(image: Seq<bool>, w: int, h: int, x: int, y: int) -> int {
    if filled(image, w, h, x, y) {
        bit_count(!filled(image, w, h, x - 1, y)) + bit_count(!filled(image, w, h, x + 1, y))
            + bit_count(!filled(image, w, h, x, y - 1)) + bit_count(!filled(image, w, h, x, y + 1))
    } else {
        0
    }
}

pub open spec fn cell_sides_fn(image: Seq<bool>, w: int, h: int) -> spec_fn(int, int) -> int {
    |x: int, y: int| cell_sides(image, w, h, x, y)
}

/// Number of grid-aligned transitions between filled and empty cells, the
/// outside counting as empty.
pub open spec fn transitions(image: Seq<bool>, w: int, h: int) -> int {
    rect_sum(cell_sides_fn(image, w, h), 0, w, 0, h)
}

/// The cells whose side facing `(ox, oy)` is a boundary side.
pub open spec fn side_fn(image: Seq<bool>, w: int, h: int, ox: int, oy: int) -> spec_fn(
    int,
    int,
) -> int {
    |x: int, y: int| bit_count(filled(image, w, h, x, y) && !filled(image, w, h, x + ox, y + oy))
}

/// The same, counted at the grid vertex where the side's edge starts, which
/// lies `(sx, sy)` from the cell.
pub open spec fn shifted_side_fn(
    image: Seq<bool>,
    w: int,
    h: int,
    ox: int,
    oy: int,
    sx: int,
    sy: int,
) -> spec_fn(int, int) -> int {
    |x: int, y: int|
        bit_count(
            filled(image, w, h, x - sx, y - sy) && !filled(image, w, h, x - sx + ox, y - sy + oy),
        )
}

pub open spec fn grid_edges_fn(g: Seq<u8>, gw: int) -> spec_fn(int, int) -> int {
    |x: int, y: int| edges_at(g[x + y * gw])
}

proof fn lemma_flat_prefix(g: Seq<u8>, gw: int, gh: int, y: int, x: int)
    requires
        gw >= 1,
        gh >= 0,
        g.len() == gw * gh,
        0 <= y,
        0 <= x <= gw,
        y * gw + x <= g.len(),
    ensures
        total_edges(g.take(y * gw + x)) == rect_sum(grid_edges_fn(g, gw), 0, gw, 0, y) + row_sum(
            grid_edges_fn(g, gw),
            y,
            0,
            x,
        ),
    decreases y, x,
{
    let f = grid_edges_fn(g, gw);
    if x > 0 {
        lemma_flat_prefix(g, gw, gh, y, x - 1);
        let n = y * gw + x;
        assert(g.take(n).drop_last() =~= g.take(n - 1));
        assert(g.take(n).last() == g[n - 1]);
        assert(total_edges(g.take(n)) == total_edges(g.take(n - 1)) + edges_at(g[n - 1]));
        assert(f(x - 1, y) == edges_at(g[n - 1]));
        assert(row_sum(f, y, 0, x) == row_sum(f, y, 0, x - 1) + f(x - 1, y));
    } else if y > 0 {
        assert(y * gw == (y - 1) * gw + gw) by (nonlinear_arith);
        lemma_flat_prefix(g, gw, gh, y - 1, gw);
        assert(row_sum(f, y, 0, 0) == 0);
        assert(rect_sum(f, 0, gw, 0, y) == rect_sum(f, 0, gw, 0, y - 1) + row_sum(f, y - 1, 0, gw));
    } else {
        assert(y * gw + x == 0) by (nonlinear_arith)
            requires
                y == 0,
                x == 0,
        ;
        assert(g.take(0) =~= Seq::<u8>::empty());
        assert(total_edges(g.take(0)) == 0);
        assert(row_sum(f, y, 0, 0) == 0);
        assert(rect_sum(f, 0, gw, 0, 0) == 0);
    }
}

proof fn lemma_side_shift(image: Seq<bool>, w: int, h: int, ox: int, oy: int, sx: int, sy: int)
    requires
        w >= 0,
        h >= 0,
        0 <= sx <= 1,
        0 <= sy <= 1,
    ensures
        rect_sum(shifted_side_fn(image, w, h, ox, oy, sx, sy), 0, w + 1, 0, h + 1) == rect_sum(
            side_fn(image, w, h, ox, oy),
            0,
            w,
            0,
            h,
        ),
{
    let f = side_fn(image, w, h, ox, oy);
    let g = shifted_side_fn(image, w, h, ox, oy, sx, sy);
    lemma_rect_shift(f, g, -sx, -sy, 0, w + 1, 0, h + 1);
    // now over [-sx, w + 1 - sx) x [-sy, h + 1 - sy)
    if sx == 1 {
        lemma_trim_first_col(f, -1, w, -sy, h + 1 - sy);
    } else {
        lemma_trim_last_col(f, 0, w + 1, -sy, h + 1 - sy);
    }
    if sy == 1 {
        lemma_trim_first_row(f, 0, w, -1, h);
    } else {
        lemma_trim_last_row(f, 0, w, 0, h + 1);
    }
}

/// The boundary edges of an occupancy grid are its transitions between
/// filled and empty cells.
pub proof fn lemma_boundary_edges_are_transitions(image: Seq<bool>, w: int, h: int)
    requires
        w >= 0,
        h >= 0,
    ensures
        boundary_edges(image, w, h) == transitions(image, w, h),
{
    let gw = w + 1;
    let gh = h + 1;
    let dg = direction_grid(image, w, h);
    let e = grid_edges_fn(dg, gw);
    assert(gh * gw == gw * gh) by (nonlinear_arith);
    lemma_flat_prefix(dg, gw, gh, gh, 0);
    assert(dg.take(gh * gw) =~= dg);
    // left, right, bottom and top sides, each counted where its edge starts
    let fu = shifted_side_fn(image, w, h, -1, 0, 0, 0);
    let fd = shifted_side_fn(image, w, h, 1, 0, 1, 1);
    let fl = shifted_side_fn(image, w, h, 0, -1, 1, 0);
    let fr = shifted_side_fn(image, w, h, 0, 1, 0, 1);
    let s1 = |x: int, y: int| fl(x, y) + fr(x, y);
    let s2 = |x: int, y: int| fd(x, y) + fu(x, y);
    lemma_direction_grid(image, w, h);
    assert forall|x: int, y: int| 0 <= x < gw && 0 <= y < gh implies #[trigger] e(x, y) == s1(
        x,
        y,
    ) + s2(x, y) by {
        lemma_vertex_bits(dg, image, w, h, x, y);
    }
    lemma_rect_add(s1, s2, e, 0, gw, 0, gh);
    lemma_rect_add(fl, fr, s1, 0, gw, 0, gh);
    lemma_rect_add(fd, fu, s2, 0, gw, 0, gh);
    lemma_side_shift(image, w, h, -1, 0, 0, 0);
    lemma_side_shift(image, w, h, 1, 0, 1, 1);
    lemma_side_shift(image, w, h, 0, -1, 1, 0);
    lemma_side_shift(image, w, h, 0, 1, 0, 1);
    let cl = side_fn(image, w, h, -1, 0);
    let cr = side_fn(image, w, h, 1, 0);
    let cb = side_fn(image, w, h, 0, -1);
    let ct = side_fn(image, w, h, 0, 1);
    let t1 = |x: int, y: int| cl(x, y) + cr(x, y);
    let t2 = |x: int, y: int| cb(x, y) + ct(x, y);
    let c = cell_sides_fn(image, w, h);
    assert forall|x: int, y: int| 0 <= x < w && 0 <= y < h implies #[trigger] c(x, y) == t1(x, y)
        + t2(x, y) by {}
    lemma_rect_add(t1, t2, c, 0, w, 0, h);
    lemma_rect_add(cl, cr, t1, 0, w, 0, h);
    lemma_rect_add(cb, ct, t2, 0, w, 0, h);
}

} // verus!
