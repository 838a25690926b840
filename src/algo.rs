//! Boundary tracing: from an occupancy grid to closed integer polygons.
use vstd::arithmetic::div_mod::lemma_fundamental_div_mod_converse;
use vstd::prelude::*;

use crate::edges::{
    at, balanced, direction_grid, dx, dy, edges_at, edges_within, filled, grid_mask, grid_valid,
    has_dir, in_degree, in_grid, is_dir, lemma_ambiguous, lemma_balanced_closed,
    lemma_boundary_edges_are_transitions, lemma_clear, lemma_direction_grid,
    lemma_direction_grid_balanced, lemma_index, lemma_no_edges, lemma_no_reverse, lemma_scan_done,
    lemma_scan_start, lemma_step, lemma_total_nonneg, out_degree, reverse, total_edges,
    traced_state, transitions, vertex_mask, DIR_D, DIR_L, DIR_R, DIR_U,
};
use crate::structs::TurnPolicy;
use crate::vec2::IVec2;

verus! {

#[inline(always)]
fn index(x: usize, y: usize, x_span: usize) -> (r: usize)
    requires
        x + y * x_span <= usize::MAX,
    ensures
        r == x + y * x_span,
{
    x + y * x_span
}

/// Cell `(x, y)` of the occupancy grid is filled; cells past the right or
/// top edge are not.
fn is_filled(image: &[bool], size: &[usize; 2], x: usize, y: usize) -> (r: bool)
    requires
        image@.len() == size[0] * size[1],
    ensures
        r == filled(image@, size[0] as int, size[1] as int, x as int, y as int),
{
    if x < size[0] && y < size[1] {
        let len = image.len();
        proof {
            lemma_index(size[0] as int, size[1] as int, x as int, y as int);
            assert(x + y * size[0] < len);
        }
        image[index(x, y, size[0])]
    } else {
        false
    }
}

/// The direction mask of grid vertex `(x, y)`.
fn vertex_mask_at(image: &[bool], size: &[usize; 2], x: usize, y: usize) -> (r: u8)
    requires
        image@.len() == size[0] * size[1],
    ensures
        r == vertex_mask(image@, size[0] as int, size[1] as int, x as int, y as int),
{
    let a = x > 0 && y > 0 && is_filled(image, size, x - 1, y - 1);
    let b = y > 0 && is_filled(image, size, x, y - 1);
    let c = x > 0 && is_filled(image, size, x - 1, y);
    let d = is_filled(image, size, x, y);
    ((if c && !a {
        DIR_L
    } else {
        0u8
    }) | (if b && !d {
        DIR_R
    } else {
        0u8
    })) | ((if a && !b {
        DIR_D
    } else {
        0u8
    }) | (if d && !c {
        DIR_U
    } else {
        0u8
    }))
}

/// Moves (x, y) one step in the given direction.
fn step_move(dir: u8, x: &mut i32, y: &mut i32)
    requires
        is_dir(dir),
        i32::MIN < *old(x) < i32::MAX,
        i32::MIN < *old(y) < i32::MAX,
    ensures
        *final(x) == *old(x) + dx(dir),
        *final(y) == *old(y) + dy(dir),
{
    if dir == DIR_L {
        *x -= 1;
    } else if dir == DIR_R {
        *x += 1;
    } else if dir == DIR_D {
        *y -= 1;
    } else {
        *y += 1;
    }
}

/// Takes the first of three directions whose bit is set in `cell`, moves
/// (x, y) that way and returns it.
fn step_first_match(cell: u8, d1: u8, d2: u8, d3: u8, x: &mut i32, y: &mut i32) -> (r: u8)
    requires
        is_dir(d1),
        is_dir(d2),
        is_dir(d3),
        has_dir(cell, d1) || has_dir(cell, d2) || has_dir(cell, d3),
        i32::MIN < *old(x) < i32::MAX,
        i32::MIN < *old(y) < i32::MAX,
    ensures
        r == if has_dir(cell, d1) {
            d1
        } else if has_dir(cell, d2) {
            d2
        } else {
            d3
        },
        *final(x) == *old(x) + dx(r),
        *final(y) == *old(y) + dy(r),
{
    if (cell & d1) != 0 {
        step_move(d1, x, y);
        d1
    } else if (cell & d2) != 0 {
        step_move(d2, x, y);
        d2
    } else {
        step_move(d3, x, y);
        d3
    }
}

pub open spec fn vote(b: bool) -> int {
    if b {
        1
    } else {
        -1
    }
}

/// The votes of the four cells at offset `a` along the sides of the square
/// ring of radius `i` around vertex `(x, y)`.
pub open spec fn ring_term(image: Seq<bool>, w: int, h: int, x: int, y: int, i: int, a: int) -> int {
    vote(filled(image, w, h, x + a, y + i - 1)) + vote(filled(image, w, h, x + i - 1, y + a - 1))
        + vote(filled(image, w, h, x + a - 1, y - i)) + vote(filled(image, w, h, x - i, y + a))
}

/// The votes of ring `i` for the offsets from `1 - i` up to, not including, `n`.
pub open spec fn ring_votes(image: Seq<bool>, w: int, h: int, x: int, y: int, i: int, n: int) -> int
    decreases n - (1 - i),
{
    if n <= 1 - i {
        0
    } else {
        ring_votes(image, w, h, x, y, i, n - 1) + ring_term(image, w, h, x, y, i, n - 1)
    }
}

/// The first of the rings `i`, ..., 4 whose vote is not tied decides; a tie
/// on all of them counts as not filled.
pub open spec fn majority_from(image: Seq<bool>, w: int, h: int, x: int, y: int, i: int) -> bool
    decreases 5 - i,
{
    if i >= 5 {
        false
    } else if ring_votes(image, w, h, x, y, i, i) > 0 {
        true
    } else if ring_votes(image, w, h, x, y, i, i) < 0 {
        false
    } else {
        majority_from(image, w, h, x, y, i + 1)
    }
}

/// Most of the neighbourhood of vertex `(x, y)` is filled.
pub open spec fn majority(image: Seq<bool>, w: int, h: int, x: int, y: int) -> bool {
    majority_from(image, w, h, x, y, 2)
}

fn xy_or(image: &[bool], size: &[usize; 2], x: i64, y: i64) -> (r: bool)
    requires
        image@.len() == size[0] * size[1],
    ensures
        r == filled(image@, size[0] as int, size[1] as int, x as int, y as int),
{
    if x >= 0 && y >= 0 && (x as u64) < (size[0] as u64) && (y as u64) < (size[1] as u64) {
        is_filled(image, size, x as usize, y as usize)
    } else {
        false
    }
}

fn vote_of(b: bool) -> (r: i64)
    ensures
        r == vote(b),
{
    if b {
        1
    } else {
        -1
    }
}

/// Checks whether the majority of the neighbourhood of vertex `(x, y)` is
/// filled, ring by ring outwards.
fn is_majority(image: &[bool], size: &[usize; 2], x: i32, y: i32) -> (r: bool)
    requires
        image@.len() == size[0] * size[1],
    ensures
        r == majority(image@, size[0] as int, size[1] as int, x as int, y as int),
{
    let ghost w = size[0] as int;
    let ghost h = size[1] as int;
    let xi = x as i64;
    let yi = y as i64;
    let mut i: i64 = 2;
    while i < 5
        invariant
            2 <= i <= 5,
            image@.len() == size[0] * size[1],
            w == size[0] as int,
            h == size[1] as int,
            xi == x,
            yi == y,
            majority(image@, w, h, x as int, y as int) == majority_from(
                image@,
                w,
                h,
                x as int,
                y as int,
                i as int,
            ),
            -2147483648 <= xi <= 2147483647,
            -2147483648 <= yi <= 2147483647,
        decreases 5 - i,
    {
        let mut ct: i64 = 0;
        let mut a: i64 = -i + 1;
        while a < i
            invariant
                2 <= i < 5,
                1 - i <= a <= i,
                image@.len() == size[0] * size[1],
                w == size[0] as int,
                h == size[1] as int,
                ct == ring_votes(image@, w, h, xi as int, yi as int, i as int, a as int),
                -4 * (a + i - 1) <= ct <= 4 * (a + i - 1),
                -2147483648 <= xi <= 2147483647,
                -2147483648 <= yi <= 2147483647,
            decreases i - a,
        {
            ct += vote_of(xy_or(image, size, xi + a, yi + i - 1));
            ct += vote_of(xy_or(image, size, xi + i - 1, yi + a - 1));
            ct += vote_of(xy_or(image, size, xi + a - 1, yi - i));
            ct += vote_of(xy_or(image, size, xi - i, yi + a));
            a += 1;
        }
        if ct > 0 {
            return true;
        } else if ct < 0 {
            return false;
        }
        i += 1;
    }
    false
}

/// `p` and `q` differ in exactly one coordinate: they are distinct points
/// of one horizontal or vertical line.
pub open spec fn axis_aligned(p: IVec2, q: IVec2) -> bool {
    (p.x == q.x && p.y != q.y) || (p.y == q.y && p.x != q.x)
}

/// `p` and `q` are neighbouring grid vertices.
pub open spec fn unit_apart(p: IVec2, q: IVec2) -> bool {
    (p.x == q.x && (p.y == q.y + 1 || q.y == p.y + 1)) || (p.y == q.y && (p.x == q.x + 1 || q.x
        == p.x + 1))
}

/// Consecutive outline points: one grid step apart, or, where collinear runs
/// are merged, on one axis-parallel line.
pub open spec fn linked(p: IVec2, q: IVec2, simplified: bool) -> bool {
    if simplified {
        axis_aligned(p, q)
    } else {
        unit_apart(p, q)
    }
}

/// A path of grid vertices of a `w` by `h` grid that begins at `start`,
/// does not come back to it, and goes on by linked steps.
pub open spec fn is_open_outline(
    poly: Seq<IVec2>,
    start: IVec2,
    w: int,
    h: int,
    simplified: bool,
) -> bool {
    &&& poly.len() >= 1
    &&& poly[0] == start
    &&& forall|i: int| 0 < i < poly.len() ==> #[trigger] poly[i] != start
    &&& forall|i: int|
        0 <= i < poly.len() ==> 0 <= #[trigger] poly[i].x <= w && 0 <= poly[i].y <= h
    &&& forall|i: int| 0 <= i < poly.len() - 1 ==> linked(#[trigger] poly[i], poly[i + 1], simplified)
}

/// An open outline whose last point links back to its first: walked
/// cyclically it returns to `start`, and meets it nowhere else.
pub open spec fn is_closed_outline(
    poly: Seq<IVec2>,
    start: IVec2,
    w: int,
    h: int,
    simplified: bool,
) -> bool {
    &&& is_open_outline(poly, start, w, h, simplified)
    &&& linked(poly.last(), poly[0], simplified)
}

/// The outline after the walk reaches `p`: where the last two points and
/// `p` lie on one axis-parallel line, `p` takes the last point's place.
pub open spec fn appended(poly: Seq<IVec2>, p: IVec2, simplified: bool) -> Seq<IVec2> {
    if simplified && poly.len() > 1 && ((p.x == poly[poly.len() - 2].x && p.x == poly.last().x) || (
    p.y == poly[poly.len() - 2].y && p.y == poly.last().y)) {
        poly.update(poly.len() - 1, p)
    } else {
        poly.push(p)
    }
}

fn append_point(poly: &mut Vec<IVec2>, x: i32, y: i32, use_simplify: bool)
    ensures
        final(poly)@ == appended(old(poly)@, IVec2 { x, y }, use_simplify),
{
    if use_simplify && poly.len() > 1 {
        let a: IVec2 = poly[poly.len() - 2];
        let b: IVec2 = poly[poly.len() - 1];
        if (x == a.x && x == b.x) || (y == a.y && y == b.y) {
            let last = poly.len() - 1;
            poly.set(last, IVec2 { x, y });
        } else {
            poly.push(IVec2 { x, y });
        }
    } else {
        poly.push(IVec2 { x, y });
    }
}

/// Appending a point other than the start keeps an open outline open.
proof fn lemma_append_open(
    poly: Seq<IVec2>,
    start: IVec2,
    w: int,
    h: int,
    simplified: bool,
    p: IVec2,
    in_dir: u8,
    d: u8,
)
    requires
        is_open_outline(poly, start, w, h, simplified),
        unit_apart(poly.last(), p),
        is_dir(d),
        is_dir(in_dir),
        moved(poly.last(), d, p),
        poly.len() >= 2 ==> run_along(poly[poly.len() - 2], poly.last(), in_dir) && d != reverse(
            in_dir,
        ),
        p != start,
        0 <= p.x <= w,
        0 <= p.y <= h,
    ensures
        is_open_outline(appended(poly, p, simplified), start, w, h, simplified),
        appended(poly, p, simplified).last() == p,
        !simplified ==> appended(poly, p, simplified).len() == poly.len() + 1,
{
    let q = appended(poly, p, simplified);
    assert forall|i: int| 0 <= i < q.len() - 1 implies linked(#[trigger] q[i], q[i + 1], simplified) by {
        if i + 1 < poly.len() - 1 || (i + 1 == poly.len() - 1 && q.len() > poly.len()) {
            assert(q[i] == poly[i] && q[i + 1] == poly[i + 1]);
        }
    }
}

/// Coming back to the start and dropping that closing point closes the
/// outline.
proof fn lemma_append_close(
    poly: Seq<IVec2>,
    start: IVec2,
    w: int,
    h: int,
    simplified: bool,
    in_dir: u8,
    d: u8,
)
    requires
        is_open_outline(poly, start, w, h, simplified),
        unit_apart(poly.last(), start),
        is_dir(d),
        is_dir(in_dir),
        moved(poly.last(), d, start),
        poly.len() >= 2 ==> run_along(poly[poly.len() - 2], poly.last(), in_dir) && d != reverse(
            in_dir,
        ),
    ensures
        is_closed_outline(appended(poly, start, simplified).drop_last(), start, w, h, simplified),
        !simplified ==> appended(poly, start, simplified).drop_last().len() == poly.len(),
{
    let q = appended(poly, start, simplified).drop_last();
    if simplified && poly.len() > 1 && ((start.x == poly[poly.len() - 2].x && start.x
        == poly.last().x) || (start.y == poly[poly.len() - 2].y && start.y == poly.last().y)) {
        assert(q =~= poly.drop_last());
    } else {
        assert(q =~= poly);
    }
}

pub open spec fn abs_diff(a: int, b: int) -> int {
    if a >= b {
        a - b
    } else {
        b - a
    }
}

/// The length of the axis-parallel segment, or taxicab distance, from `p` to `q`.
pub open spec fn step_len(p: IVec2, q: IVec2) -> int {
    abs_diff(p.x as int, q.x as int) + abs_diff(p.y as int, q.y as int)
}

/// The length of a path through the points in order.
pub open spec fn path_len(poly: Seq<IVec2>) -> int
    decreases poly.len(),
{
    if poly.len() < 2 {
        0
    } else {
        path_len(poly.drop_last()) + step_len(poly[poly.len() - 2], poly.last())
    }
}

/// The length of a polygon: its path closed back to the first point.
pub open spec fn perimeter(poly: Seq<IVec2>) -> int {
    path_len(poly) + step_len(poly.last(), poly[0])
}

/// The summed perimeters of a list of polygons.
pub open spec fn total_perimeter(polys: Seq<(bool, Vec<IVec2>)>) -> int
    decreases polys.len(),
{
    if polys.len() == 0 {
        0
    } else {
        total_perimeter(polys.drop_last()) + perimeter(polys.last().1@)
    }
}

/// `p` one grid step from `q` in direction `d`.
pub open spec fn moved(q: IVec2, d: u8, p: IVec2) -> bool {
    p.x == q.x + dx(d) && p.y == q.y + dy(d)
}

/// `b` lies one or more grid steps from `a` in direction `d`.
pub open spec fn run_along(a: IVec2, b: IVec2, d: u8) -> bool {
    &&& d == DIR_R ==> b.y == a.y && b.x > a.x
    &&& d == DIR_L ==> b.y == a.y && b.x < a.x
    &&& d == DIR_U ==> b.x == a.x && b.y > a.y
    &&& d == DIR_D ==> b.x == a.x && b.y < a.y
}

/// Appending the next point of the walk lengthens the path by one step and
/// leaves its last run heading the way the walk went.
proof fn lemma_append_len(poly: Seq<IVec2>, p: IVec2, simplified: bool, in_dir: u8, d: u8)
    requires
        poly.len() >= 1,
        is_dir(d),
        is_dir(in_dir),
        moved(poly.last(), d, p),
        poly.len() >= 2 ==> run_along(poly[poly.len() - 2], poly.last(), in_dir) && d != reverse(
            in_dir,
        ),
    ensures
        path_len(appended(poly, p, simplified)) == path_len(poly) + 1,
        appended(poly, p, simplified).len() >= 2,
        run_along(
            appended(poly, p, simplified)[appended(poly, p, simplified).len() - 2],
            appended(poly, p, simplified).last(),
            d,
        ),
{
    let q = appended(poly, p, simplified);
    if q.len() > poly.len() {
        assert(q.drop_last() =~= poly);
    } else {
        assert(q.drop_last() =~= poly.drop_last());
        assert(poly.drop_last().drop_last() =~= q.drop_last().drop_last());
        assert(path_len(poly) == path_len(poly.drop_last()) + step_len(
            poly[poly.len() - 2],
            poly.last(),
        ));
    }
}

/// Closing the walk at its start: the polygon's perimeter is the path so
/// far plus the last step.
proof fn lemma_close_len(poly: Seq<IVec2>, s: IVec2, simplified: bool, in_dir: u8, d: u8)
    requires
        poly.len() >= 1,
        poly[0] == s,
        is_dir(d),
        is_dir(in_dir),
        moved(poly.last(), d, s),
        poly.len() >= 2 ==> run_along(poly[poly.len() - 2], poly.last(), in_dir) && d != reverse(
            in_dir,
        ),
    ensures
        appended(poly, s, simplified).drop_last().len() >= 1,
        perimeter(appended(poly, s, simplified).drop_last()) == path_len(poly) + 1,
{
    let q = appended(poly, s, simplified);
    if q.len() > poly.len() {
        assert(q.drop_last() =~= poly);
    } else {
        assert(q.drop_last() =~= poly.drop_last());
        assert(path_len(poly) == path_len(poly.drop_last()) + step_len(
            poly[poly.len() - 2],
            poly.last(),
        ));
        if poly.len() == 2 {
            assert(poly[poly.len() - 2] == s);
        }
    }
}

/// The first of three directions whose bit is set in `cell`.
pub open spec fn first_set(cell: u8, d1: u8, d2: u8, d3: u8) -> u8 {
    if has_dir(cell, d1) {
        d1
    } else if has_dir(cell, d2) {
        d2
    } else {
        d3
    }
}

/// Whether the walk turns counter-clockwise at a junction at `(x, y)`.
pub open spec fn turns_ccw(policy: TurnPolicy, image: Seq<bool>, w: int, h: int, x: int, y: int) -> bool {
    match policy {
        TurnPolicy::Black => true,
        TurnPolicy::White => false,
        TurnPolicy::Majority => majority(image, w, h, x, y),
        TurnPolicy::Minority => !majority(image, w, h, x, y),
    }
}

/// The direction the walk leaves vertex `(x, y)` by, its mask being `cell`
/// and `prev_dir` the direction it came in by: the only way out where there
/// is one; at a junction, the turn policy picks the turn, and the candidates
/// are tried sharpest turn first, then straight on, then the other turn.
pub open spec fn next_dir(
    cell: u8,
    prev_dir: u8,
    policy: TurnPolicy,
    image: Seq<bool>,
    w: int,
    h: int,
    x: int,
    y: int,
) -> u8 {
    if cell == DIR_L || cell == DIR_R || cell == DIR_D || cell == DIR_U {
        cell
    } else if !turns_ccw(policy, image, w, h, x, y) {
        if prev_dir == DIR_L {
            first_set(cell, DIR_D, DIR_L, DIR_U)
        } else if prev_dir == DIR_U {
            first_set(cell, DIR_L, DIR_U, DIR_R)
        } else if prev_dir == DIR_R {
            first_set(cell, DIR_U, DIR_R, DIR_D)
        } else {
            first_set(cell, DIR_R, DIR_D, DIR_L)
        }
    } else {
        if prev_dir == DIR_L {
            first_set(cell, DIR_U, DIR_L, DIR_D)
        } else if prev_dir == DIR_U {
            first_set(cell, DIR_R, DIR_U, DIR_L)
        } else if prev_dir == DIR_R {
            first_set(cell, DIR_D, DIR_R, DIR_U)
        } else {
            first_set(cell, DIR_L, DIR_D, DIR_R)
        }
    }
}

/// The direction of the grid step from `p` to its neighbour `q`.
pub open spec fn dir_between(p: IVec2, q: IVec2) -> u8 {
    if q.x == p.x - 1 {
        DIR_L
    } else if q.x == p.x + 1 {
        DIR_R
    } else if q.y == p.y - 1 {
        DIR_D
    } else {
        DIR_U
    }
}

/// The boundary edge from vertex `p` to its neighbour `q` is set in `g`.
pub open spec fn edge_in(g: Seq<u8>, gw: int, p: IVec2, q: IVec2) -> bool {
    has_dir(grid_mask(g, gw, p.x as int, p.y as int), dir_between(p, q))
}

/// The point after `poly[i]`, or `end` after the last one.
pub open spec fn next_point_or(poly: Seq<IVec2>, i: int, end: IVec2) -> IVec2 {
    if i + 1 < poly.len() {
        poly[i + 1]
    } else {
        end
    }
}

/// Step `i` of a polygon, from `poly[i]` to the next point cyclically.
pub open spec fn step_of(poly: Seq<IVec2>, i: int) -> (IVec2, IVec2) {
    (poly[i], next_point_or(poly, i, poly[0]))
}

/// Picks the direction to leave a vertex with mask `cell` by, moves
/// (x, y) that way and returns it. A vertex with one way out leaves by it;
/// where two boundaries touch, the turn policy decides, and the direction
/// the walk came in by orders the candidates.
fn step_from_cell(
    cell: u8,
    prev_dir: u8,
    turn_policy: TurnPolicy,
    image: &[bool],
    size: &[usize; 2],
    x: &mut i32,
    y: &mut i32,
) -> (r: u8)
    requires
        image@.len() == size[0] * size[1],
        cell < 16,
        cell != 0,
        is_dir(prev_dir),
        i32::MIN < *old(x) < i32::MAX,
        i32::MIN < *old(y) < i32::MAX,
    ensures
        is_dir(r),
        has_dir(cell, r),
        r == next_dir(
            cell,
            prev_dir,
            turn_policy,
            image@,
            size[0] as int,
            size[1] as int,
            *old(x) as int,
            *old(y) as int,
        ),
        *final(x) == *old(x) + dx(r),
        *final(y) == *old(y) + dy(r),
{
    proof {
        lemma_no_edges(cell);
    }
    if cell == DIR_L || cell == DIR_R || cell == DIR_D || cell == DIR_U {
        step_move(cell, x, y);
        cell
    } else {
        proof {
            lemma_ambiguous(cell);
        }
        let turn_ccw = match turn_policy {
            TurnPolicy::Black => true,
            TurnPolicy::White => false,
            TurnPolicy::Majority => is_majority(image, size, *x, *y),
            TurnPolicy::Minority => !is_majority(image, size, *x, *y),
        };
        if !turn_ccw {
            if prev_dir == DIR_L {
                step_first_match(cell, DIR_D, DIR_L, DIR_U, x, y)
            } else if prev_dir == DIR_U {
                step_first_match(cell, DIR_L, DIR_U, DIR_R, x, y)
            } else if prev_dir == DIR_R {
                step_first_match(cell, DIR_U, DIR_R, DIR_D, x, y)
            } else {
                step_first_match(cell, DIR_R, DIR_D, DIR_L, x, y)
            }
        } else {
            if prev_dir == DIR_L {
                step_first_match(cell, DIR_U, DIR_L, DIR_D, x, y)
            } else if prev_dir == DIR_U {
                step_first_match(cell, DIR_R, DIR_U, DIR_L, x, y)
            } else if prev_dir == DIR_R {
                step_first_match(cell, DIR_D, DIR_R, DIR_U, x, y)
            } else {
                step_first_match(cell, DIR_L, DIR_D, DIR_R, x, y)
            }
        }
    }
}

/// The walk from `(x, y)` on grid `g`, having come in by `prev_dir` after
/// `handled` edges and built `poly` so far: the point is appended; back at
/// `start` the closing point is dropped and the walk ends; otherwise it
/// leaves by `next_dir`, clearing that edge. Returns the polygon, the grid
/// left, and the number of edges walked. `fuel` bounds the steps.
pub open spec fn walk(
    fuel: nat,
    g: Seq<u8>,
    image: Seq<bool>,
    w: int,
    h: int,
    policy: TurnPolicy,
    simplified: bool,
    start: IVec2,
    x: int,
    y: int,
    prev_dir: u8,
    handled: nat,
    poly: Seq<IVec2>,
) -> (Seq<IVec2>, Seq<u8>, nat)
    decreases fuel,
{
    let poly1 = appended(poly, IVec2 { x: x as i32, y: y as i32 }, simplified);
    if handled != 0 && x == start.x && y == start.y {
        (poly1.drop_last(), g, handled)
    } else if fuel == 0 {
        (poly1, g, handled)
    } else {
        let c = grid_mask(g, w + 1, x, y);
        let d = next_dir(c, prev_dir, policy, image, w, h, x, y);
        walk(
            (fuel - 1) as nat,
            g.update(x + y * (w + 1), c & !d),
            image,
            w,
            h,
            policy,
            simplified,
            start,
            x + dx(d),
            y + dy(d),
            d,
            handled + 1,
            poly1,
        )
    }
}

proof fn lemma_walk_close(
    fuel: nat,
    g: Seq<u8>,
    image: Seq<bool>,
    w: int,
    h: int,
    policy: TurnPolicy,
    simplified: bool,
    start: IVec2,
    prev_dir: u8,
    handled: nat,
    poly: Seq<IVec2>,
)
    requires
        handled != 0,
    ensures
        walk(
            fuel,
            g,
            image,
            w,
            h,
            policy,
            simplified,
            start,
            start.x as int,
            start.y as int,
            prev_dir,
            handled,
            poly,
        ) == (appended(poly, start, simplified).drop_last(), g, handled),
{
}

proof fn lemma_walk_step(
    fuel: nat,
    g: Seq<u8>,
    image: Seq<bool>,
    w: int,
    h: int,
    policy: TurnPolicy,
    simplified: bool,
    start: IVec2,
    x: int,
    y: int,
    prev_dir: u8,
    handled: nat,
    poly: Seq<IVec2>,
    d: u8,
)
    requires
        fuel >= 1,
        handled == 0 || x != start.x || y != start.y,
        d == next_dir(grid_mask(g, w + 1, x, y), prev_dir, policy, image, w, h, x, y),
    ensures
        walk(fuel, g, image, w, h, policy, simplified, start, x, y, prev_dir, handled, poly)
            == walk(
            (fuel - 1) as nat,
            g.update(x + y * (w + 1), grid_mask(g, w + 1, x, y) & !d),
            image,
            w,
            h,
            policy,
            simplified,
            start,
            x + dx(d),
            y + dy(d),
            d,
            handled + 1,
            appended(poly, IVec2 { x: x as i32, y: y as i32 }, simplified),
        ),
{
}

/// The walk that the tracer starts from `(x, y)`, leftwards.
pub open spec fn walk_from(
    g: Seq<u8>,
    image: Seq<bool>,
    w: int,
    h: int,
    policy: TurnPolicy,
    simplified: bool,
    x: int,
    y: int,
) -> (Seq<IVec2>, Seq<u8>, nat) {
    walk(
        (total_edges(g) + 1) as nat,
        g,
        image,
        w,
        h,
        policy,
        simplified,
        IVec2 { x: x as i32, y: y as i32 },
        x,
        y,
        DIR_L,
        0,
        seq![],
    )
}

/// Follows one boundary from `(x_init, y_init)` until it comes back there,
/// clearing each edge it walks. Returns the polygon and the number of edges
/// walked.
#[verifier::rlimit(60)]
fn poly_from_direction_mask(
    pimage: &mut Vec<u8>,
    x_init: i32,
    y_init: i32,
    image: &[bool],
    size: &[usize; 2],
    turn_policy: TurnPolicy,
    use_simplify: bool,
    initial_dir: u8,
) -> (r: (Vec<IVec2>, usize))
    requires
        image@.len() == size[0] * size[1],
        size[0] < i32::MAX,
        size[1] < i32::MAX,
        grid_valid(old(pimage)@, size[0] + 1, size[1] + 1),
        balanced(
            old(pimage)@,
            size[0] + 1,
            size[1] + 1,
            (x_init as int, y_init as int),
            (x_init as int, y_init as int),
        ),
        in_grid(size[0] + 1, size[1] + 1, x_init as int, y_init as int),
        grid_mask(old(pimage)@, size[0] + 1, x_init as int, y_init as int) != 0,
        is_dir(initial_dir),
        total_edges(old(pimage)@) <= usize::MAX,
        edges_within(old(pimage)@, direction_grid(image@, size[0] as int, size[1] as int)),
    ensures
        grid_valid(final(pimage)@, size[0] + 1, size[1] + 1),
        balanced(
            final(pimage)@,
            size[0] + 1,
            size[1] + 1,
            (x_init as int, y_init as int),
            (x_init as int, y_init as int),
        ),
        edges_within(final(pimage)@, old(pimage)@),
        total_edges(final(pimage)@) == total_edges(old(pimage)@) - r.1,
        r.1 >= 1,
        is_closed_outline(
            r.0@,
            IVec2 { x: x_init, y: y_init },
            size[0] as int,
            size[1] as int,
            use_simplify,
        ),
        !use_simplify ==> r.0@.len() == r.1,
        perimeter(r.0@) == r.1,
        r.1 >= 4,
        r.1 % 2 == 0,
        r.0@.len() >= 2,
        !use_simplify ==> forall|i: int|
            0 <= i < r.0@.len() ==> edge_in(
                old(pimage)@,
                size[0] + 1,
                (#[trigger] step_of(r.0@, i)).0,
                step_of(r.0@, i).1,
            )
                && !edge_in(final(pimage)@, size[0] + 1, step_of(r.0@, i).0, step_of(r.0@, i).1),
        !use_simplify ==> forall|i: int, j: int|
            0 <= i < j < r.0@.len() ==> #[trigger] step_of(r.0@, i) != #[trigger] step_of(r.0@, j),
        initial_dir == DIR_L ==> (r.0@, final(pimage)@, r.1 as nat) == walk_from(
            old(pimage)@,
            image@,
            size[0] as int,
            size[1] as int,
            turn_policy,
            use_simplify,
            x_init as int,
            y_init as int,
        ),
        grid_mask(old(pimage)@, size[0] + 1, x_init as int, y_init as int) == DIR_U ==> !has_dir(
            grid_mask(final(pimage)@, size[0] + 1, x_init as int, y_init as int),
            DIR_U,
        ),
{
    let ghost g0 = pimage@;
    let ghost gw = size[0] + 1;
    let ghost gh = size[1] + 1;
    let ghost s = (x_init as int, y_init as int);
    let ghost start = IVec2 { x: x_init, y: y_init };
    let x_span = size[0] + 1;
    let plen = pimage.len();
    let mut poly: Vec<IVec2> = Vec::new();
    let mut x = x_init;
    let mut y = y_init;
    let mut prev_dir = initial_dir;
    let mut handled: usize = 0;
    let ghost dg = direction_grid(image@, size[0] as int, size[1] as int);
    let ghost mut in_dir: u8 = DIR_U;
    let ghost model = walk(
        (total_edges(g0) + 1) as nat,
        g0,
        image@,
        size[0] as int,
        size[1] as int,
        turn_policy,
        use_simplify,
        start,
        x_init as int,
        y_init as int,
        initial_dir,
        0,
        seq![],
    );
    proof {
        lemma_total_nonneg(g0);
    }
    loop
        invariant_except_break
            handled > 0 ==> path_len(poly@) + 1 == handled && moved(
                poly@.last(),
                prev_dir,
                IVec2 { x, y },
            ) && has_dir(grid_mask(dg, gw, poly@.last().x as int, poly@.last().y as int), prev_dir),
            handled > 0 && poly@.len() >= 2 ==> run_along(
                poly@[poly@.len() - 2],
                poly@.last(),
                in_dir,
            ) && prev_dir != reverse(in_dir),
            handled > 0 ==> is_open_outline(poly@, start, gw - 1, gh - 1, use_simplify)
                && unit_apart(poly@.last(), IVec2 { x, y }),
            !use_simplify ==> poly@.len() == handled,
            !use_simplify && handled > 0 ==> forall|i: int|
                0 <= i < poly@.len() ==> edge_in(
                    g0,
                    gw,
                    #[trigger] poly@[i],
                    next_point_or(poly@, i, IVec2 { x, y }),
                )
                    && !edge_in(pimage@, gw, poly@[i], next_point_or(poly@, i, IVec2 { x, y })),
            !use_simplify && handled > 0 ==> forall|i: int, j: int|
                0 <= i < j < poly@.len() ==> (
                    #[trigger] poly@[i],
                    next_point_or(poly@, i, IVec2 { x, y }),
                )
                    != (#[trigger] poly@[j], next_point_or(poly@, j, IVec2 { x, y })),
            model == walk(
                (total_edges(pimage@) + 1) as nat,
                pimage@,
                image@,
                gw - 1,
                gh - 1,
                turn_policy,
                use_simplify,
                start,
                x as int,
                y as int,
                prev_dir,
                handled as nat,
                poly@,
            ),
        invariant
            image@.len() == size[0] * size[1],
            size[0] < i32::MAX,
            size[1] < i32::MAX,
            gw == size[0] + 1,
            gh == size[1] + 1,
            x_span == gw,
            s == (x_init as int, y_init as int),
            start == (IVec2 { x: x_init, y: y_init }),
            pimage@.len() == plen,
            grid_valid(pimage@, gw, gh),
            balanced(pimage@, gw, gh, (x as int, y as int), s),
            in_grid(gw, gh, x as int, y as int),
            edges_within(pimage@, g0),
            total_edges(pimage@) == total_edges(g0) - handled,
            total_edges(g0) <= usize::MAX,
            is_dir(prev_dir),
            handled == 0 ==> poly@.len() == 0 && pimage@ == g0 && x == x_init && y == y_init,
            handled == 0 ==> grid_mask(g0, gw, x_init as int, y_init as int) != 0,
            handled > 0 && grid_mask(g0, gw, x_init as int, y_init as int) == DIR_U ==> !has_dir(
                grid_mask(pimage@, gw, x_init as int, y_init as int),
                DIR_U,
            ),
            dg == direction_grid(image@, gw - 1, gh - 1),
            edges_within(pimage@, dg),
            is_dir(in_dir),
            total_edges(pimage@) >= 0,
            (x + y + handled - x_init - y_init) % 2 == 0,
            handled == 1 ==> x == x_init + dx(prev_dir) && y == y_init + dy(prev_dir),
            handled == 2 ==> x != x_init || y != y_init,
        ensures
            handled >= 4,
            handled % 2 == 0,
            poly@.len() >= 2,
            !use_simplify ==> forall|i: int|
                0 <= i < poly@.len() ==> edge_in(
                    g0,
                    gw,
                    (#[trigger] step_of(poly@, i)).0,
                    step_of(poly@, i).1,
                )
                    && !edge_in(pimage@, gw, step_of(poly@, i).0, step_of(poly@, i).1),
            !use_simplify ==> forall|i: int, j: int|
                0 <= i < j < poly@.len() ==> #[trigger] step_of(poly@, i) != #[trigger] step_of(
                    poly@,
                    j,
                ),
            (poly@, pimage@, handled as nat) == model,
            perimeter(poly@) == handled,
            grid_valid(pimage@, gw, gh),
            balanced(pimage@, gw, gh, s, s),
            edges_within(pimage@, g0),
            total_edges(pimage@) == total_edges(g0) - handled,
            handled >= 1,
            is_closed_outline(poly@, start, gw - 1, gh - 1, use_simplify),
            !use_simplify ==> poly@.len() == handled,
            grid_mask(g0, gw, x_init as int, y_init as int) == DIR_U ==> !has_dir(
                grid_mask(pimage@, gw, x_init as int, y_init as int),
                DIR_U,
            ),
        decreases total_edges(pimage@),
    {
        let ghost prev_pos = poly@.last();
        let ghost poly_before = poly@;
        proof {
            if handled > 0 && (x != x_init || y != y_init) {
                lemma_append_open(
                    poly@,
                    start,
                    gw - 1,
                    gh - 1,
                    use_simplify,
                    IVec2 { x, y },
                    in_dir,
                    prev_dir,
                );
                lemma_append_len(poly@, IVec2 { x, y }, use_simplify, in_dir, prev_dir);
            } else if handled > 0 {
                lemma_append_close(poly@, start, gw - 1, gh - 1, use_simplify, in_dir, prev_dir);
                lemma_close_len(poly@, start, use_simplify, in_dir, prev_dir);
            }
        }
        append_point(&mut poly, x, y, use_simplify);

        // End the loop when we return to the starting point.
        if handled != 0 && x == x_init && y == y_init {
            proof {
                lemma_walk_close(
                    (total_edges(pimage@) + 1) as nat,
                    pimage@,
                    image@,
                    gw - 1,
                    gh - 1,
                    turn_policy,
                    use_simplify,
                    start,
                    prev_dir,
                    handled as nat,
                    poly_before,
                );
            }
            poly.pop();
            proof {
                if !use_simplify {
                    assert(poly@ =~= poly_before);
                    assert forall|i: int| 0 <= i < poly@.len() implies #[trigger] step_of(poly@, i)
                        == (poly@[i], next_point_or(poly@, i, IVec2 { x, y })) by {}
                }
            }
            break;
        }
        proof {
            lemma_index(gw, gh, x as int, y as int);
        }
        let cell_index = index(x as usize, y as usize, x_span);
        let cell = pimage[cell_index];
        proof {
            let cur = (x as int, y as int);
            assert(cell == grid_mask(pimage@, gw, x as int, y as int));
            assert(out_degree(pimage@, gw, x as int, y as int) - in_degree(
                pimage@,
                gw,
                gh,
                x as int,
                y as int,
            ) == at(x as int, y as int, cur) - at(x as int, y as int, s));
            lemma_no_edges(cell);
        }
        let next_dir = step_from_cell(cell, prev_dir, turn_policy, image, size, &mut x, &mut y);
        proof {
            assert(has_dir(pimage@[cell_index as int], next_dir));
            assert(has_dir(dg[cell_index as int], next_dir));
            if handled > 0 {
                lemma_index(gw, gh, prev_pos.x as int, prev_pos.y as int);
                lemma_no_reverse(
                    image@,
                    gw - 1,
                    gh - 1,
                    prev_pos.x as int,
                    prev_pos.y as int,
                    prev_dir,
                );
                assert(next_dir != reverse(prev_dir));
            }
        }
        let ghost before = pimage@;
        proof {
            lemma_walk_step(
                (total_edges(pimage@) + 1) as nat,
                pimage@,
                image@,
                gw - 1,
                gh - 1,
                turn_policy,
                use_simplify,
                start,
                x - dx(next_dir),
                y - dy(next_dir),
                prev_dir,
                handled as nat,
                poly_before,
                next_dir,
            );
            lemma_step(pimage@, gw, gh, (x - dx(next_dir), y - dy(next_dir)), s, next_dir);
            lemma_total_nonneg(pimage@.update(cell_index as int, cell & !next_dir));
            lemma_clear(cell, next_dir);
            assert(8u8 & 1u8 == 0 && 8u8 & 2u8 == 0 && 8u8 & 4u8 == 0) by (bit_vector);
        }
        pimage.set(cell_index, cell & !next_dir);
        proof {
            in_dir = prev_dir;
            assert forall|i: int, d: u8|
                0 <= i < pimage@.len() && #[trigger] has_dir(pimage@[i], d) implies has_dir(
                dg[i],
                d,
            ) by {
                assert(has_dir(before[i], d));
            }
            lemma_index(gw, gh, x_init as int, y_init as int);
            let si = x_init + y_init * gw;
            if has_dir(pimage@[si], DIR_U) {
                assert(has_dir(before[si], DIR_U));
            }
        }
        proof {
            if !use_simplify {
                let c = IVec2 { x: (x - dx(next_dir)) as i32, y: (y - dy(next_dir)) as i32 };
                let nc = IVec2 { x, y };
                assert(poly@ == poly_before.push(c));
                assert(dir_between(c, nc) == next_dir);
                lemma_index(gw, gh, c.x as int, c.y as int);
                assert(edge_in(before, gw, c, nc));
                assert forall|i: int| 0 <= i < poly@.len() implies edge_in(
                    g0,
                    gw,
                    #[trigger] poly@[i],
                    next_point_or(poly@, i, nc),
                ) && !edge_in(pimage@, gw, poly@[i], next_point_or(poly@, i, nc)) by {
                    let q = next_point_or(poly@, i, nc);
                    lemma_index(gw, gh, poly@[i].x as int, poly@[i].y as int);
                    let k = poly@[i].x + poly@[i].y * gw;
                    if i + 1 < poly@.len() {
                        assert(q == next_point_or(poly_before, i, c));
                        assert(edge_in(g0, gw, poly_before[i], q));
                        assert(!edge_in(before, gw, poly_before[i], q));
                    }
                    if has_dir(pimage@[k], dir_between(poly@[i], q)) {
                        assert(has_dir(before[k], dir_between(poly@[i], q)));
                    }
                    if has_dir(before[k], dir_between(poly@[i], q)) {
                        assert(has_dir(g0[k], dir_between(poly@[i], q)));
                    }
                }
                assert forall|i: int, j: int| 0 <= i < j < poly@.len() implies (
                #[trigger] poly@[i], next_point_or(poly@, i, nc)) != (#[trigger] poly@[j],
                next_point_or(poly@, j, nc)) by {
                    if j + 1 < poly@.len() {
                        assert(next_point_or(poly@, i, nc) == next_point_or(poly_before, i, c));
                        assert(next_point_or(poly@, j, nc) == next_point_or(poly_before, j, c));
                    } else {
                        assert(next_point_or(poly@, i, nc) == next_point_or(poly_before, i, c));
                        assert(!edge_in(before, gw, poly_before[i], next_point_or(poly_before, i, c)));
                    }
                }
            }
        }
        prev_dir = next_dir;
        handled += 1;
    }
    (poly, handled)
}

/// Number of points over all polygons of a list.
pub open spec fn total_points(polys: Seq<(bool, Vec<IVec2>)>) -> int
    decreases polys.len(),
{
    if polys.len() == 0 {
        0
    } else {
        total_points(polys.drop_last()) + polys.last().1@.len()
    }
}

/// Number of boundary edges leaving a vertex with mask `m`.
fn edge_count(m: u8) -> (r: usize)
    ensures
        r == edges_at(m),
        r <= 4,
{
    let mut r: usize = 0;
    if m & DIR_L != 0 {
        r += 1;
    }
    if m & DIR_R != 0 {
        r += 1;
    }
    if m & DIR_D != 0 {
        r += 1;
    }
    if m & DIR_U != 0 {
        r += 1;
    }
    r
}

/// Builds the direction grid of an occupancy grid and counts its edges.
fn build_direction_grid(image: &[bool], size: &[usize; 2]) -> (r: (Vec<u8>, usize))
    requires
        image@.len() == size[0] * size[1],
        size[0] < i32::MAX,
        size[1] < i32::MAX,
        (size[0] + 1) * (size[1] + 1) * 4 <= usize::MAX,
    ensures
        r.0@ == direction_grid(image@, size[0] as int, size[1] as int),
        r.1 == total_edges(r.0@),
        r.1 <= 4 * r.0@.len(),
{
    let ghost w = size[0] as int;
    let ghost h = size[1] as int;
    let ghost dg = direction_grid(image@, w, h);
    let x_span = size[0] + 1;
    let y_span = size[1] + 1;
    let mut pimage: Vec<u8> = Vec::new();
    let mut steps_total: usize = 0;
    let mut y: usize = 0;
    while y < y_span
        invariant
            image@.len() == size[0] * size[1],
            (size[0] + 1) * (size[1] + 1) * 4 <= usize::MAX,
            x_span == w + 1,
            y_span == h + 1,
            w == size[0],
            h == size[1],
            dg == direction_grid(image@, w, h),
            0 <= y <= y_span,
            pimage@.len() == y * x_span,
            forall|k: int| 0 <= k < pimage@.len() ==> pimage@[k] == dg[k],
            steps_total == total_edges(pimage@),
            steps_total <= 4 * pimage@.len(),
        decreases y_span - y,
    {
        let mut x: usize = 0;
        while x < x_span
            invariant
                image@.len() == size[0] * size[1],
                (size[0] + 1) * (size[1] + 1) * 4 <= usize::MAX,
                x_span == w + 1,
                y_span == h + 1,
                w == size[0],
                h == size[1],
                dg == direction_grid(image@, w, h),
                0 <= y < y_span,
                0 <= x <= x_span,
                pimage@.len() == y * x_span + x,
                forall|k: int| 0 <= k < pimage@.len() ==> pimage@[k] == dg[k],
                steps_total == total_edges(pimage@),
                steps_total <= 4 * pimage@.len(),
            decreases x_span - x,
        {
            proof {
                lemma_index(w + 1, h + 1, x as int, y as int);
                lemma_fundamental_div_mod_converse(x + y * (w + 1), w + 1, y as int, x as int);
                assert(x + y * x_span + 1 <= x_span * y_span);
            }
            let m = vertex_mask_at(image, size, x, y);
            let ghost before = pimage@;
            pimage.push(m);
            proof {
                assert(pimage@.drop_last() == before);
            }
            steps_total += edge_count(m);
            x += 1;
        }
        proof {
            assert((y + 1) * x_span == y * x_span + x_span) by (nonlinear_arith);
        }
        y += 1;
    }
    proof {
        assert(y_span * x_span == (w + 1) * (h + 1)) by (nonlinear_arith)
            requires
                x_span == w + 1,
                y_span == h + 1,
        ;
        assert(pimage@ =~= dg);
    }
    (pimage, steps_total)
}

/// Every step of every polygon is an edge set in `g`, in its direction.
pub open spec fn steps_on_edges(polys: Seq<(bool, Vec<IVec2>)>, g: Seq<u8>, gw: int) -> bool {
    forall|k: int, i: int|
        0 <= k < polys.len() && 0 <= i < polys[k].1@.len() ==> edge_in(
            g,
            gw,
            (#[trigger] step_of(polys[k].1@, i)).0,
            step_of(polys[k].1@, i).1,
        )
}

/// No step of any polygon is an edge still set in `g`.
pub open spec fn steps_cleared(polys: Seq<(bool, Vec<IVec2>)>, g: Seq<u8>, gw: int) -> bool {
    forall|k: int, i: int|
        0 <= k < polys.len() && 0 <= i < polys[k].1@.len() ==> !edge_in(
            g,
            gw,
            (#[trigger] step_of(polys[k].1@, i)).0,
            step_of(polys[k].1@, i).1,
        )
}

/// No step is taken twice over the whole list of polygons.
pub open spec fn steps_distinct(polys: Seq<(bool, Vec<IVec2>)>) -> bool {
    forall|k1: int, i1: int, k2: int, i2: int|
        0 <= k1 < polys.len() && 0 <= i1 < polys[k1].1@.len() && 0 <= k2 < polys.len() && 0 <= i2
            < polys[k2].1@.len() && (k1 != k2 || i1 != i2) ==> #[trigger] step_of(polys[k1].1@, i1)
            != #[trigger] step_of(polys[k2].1@, i2)
}

/// Adding a walk whose steps were set before it and cleared by it keeps the
/// steps of the list on edges, cleared and distinct.
proof fn lemma_steps_push(
    polys: Seq<(bool, Vec<IVec2>)>,
    e: (bool, Vec<IVec2>),
    g0: Seq<u8>,
    before: Seq<u8>,
    after: Seq<u8>,
    gw: int,
    gh: int,
)
    requires
        steps_on_edges(polys, g0, gw),
        steps_cleared(polys, before, gw),
        steps_distinct(polys),
        edges_within(before, g0),
        edges_within(after, before),
        before.len() == g0.len(),
        forall|i: int|
            0 <= i < e.1@.len() ==> edge_in(
                before,
                gw,
                (#[trigger] step_of(e.1@, i)).0,
                step_of(e.1@, i).1,
            )
                && !edge_in(after, gw, step_of(e.1@, i).0, step_of(e.1@, i).1),
        forall|i: int, j: int|
            0 <= i < j < e.1@.len() ==> #[trigger] step_of(e.1@, i) != #[trigger] step_of(e.1@, j),
        before.len() == gw * gh,
        forall|k: int, i: int|
            0 <= k < polys.len() && 0 <= i < polys[k].1@.len() ==> in_grid(
                gw,
                gh,
                (#[trigger] polys[k].1@[i]).x as int,
                polys[k].1@[i].y as int,
            ),
        forall|i: int|
            0 <= i < e.1@.len() ==> in_grid(gw, gh, (#[trigger] e.1@[i]).x as int, e.1@[i].y as int),
    ensures
        steps_on_edges(polys.push(e), g0, gw),
        steps_cleared(polys.push(e), after, gw),
        steps_distinct(polys.push(e)),
{
    let l = polys.push(e);
    let n = polys.len() as int;
    assert forall|k: int, i: int| 0 <= k < l.len() && 0 <= i < l[k].1@.len() implies edge_in(
        g0,
        gw,
        (#[trigger] step_of(l[k].1@, i)).0,
        step_of(l[k].1@, i).1,
    ) && !edge_in(after, gw, step_of(l[k].1@, i).0, step_of(l[k].1@, i).1) by {
        let st = step_of(l[k].1@, i);
        let idx = st.0.x + st.0.y * gw;
        if k < n {
            assert(st.0 == polys[k].1@[i]);
        } else {
            assert(st.0 == e.1@[i]);
        }
        lemma_index(gw, gh, st.0.x as int, st.0.y as int);
        let d = dir_between(st.0, st.1);
        if k < n {
            assert(l[k] == polys[k]);
            assert(edge_in(g0, gw, step_of(polys[k].1@, i).0, step_of(polys[k].1@, i).1));
            assert(!edge_in(before, gw, step_of(polys[k].1@, i).0, step_of(polys[k].1@, i).1));
        } else {
            assert(edge_in(before, gw, step_of(e.1@, i).0, step_of(e.1@, i).1));
            assert(has_dir(before[idx], d));
        }
        if has_dir(after[idx], d) {
            assert(has_dir(before[idx], d));
        }
    }
    assert forall|k1: int, i1: int, k2: int, i2: int|
        0 <= k1 < l.len() && 0 <= i1 < l[k1].1@.len() && 0 <= k2 < l.len() && 0 <= i2
            < l[k2].1@.len() && (k1 != k2 || i1 != i2) implies #[trigger] step_of(l[k1].1@, i1)
            != #[trigger] step_of(l[k2].1@, i2) by {
        if k1 < n && k2 < n {
            assert(l[k1] == polys[k1] && l[k2] == polys[k2]);
        } else if k1 < n {
            assert(l[k1] == polys[k1]);
            assert(!edge_in(before, gw, step_of(polys[k1].1@, i1).0, step_of(polys[k1].1@, i1).1));
            assert(edge_in(before, gw, step_of(e.1@, i2).0, step_of(e.1@, i2).1));
        } else if k2 < n {
            assert(l[k2] == polys[k2]);
            assert(!edge_in(before, gw, step_of(polys[k2].1@, i2).0, step_of(polys[k2].1@, i2).1));
            assert(edge_in(before, gw, step_of(e.1@, i1).0, step_of(e.1@, i1).1));
        } else if i1 < i2 {
            assert(step_of(e.1@, i1) != step_of(e.1@, i2));
        } else {
            assert(step_of(e.1@, i2) != step_of(e.1@, i1));
        }
    }
}

/// The row-major scan of the trace from vertex `(x, y)` on, with grid `g`
/// left, `polys` emitted so far and `done` of the `total` edges walked:
/// each vertex with an upward edge starts a walk, and the scan ends once
/// every edge is walked or the grid is passed.
pub open spec fn scan(
    g: Seq<u8>,
    image: Seq<bool>,
    w: int,
    h: int,
    policy: TurnPolicy,
    simplified: bool,
    total: int,
    x: int,
    y: int,
    polys: Seq<(bool, Seq<IVec2>)>,
    done: int,
) -> Seq<(bool, Seq<IVec2>)>
    decreases h + 1 - y, w + 1 - x,
{
    if x < 0 || y < 0 || y > h {
        polys
    } else if x > w {
        scan(g, image, w, h, policy, simplified, total, 0, y + 1, polys, done)
    } else if has_dir(grid_mask(g, w + 1, x, y), DIR_U) {
        let r = walk_from(g, image, w, h, policy, simplified, x, y);
        let polys2 = polys.push((true, r.0));
        if done + r.2 >= total {
            polys2
        } else {
            scan(r.1, image, w, h, policy, simplified, total, x + 1, y, polys2, done + r.2)
        }
    } else {
        scan(g, image, w, h, policy, simplified, total, x + 1, y, polys, done)
    }
}

/// The outline the tracer gives for a `w` by `h` occupancy grid: the scan
/// over its direction grid from the bottom-left vertex.
pub open spec fn traced(
    image: Seq<bool>,
    w: int,
    h: int,
    policy: TurnPolicy,
    simplified: bool,
) -> Seq<(bool, Seq<IVec2>)> {
    scan(
        direction_grid(image, w, h),
        image,
        w,
        h,
        policy,
        simplified,
        total_edges(direction_grid(image, w, h)),
        0,
        0,
        seq![],
        0,
    )
}

/// A list of polygons seen as values.
pub open spec fn outline_view(r: Seq<(bool, Vec<IVec2>)>) -> Seq<(bool, Seq<IVec2>)> {
    r.map_values(|e: (bool, Vec<IVec2>)| (e.0, e.1@))
}

/// Extracts the outline of an occupancy grid (`size[0]` cells wide and
/// `size[1]` high, row by row) as a list of (is cyclic, polygon) pairs.
/// Each polygon walks one boundary, with its filled side kept the same way
/// round, and every boundary edge is walked exactly once over the whole
/// list: the result is `traced`, the scan and walk modelled above; each
/// step is a set edge of the direction grid, no step is taken twice, and
/// the steps (or, simplified, the perimeters) add up to the transitions
/// between filled and empty cells.
pub fn extract_outline(
    image: &[bool],
    size: &[usize; 2],
    turn_policy: TurnPolicy,
    use_simplify: bool,
) -> (r: Vec<(bool, Vec<IVec2>)>)
    requires
        image@.len() == size[0] * size[1],
        size[0] < i32::MAX,
        size[1] < i32::MAX,
        (size[0] + 1) * (size[1] + 1) * 4 <= usize::MAX,
    ensures
        forall|i: int|
            0 <= i < r@.len() ==> (#[trigger] r@[i]).0 && is_closed_outline(
                r@[i].1@,
                r@[i].1@[0],
                size[0] as int,
                size[1] as int,
                use_simplify,
            ),
        !use_simplify ==> total_points(r@) == transitions(image@, size[0] as int, size[1] as int),
        forall|i: int|
            0 <= i < r@.len() ==> (#[trigger] r@[i]).1@.len() >= 2 && (!use_simplify
                ==> r@[i].1@.len() >= 4 && r@[i].1@.len() % 2 == 0),
        r@.len() == 0 <==> transitions(image@, size[0] as int, size[1] as int) == 0,
        total_perimeter(r@) == transitions(image@, size[0] as int, size[1] as int),
        outline_view(r@) == traced(
            image@,
            size[0] as int,
            size[1] as int,
            turn_policy,
            use_simplify,
        ),
        !use_simplify ==> steps_on_edges(
            r@,
            direction_grid(image@, size[0] as int, size[1] as int),
            size[0] + 1,
        ) && steps_distinct(r@),
{
    let ghost w = size[0] as int;
    let ghost h = size[1] as int;
    let ghost gw = w + 1;
    let ghost gh = h + 1;
    let padded_size: [usize; 2] = [size[0] + 1, size[1] + 1];
    let (mut pimage, steps_total) = build_direction_grid(image, size);
    let ghost g0 = pimage@;
    proof {
        lemma_direction_grid(image@, w, h);
        lemma_direction_grid_balanced(g0, image@, w, h, (0, 0));
        assert(edges_within(g0, g0));
    }
    let mut poly_list: Vec<(bool, Vec<IVec2>)> = Vec::new();
    let mut steps_handled: usize = 0;
    let mut y: usize = 0;
    proof {
        assert(outline_view(poly_list@) =~= seq![]);
    }
    'outer: while y < padded_size[1]
        invariant_except_break
            scan(
                pimage@,
                image@,
                w,
                h,
                turn_policy,
                use_simplify,
                steps_total as int,
                0,
                y as int,
                outline_view(poly_list@),
                steps_handled as int,
            ) == traced(image@, w, h, turn_policy, use_simplify),
        invariant
            image@.len() == size[0] * size[1],
            size[0] < i32::MAX,
            size[1] < i32::MAX,
            (size[0] + 1) * (size[1] + 1) * 4 <= usize::MAX,
            w == size[0],
            h == size[1],
            gw == w + 1,
            gh == h + 1,
            padded_size[0] == gw,
            padded_size[1] == gh,
            0 <= y <= gh,
            g0 == direction_grid(image@, w, h),
            steps_total == total_edges(g0),
            steps_total <= 4 * g0.len(),
            g0.len() == gw * gh,
            grid_valid(pimage@, gw, gh),
            balanced(pimage@, gw, gh, (0, 0), (0, 0)),
            edges_within(pimage@, g0),
            steps_handled == total_edges(g0) - total_edges(pimage@),
            forall|i: int|
                0 <= i < poly_list@.len() ==> (#[trigger] poly_list@[i]).0 && is_closed_outline(
                    poly_list@[i].1@,
                    poly_list@[i].1@[0],
                    w,
                    h,
                    use_simplify,
                ),
            !use_simplify ==> total_points(poly_list@) == steps_handled,
            forall|i: int|
                0 <= i < poly_list@.len() ==> (#[trigger] poly_list@[i]).1@.len() >= 2 && (
                !use_simplify ==> poly_list@[i].1@.len() >= 4 && poly_list@[i].1@.len() % 2 == 0),
            total_perimeter(poly_list@) == steps_handled,
            !use_simplify ==> steps_on_edges(poly_list@, g0, size[0] + 1) && steps_distinct(poly_list@),
            !use_simplify ==> steps_cleared(poly_list@, pimage@, size[0] + 1),
            traced_state(pimage@, image@, w, h),
            forall|vx: int, vy: int|
                in_grid(gw, gh, vx, vy) && vy < y ==> !has_dir(
                    #[trigger] grid_mask(pimage@, gw, vx, vy),
                    DIR_U,
                ),
            y >= gh ==> total_edges(pimage@) == 0,
            steps_handled >= poly_list@.len(),
            poly_list@.len() == 0 ==> steps_handled == 0,
        ensures
            outline_view(poly_list@) == traced(image@, w, h, turn_policy, use_simplify),
            forall|i: int|
                0 <= i < poly_list@.len() ==> (#[trigger] poly_list@[i]).0 && is_closed_outline(
                    poly_list@[i].1@,
                    poly_list@[i].1@[0],
                    w,
                    h,
                    use_simplify,
                ),
            !use_simplify ==> total_points(poly_list@) == steps_handled,
            forall|i: int|
                0 <= i < poly_list@.len() ==> (#[trigger] poly_list@[i]).1@.len() >= 2 && (
                !use_simplify ==> poly_list@[i].1@.len() >= 4 && poly_list@[i].1@.len() % 2 == 0),
            total_perimeter(poly_list@) == steps_handled,
            !use_simplify ==> steps_on_edges(poly_list@, g0, size[0] + 1) && steps_distinct(poly_list@),
            steps_handled == total_edges(g0),
            steps_handled >= poly_list@.len(),
            poly_list@.len() == 0 ==> steps_handled == 0,
        decreases gh - y,
    {
        let mut x: usize = 0;
        while x < padded_size[0]
            invariant
                image@.len() == size[0] * size[1],
                size[0] < i32::MAX,
                size[1] < i32::MAX,
                (size[0] + 1) * (size[1] + 1) * 4 <= usize::MAX,
                w == size[0],
                h == size[1],
                gw == w + 1,
                gh == h + 1,
                padded_size[0] == gw,
                padded_size[1] == gh,
                0 <= y < gh,
                0 <= x <= gw,
                g0 == direction_grid(image@, w, h),
                steps_total == total_edges(g0),
                steps_total <= 4 * g0.len(),
                g0.len() == gw * gh,
                grid_valid(pimage@, gw, gh),
                balanced(pimage@, gw, gh, (0, 0), (0, 0)),
                edges_within(pimage@, g0),
                steps_handled == total_edges(g0) - total_edges(pimage@),
                forall|i: int|
                    0 <= i < poly_list@.len() ==> (#[trigger] poly_list@[i]).0 && is_closed_outline(
                        poly_list@[i].1@,
                        poly_list@[i].1@[0],
                        w,
                        h,
                        use_simplify,
                    ),
                !use_simplify ==> total_points(poly_list@) == steps_handled,
                forall|i: int|
                    0 <= i < poly_list@.len() ==> (#[trigger] poly_list@[i]).1@.len() >= 2 && (
                    !use_simplify ==> poly_list@[i].1@.len() >= 4 && poly_list@[i].1@.len() % 2
                        == 0),
                total_perimeter(poly_list@) == steps_handled,
                !use_simplify ==> steps_on_edges(poly_list@, g0, size[0] + 1) && steps_distinct(poly_list@),
                !use_simplify ==> steps_cleared(poly_list@, pimage@, size[0] + 1),
                traced_state(pimage@, image@, w, h),
                forall|vx: int, vy: int|
                    in_grid(gw, gh, vx, vy) && (vy < y || (vy == y && vx < x)) ==> !has_dir(
                        #[trigger] grid_mask(pimage@, gw, vx, vy),
                        DIR_U,
                    ),
                steps_handled >= poly_list@.len(),
                poly_list@.len() == 0 ==> steps_handled == 0,
                scan(
                    pimage@,
                    image@,
                    w,
                    h,
                    turn_policy,
                    use_simplify,
                    steps_total as int,
                    x as int,
                    y as int,
                    outline_view(poly_list@),
                    steps_handled as int,
                ) == traced(image@, w, h, turn_policy, use_simplify),
            decreases gw - x,
        {
            proof {
                lemma_index(gw, gh, x as int, y as int);
            }
            let cell_index = index(x, y, padded_size[0]);
            let cell = pimage[cell_index];
            if cell & DIR_U != 0 {
                proof {
                    lemma_balanced_closed(pimage@, gw, gh, (0, 0), (x as int, y as int));
                    lemma_total_nonneg(pimage@);
                    assert(cell & 8u8 != 0 ==> cell != 0) by (bit_vector);
                    lemma_scan_start(pimage@, image@, w, h, x as int, y as int);
                }
                let ghost before = pimage@;
                let (poly, handled) = poly_from_direction_mask(
                    &mut pimage,
                    x as i32,
                    y as i32,
                    image,
                    size,
                    turn_policy,
                    use_simplify,
                    DIR_L,
                );
                proof {
                    lemma_balanced_closed(pimage@, gw, gh, (x as int, y as int), (0, 0));
                    lemma_total_nonneg(pimage@);
                    assert forall|i: int, d: u8|
                        0 <= i < pimage@.len() && #[trigger] has_dir(pimage@[i], d) implies has_dir(
                        g0[i],
                        d,
                    ) by {
                        assert(has_dir(before[i], d));
                    }
                    assert forall|vx: int, vy: int|
                        in_grid(gw, gh, vx, vy) && (vy < y || (vy == y && vx <= x)) implies !has_dir(
                        #[trigger] grid_mask(pimage@, gw, vx, vy),
                        DIR_U,
                    ) by {
                        if vx == x && vy == y {
                            assert((x as i32) as int == x && (y as i32) as int == y);
                            assert(grid_mask(before, gw, x as int, y as int) == DIR_U);
                            assert(!has_dir(grid_mask(pimage@, gw, x as int, y as int), DIR_U));
                        } else {
                            assert(!has_dir(grid_mask(before, gw, vx, vy), DIR_U));
                            lemma_index(gw, gh, vx, vy);
                            let i = vx + vy * gw;
                            if has_dir(pimage@[i], DIR_U) {
                                assert(has_dir(before[i], DIR_U));
                            }
                        }
                    }
                }
                let ghost list_before = poly_list@;
                poly_list.push((true, poly));
                proof {
                    assert(poly_list@.drop_last() == list_before);
                    assert(outline_view(poly_list@) =~= outline_view(list_before).push(
                        (true, poly@),
                    ));
                    if !use_simplify {
                        assert forall|k: int, i: int|
                            0 <= k < list_before.len() && 0 <= i < list_before[k].1@.len() implies in_grid(
                            gw,
                            gh,
                            (#[trigger] list_before[k].1@[i]).x as int,
                            list_before[k].1@[i].y as int,
                        ) by {
                            assert(is_closed_outline(
                                list_before[k].1@,
                                list_before[k].1@[0],
                                w,
                                h,
                                use_simplify,
                            ));
                        }
                        lemma_steps_push(list_before, (true, poly), g0, before, pimage@, gw, gh);
                    }
                }
                steps_handled += handled;
                if steps_handled >= steps_total {
                    proof {
                        lemma_total_nonneg(pimage@);
                    }
                    break 'outer;
                }
            }
            x += 1;
        }
        y += 1;
        proof {
            if y >= gh {
                lemma_scan_done(pimage@, image@, w, h);
            }
        }
    }
    proof {
        lemma_boundary_edges_are_transitions(image@, w, h);
    }
    poly_list
}

} // verus!
