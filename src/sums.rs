//! Sums of integer functions over rectangles of the plane, and the ways to
//! rearrange them.
use vstd::prelude::*;

verus! {

/// `f(x, y)` summed over `x0 <= x < x1`.
pub open spec fn row_sum(f: spec_fn(int, int) -> int, y: int, x0: int, x1: int) -> int
    decreases x1 - x0,
{
    if x1 <= x0 {
        0
    } else {
        row_sum(f, y, x0, x1 - 1) + f(x1 - 1, y)
    }
}

/// `f(x, y)` summed over `x0 <= x < x1`, `y0 <= y < y1`.
pub open spec fn rect_sum(f: spec_fn(int, int) -> int, x0: int, x1: int, y0: int, y1: int) -> int
    decreases y1 - y0,
{
    if y1 <= y0 {
        0
    } else {
        rect_sum(f, x0, x1, y0, y1 - 1) + row_sum(f, y1 - 1, x0, x1)
    }
}

pub proof fn lemma_row_ext(f: spec_fn(int, int) -> int, g: spec_fn(int, int) -> int, y: int, x0: int, x1: int)
    requires
        forall|x: int| x0 <= x < x1 ==> #[trigger] f(x, y) == g(x, y),
    ensures
        row_sum(f, y, x0, x1) == row_sum(g, y, x0, x1),
    decreases x1 - x0,
{
    if x1 > x0 {
        lemma_row_ext(f, g, y, x0, x1 - 1);
    }
}

/// Sums of functions that agree on the rectangle agree.
pub proof fn lemma_rect_ext(
    f: spec_fn(int, int) -> int,
    g: spec_fn(int, int) -> int,
    x0: int,
    x1: int,
    y0: int,
    y1: int,
)
    requires
        forall|x: int, y: int| x0 <= x < x1 && y0 <= y < y1 ==> #[trigger] f(x, y) == g(x, y),
    ensures
        rect_sum(f, x0, x1, y0, y1) == rect_sum(g, x0, x1, y0, y1),
    decreases y1 - y0,
{
    if y1 > y0 {
        lemma_rect_ext(f, g, x0, x1, y0, y1 - 1);
        lemma_row_ext(f, g, y1 - 1, x0, x1);
    }
}

pub proof fn lemma_row_add(
    f: spec_fn(int, int) -> int,
    g: spec_fn(int, int) -> int,
    s: spec_fn(int, int) -> int,
    y: int,
    x0: int,
    x1: int,
)
    requires
        forall|x: int| x0 <= x < x1 ==> #[trigger] s(x, y) == f(x, y) + g(x, y),
    ensures
        row_sum(s, y, x0, x1) == row_sum(f, y, x0, x1) + row_sum(g, y, x0, x1),
    decreases x1 - x0,
{
    if x1 > x0 {
        lemma_row_add(f, g, s, y, x0, x1 - 1);
    }
}

/// The sum of a pointwise sum is the sum of the sums.
pub proof fn lemma_rect_add(
    f: spec_fn(int, int) -> int,
    g: spec_fn(int, int) -> int,
    s: spec_fn(int, int) -> int,
    x0: int,
    x1: int,
    y0: int,
    y1: int,
)
    requires
        forall|x: int, y: int| x0 <= x < x1 && y0 <= y < y1 ==> #[trigger] s(x, y) == f(x, y) + g(x, y),
    ensures
        rect_sum(s, x0, x1, y0, y1) == rect_sum(f, x0, x1, y0, y1) + rect_sum(g, x0, x1, y0, y1),
    decreases y1 - y0,
{
    if y1 > y0 {
        lemma_rect_add(f, g, s, x0, x1, y0, y1 - 1);
        lemma_row_add(f, g, s, y1 - 1, x0, x1);
    }
}

pub proof fn lemma_row_shift(
    f: spec_fn(int, int) -> int,
    g: spec_fn(int, int) -> int,
    dx: int,
    dy: int,
    y: int,
    x0: int,
    x1: int,
)
    requires
        forall|x: int| x0 <= x < x1 ==> #[trigger] g(x, y) == f(x + dx, y + dy),
    ensures
        row_sum(g, y, x0, x1) == row_sum(f, y + dy, x0 + dx, x1 + dx),
    decreases x1 - x0,
{
    if x1 > x0 {
        lemma_row_shift(f, g, dx, dy, y, x0, x1 - 1);
    }
}

/// Summing a shifted function is summing the function over the shifted
/// rectangle.
pub proof fn lemma_rect_shift(
    f: spec_fn(int, int) -> int,
    g: spec_fn(int, int) -> int,
    dx: int,
    dy: int,
    x0: int,
    x1: int,
    y0: int,
    y1: int,
)
    requires
        forall|x: int, y: int| x0 <= x < x1 && y0 <= y < y1 ==> #[trigger] g(x, y) == f(x + dx, y + dy),
    ensures
        rect_sum(g, x0, x1, y0, y1) == rect_sum(f, x0 + dx, x1 + dx, y0 + dy, y1 + dy),
    decreases y1 - y0,
{
    if y1 > y0 {
        lemma_rect_shift(f, g, dx, dy, x0, x1, y0, y1 - 1);
        lemma_row_shift(f, g, dx, dy, y1 - 1, x0, x1);
    }
}

pub proof fn lemma_row_first(f: spec_fn(int, int) -> int, y: int, x0: int, x1: int)
    requires
        x0 < x1,
    ensures
        row_sum(f, y, x0, x1) == f(x0, y) + row_sum(f, y, x0 + 1, x1),
    decreases x1 - x0,
{
    if x1 - 1 > x0 {
        lemma_row_first(f, y, x0, x1 - 1);
    } else {
        assert(row_sum(f, y, x0, x0) == 0);
        assert(row_sum(f, y, x0 + 1, x1) == 0);
    }
}

/// A first column of zeros adds nothing.
pub proof fn lemma_trim_first_col(f: spec_fn(int, int) -> int, x0: int, x1: int, y0: int, y1: int)
    requires
        x0 < x1,
        forall|y: int| y0 <= y < y1 ==> #[trigger] f(x0, y) == 0,
    ensures
        rect_sum(f, x0, x1, y0, y1) == rect_sum(f, x0 + 1, x1, y0, y1),
    decreases y1 - y0,
{
    if y1 > y0 {
        lemma_trim_first_col(f, x0, x1, y0, y1 - 1);
        lemma_row_first(f, y1 - 1, x0, x1);
    }
}

/// A last column of zeros adds nothing.
pub proof fn lemma_trim_last_col(f: spec_fn(int, int) -> int, x0: int, x1: int, y0: int, y1: int)
    requires
        x0 < x1,
        forall|y: int| y0 <= y < y1 ==> #[trigger] f(x1 - 1, y) == 0,
    ensures
        rect_sum(f, x0, x1, y0, y1) == rect_sum(f, x0, x1 - 1, y0, y1),
    decreases y1 - y0,
{
    if y1 > y0 {
        lemma_trim_last_col(f, x0, x1, y0, y1 - 1);
    }
}

/// A first row of zeros adds nothing.
pub proof fn lemma_trim_first_row(f: spec_fn(int, int) -> int, x0: int, x1: int, y0: int, y1: int)
    requires
        y0 < y1,
        forall|x: int| x0 <= x < x1 ==> #[trigger] f(x, y0) == 0,
    ensures
        rect_sum(f, x0, x1, y0, y1) == rect_sum(f, x0, x1, y0 + 1, y1),
    decreases y1 - y0,
{
    if y1 == y0 + 1 {
        lemma_row_zero(f, y0, x0, x1);
        assert(rect_sum(f, x0, x1, y0, y0) == 0);
        assert(rect_sum(f, x0, x1, y0 + 1, y1) == 0);
    } else {
        lemma_trim_first_row(f, x0, x1, y0, y1 - 1);
    }
}

/// A last row of zeros adds nothing.
pub proof fn lemma_trim_last_row(f: spec_fn(int, int) -> int, x0: int, x1: int, y0: int, y1: int)
    requires
        y0 < y1,
        forall|x: int| x0 <= x < x1 ==> #[trigger] f(x, y1 - 1) == 0,
    ensures
        rect_sum(f, x0, x1, y0, y1) == rect_sum(f, x0, x1, y0, y1 - 1),
{
    lemma_row_zero(f, y1 - 1, x0, x1);
}

pub proof fn lemma_row_zero(f: spec_fn(int, int) -> int, y: int, x0: int, x1: int)
    requires
        forall|x: int| x0 <= x < x1 ==> #[trigger] f(x, y) == 0,
    ensures
        row_sum(f, y, x0, x1) == 0,
    decreases x1 - x0,
{
    if x1 > x0 {
        lemma_row_zero(f, y, x0, x1 - 1);
    }
}

} // verus!
