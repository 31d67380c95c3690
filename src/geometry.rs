//! Neighbourhood of a cell on a rectangular grid stored in row-major order.

use vstd::prelude::*;
use vstd::arithmetic::div_mod::lemma_fundamental_div_mod;
use vstd::arithmetic::div_mod::lemma_fundamental_div_mod_converse;

verus! {

/// A grid with `h` rows and `w` columns whose cell count fits in `usize`.
pub open spec fn grid_ok(w: int, h: int) -> bool {
    w >= 1 && h >= 1 && w * h <= usize::MAX
}

pub open spec fn in_grid(i: int, w: int, h: int) -> bool {
    0 <= i < w * h
}

pub open spec fn is_top(i: int, w: int) -> bool {
    i < w
}

pub open spec fn is_bottom(i: int, w: int, h: int) -> bool {
    i + w > w * h - 1
}

pub open spec fn is_left(i: int, w: int) -> bool {
    i % w == 0
}

pub open spec fn is_right(i: int, w: int) -> bool {
    i % w == w - 1
}

pub open spec fn push_if(s: Seq<int>, c: bool, x: int) -> Seq<int> {
    if c { s.push(x) } else { s }
}

/// Neighbours of `i` in the order up, down, left, left-up, left-down,
/// right, right-up, right-down, each present when the grid edges allow it.
pub open spec fn neighbors(i: int, w: int, h: int) -> Seq<int> {
    let top = is_top(i, w);
    let bot = is_bottom(i, w, h);
    let left = is_left(i, w);
    let right = is_right(i, w);
    let s0 = push_if(Seq::empty(), !top, i - w);
    let s1 = push_if(s0, !bot, i + w);
    let s2 = push_if(s1, !left, i - 1);
    let s3 = push_if(s2, !left && !top, i - 1 - w);
    let s4 = push_if(s3, !left && !bot, i - 1 + w);
    let s5 = push_if(s4, !right, i + 1);
    let s6 = push_if(s5, !right && !top, i + 1 - w);
    push_if(s6, !right && !bot, i + 1 + w)
}

/// Two distinct cells whose rows and columns each differ by at most one.
pub open spec fn adjacent(i: int, j: int, w: int, h: int) -> bool {
    &&& in_grid(i, w, h)
    &&& in_grid(j, w, h)
    &&& i != j
    &&& -1 <= i / w - j / w <= 1
    &&& -1 <= i % w - j % w <= 1
}

proof fn lemma_row_col(r: int, c: int, w: int)
    requires
        w >= 1,
        0 <= c < w,
    ensures
        (r * w + c) / w == r,
        (r * w + c) % w == c,
{
    lemma_fundamental_div_mod_converse(r * w + c, w, r, c);
}

proof fn lemma_offset(i: int, w: int, h: int, dr: int, dc: int)
    requires
        grid_ok(w, h),
        in_grid(i, w, h),
        0 <= i % w + dc < w,
        0 <= i / w + dr < h,
    ensures
        i + dr * w + dc == (i / w + dr) * w + (i % w + dc),
        (i + dr * w + dc) / w == i / w + dr,
        (i + dr * w + dc) % w == i % w + dc,
        in_grid(i + dr * w + dc, w, h),
{
    lemma_fundamental_div_mod(i, w);
    let r = i / w;
    let c = i % w;
    assert((r + dr) * w == w * r + dr * w) by (nonlinear_arith);
    lemma_row_col(r + dr, c + dc, w);
    let rr = r + dr;
    let cc = c + dc;
    assert(0 <= rr * w + cc < w * h) by (nonlinear_arith)
        requires 0 <= rr < h, 0 <= cc < w, w >= 1;
}

proof fn lemma_push_if(s: Seq<int>, c: bool, x: int, y: int)
    ensures
        push_if(s, c, x).contains(y) <==> (s.contains(y) || (c && y == x)),
{
    if c {
        let t = s.push(x);
        if t.contains(y) {
            let k = choose|k: int| 0 <= k < t.len() && t[k] == y;
            if k < s.len() {
                assert(s[k] == y);
            }
        }
        if s.contains(y) {
            let k = choose|k: int| 0 <= k < s.len() && s[k] == y;
            assert(t[k] == y);
        }
        assert(t[s.len() as int] == x);
    }
}

/// `j` is among the neighbours of `i` exactly when one of the eight
/// edge-guarded offsets gives it.
pub open spec fn neighbor_by_offset(i: int, j: int, w: int, h: int) -> bool {
    let top = is_top(i, w);
    let bot = is_bottom(i, w, h);
    let left = is_left(i, w);
    let right = is_right(i, w);
    ||| (!top && j == i - w)
    ||| (!bot && j == i + w)
    ||| (!left && j == i - 1)
    ||| (!left && !top && j == i - 1 - w)
    ||| (!left && !bot && j == i - 1 + w)
    ||| (!right && j == i + 1)
    ||| (!right && !top && j == i + 1 - w)
    ||| (!right && !bot && j == i + 1 + w)
}

proof fn lemma_neighbors_contains(i: int, j: int, w: int, h: int)
    ensures
        neighbors(i, w, h).contains(j) <==> neighbor_by_offset(i, j, w, h),
{
    let top = is_top(i, w);
    let bot = is_bottom(i, w, h);
    let left = is_left(i, w);
    let right = is_right(i, w);
    let s0 = push_if(Seq::empty(), !top, i - w);
    let s1 = push_if(s0, !bot, i + w);
    let s2 = push_if(s1, !left, i - 1);
    let s3 = push_if(s2, !left && !top, i - 1 - w);
    let s4 = push_if(s3, !left && !bot, i - 1 + w);
    let s5 = push_if(s4, !right, i + 1);
    let s6 = push_if(s5, !right && !top, i + 1 - w);
    lemma_push_if(Seq::empty(), !top, i - w, j);
    lemma_push_if(s0, !bot, i + w, j);
    lemma_push_if(s1, !left, i - 1, j);
    lemma_push_if(s2, !left && !top, i - 1 - w, j);
    lemma_push_if(s3, !left && !bot, i - 1 + w, j);
    lemma_push_if(s4, !right, i + 1, j);
    lemma_push_if(s5, !right && !top, i + 1 - w, j);
    lemma_push_if(s6, !right && !bot, i + 1 + w, j);
}

proof fn lemma_edges(i: int, w: int, h: int)
    requires
        grid_ok(w, h),
        in_grid(i, w, h),
    ensures
        0 <= i / w < h,
        0 <= i % w < w,
        is_top(i, w) <==> i / w == 0,
        is_bottom(i, w, h) <==> i / w == h - 1,
{
    lemma_fundamental_div_mod(i, w);
    let r = i / w;
    let c = i % w;
    assert(0 <= r) by (nonlinear_arith) requires i == w * r + c, 0 <= c < w, w >= 1, i >= 0;
    assert(r < h) by (nonlinear_arith) requires i == w * r + c, 0 <= c, i < w * h, w >= 1;
    assert(is_top(i, w) <==> r == 0) by (nonlinear_arith)
        requires i == w * r + c, 0 <= c < w, w >= 1, r >= 0;
    assert(is_bottom(i, w, h) <==> r == h - 1) by (nonlinear_arith)
        requires i == w * r + c, 0 <= c < w, w >= 1, 0 <= r < h;
}

/// Membership in `neighbors` is exactly adjacency.
pub proof fn lemma_neighbors_adjacent(i: int, j: int, w: int, h: int)
    requires
        grid_ok(w, h),
        in_grid(i, w, h),
    ensures
        neighbors(i, w, h).contains(j) <==> adjacent(i, j, w, h),
{
    lemma_edges(i, w, h);
    let r = i / w;
    let c = i % w;
    let n = neighbors(i, w, h);
    lemma_neighbors_contains(i, j, w, h);
    if n.contains(j) {
        if j == i - w { lemma_offset(i, w, h, -1, 0); }
        if j == i + w { lemma_offset(i, w, h, 1, 0); }
        if j == i - 1 && c > 0 { lemma_offset(i, w, h, 0, -1); }
        if j == i - 1 - w && c > 0 { lemma_offset(i, w, h, -1, -1); }
        if j == i - 1 + w && c > 0 { lemma_offset(i, w, h, 1, -1); }
        if j == i + 1 && c < w - 1 { lemma_offset(i, w, h, 0, 1); }
        if j == i + 1 - w && c < w - 1 { lemma_offset(i, w, h, -1, 1); }
        if j == i + 1 + w && c < w - 1 { lemma_offset(i, w, h, 1, 1); }
        lemma_edges(j, w, h);
        assert(adjacent(i, j, w, h));
    }
    if adjacent(i, j, w, h) {
        lemma_edges(j, w, h);
        lemma_fundamental_div_mod(j, w);
        let dr = j / w - r;
        let dc = j % w - c;
        lemma_offset(i, w, h, dr, dc);
        assert(j == i + dr * w + dc) by (nonlinear_arith)
            requires j == w * (j / w) + j % w, i + dr * w + dc == (r + dr) * w + (c + dc),
                dr == j / w - r, dc == j % w - c;
        assert(-1 <= dr <= 1 && -1 <= dc <= 1);
        if dr == -1 {
            assert(dr * w == -w) by (nonlinear_arith) requires dr == -1;
            assert(j == i - w + dc);
        } else if dr == 0 {
            assert(dr * w == 0) by (nonlinear_arith) requires dr == 0;
            assert(j == i + dc);
        } else {
            assert(dr == 1);
            assert(dr * w == w) by (nonlinear_arith) requires dr == 1;
            assert(j == i + w + dc);
        }
        assert(neighbor_by_offset(i, j, w, h));
    }
}

/// A step away from an edge stays on the grid.
pub proof fn lemma_step_in_grid(i: int, w: int, h: int)
    requires
        grid_ok(w, h),
        in_grid(i, w, h),
    ensures
        !is_top(i, w) ==> in_grid(i - w, w, h),
        !is_bottom(i, w, h) ==> in_grid(i + w, w, h),
        !is_left(i, w) ==> in_grid(i - 1, w, h),
        !is_right(i, w) ==> in_grid(i + 1, w, h),
{
    lemma_edges(i, w, h);
    if !is_top(i, w) { lemma_offset(i, w, h, -1, 0); }
    if !is_bottom(i, w, h) { lemma_offset(i, w, h, 1, 0); }
    if !is_left(i, w) { lemma_offset(i, w, h, 0, -1); }
    if !is_right(i, w) { lemma_offset(i, w, h, 0, 1); }
}

/// Neighbourhood is symmetric: `j` is a neighbour of `i` exactly when `i`
/// is a neighbour of `j`.
pub proof fn lemma_neighbors_symmetric(i: int, j: int, w: int, h: int)
    requires
        grid_ok(w, h),
        in_grid(i, w, h),
        in_grid(j, w, h),
    ensures
        neighbors(i, w, h).contains(j) <==> neighbors(j, w, h).contains(i),
{
    lemma_neighbors_adjacent(i, j, w, h);
    lemma_neighbors_adjacent(j, i, w, h);
}

/// Every neighbour lies on the grid and no neighbour is listed twice.
pub proof fn lemma_neighbors_distinct(i: int, w: int, h: int)
    requires
        grid_ok(w, h),
        in_grid(i, w, h),
    ensures
        neighbors(i, w, h).no_duplicates(),
        forall|k: int| 0 <= k < neighbors(i, w, h).len() ==> in_grid(#[trigger] neighbors(i, w, h)[k], w, h),
{
    let n = neighbors(i, w, h);
    assert forall|k: int| 0 <= k < n.len() implies in_grid(#[trigger] n[k], w, h) by {
        assert(n.contains(n[k]));
        lemma_neighbors_adjacent(i, n[k], w, h);
    }
    assert forall|a: int, b: int| 0 <= a < n.len() && 0 <= b < n.len() && a != b implies n[a] != n[b] by {
        assert(n.contains(n[a]));
        assert(n.contains(n[b]));
        lemma_neighbors_contains(i, n[a], w, h);
        lemma_neighbors_contains(i, n[b], w, h);
        neighbors_positions(i, w, h, a, b);
    }
}

proof fn neighbors_positions(i: int, w: int, h: int, a: int, b: int)
    requires
        grid_ok(w, h),
        in_grid(i, w, h),
        0 <= a < neighbors(i, w, h).len(),
        0 <= b < neighbors(i, w, h).len(),
        a != b,
    ensures
        neighbors(i, w, h)[a] != neighbors(i, w, h)[b],
{
    let top = is_top(i, w);
    let bot = is_bottom(i, w, h);
    let left = is_left(i, w);
    let right = is_right(i, w);
    lemma_edges(i, w, h);
    assert(w >= 2 || (left && right));
    assert(w % w == 0) by {
        lemma_row_col(1, 0, w);
    }
    let s0 = push_if(Seq::empty(), !top, i - w);
    let s1 = push_if(s0, !bot, i + w);
    let s2 = push_if(s1, !left, i - 1);
    let s3 = push_if(s2, !left && !top, i - 1 - w);
    let s4 = push_if(s3, !left && !bot, i - 1 + w);
    let s5 = push_if(s4, !right, i + 1);
    let s6 = push_if(s5, !right && !top, i + 1 - w);
    let s7 = push_if(s6, !right && !bot, i + 1 + w);
    assert(s7 == neighbors(i, w, h));
    assert(w != 2 || !(!left && !right));
}

/// The cells next to `x`, in the order of `neighbors`.
pub fn get_neighbor_indexes(x: usize, w: usize, h: usize) -> (r: Vec<usize>)
    requires
        grid_ok(w as int, h as int),
        in_grid(x as int, w as int, h as int),
    ensures
        r@.map_values(|v: usize| v as int) == neighbors(x as int, w as int, h as int),
{
    let n: usize = w * h;
    proof {
        assert(w * h >= w) by (nonlinear_arith) requires h >= 1, w >= 1;
        lemma_edges(x as int, w as int, h as int);
    }
    let top = x < w;
    let bot = x >= n - w;
    let left = x % w == 0;
    let right = x % w == w - 1;
    let ghost xi = x as int;
    let ghost wi = w as int;
    let ghost hi = h as int;
    proof {
        if !top && !left { lemma_offset(xi, wi, hi, -1, -1); }
        if !bot && !left { lemma_offset(xi, wi, hi, 1, -1); }
        if !right { lemma_offset(xi, wi, hi, 0, 1); }
        if !top && !right { lemma_offset(xi, wi, hi, -1, 1); }
        if !bot && !right { lemma_offset(xi, wi, hi, 1, 1); }
        if !left { lemma_offset(xi, wi, hi, 0, -1); }
    }
    let mut result: Vec<usize> = Vec::new();
    let ghost mut g: Seq<int> = Seq::empty();
    if !top {
        result.push(x - w);
    }
    proof { g = push_if(g, !top, xi - wi); assert(result@.map_values(|v: usize| v as int) =~= g); }
    if !bot {
        result.push(x + w);
    }
    proof { g = push_if(g, !bot, xi + wi); assert(result@.map_values(|v: usize| v as int) =~= g); }
    if !left {
        result.push(x - 1);
    }
    proof { g = push_if(g, !left, xi - 1); assert(result@.map_values(|v: usize| v as int) =~= g); }
    if !left && !top {
        result.push(x - 1 - w);
    }
    proof { g = push_if(g, !left && !top, xi - 1 - wi); assert(result@.map_values(|v: usize| v as int) =~= g); }
    if !left && !bot {
        result.push(x - 1 + w);
    }
    proof { g = push_if(g, !left && !bot, xi - 1 + wi); assert(result@.map_values(|v: usize| v as int) =~= g); }
    if !right {
        result.push(x + 1);
    }
    proof { g = push_if(g, !right, xi + 1); assert(result@.map_values(|v: usize| v as int) =~= g); }
    if !right && !top {
        result.push(x + 1 - w);
    }
    proof { g = push_if(g, !right && !top, xi + 1 - wi); assert(result@.map_values(|v: usize| v as int) =~= g); }
    if !right && !bot {
        result.push(x + 1 + w);
    }
    proof { g = push_if(g, !right && !bot, xi + 1 + wi); assert(result@.map_values(|v: usize| v as int) =~= g); }
    result
}

} // verus!
