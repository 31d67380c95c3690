//! The board as a row-major sequence of tiles: chain reveal and the win rule.

use vstd::prelude::*;
use crate::geometry::{
    adjacent, get_neighbor_indexes, grid_ok, in_grid, lemma_neighbors_adjacent,
    lemma_neighbors_distinct, neighbors,
};
use crate::tile::{GameState, Kind, State, Tile, Visibility};

verus! {

pub open spec fn revealed_zero(t: Tile) -> bool {
    t.state.visibility == Visibility::Revealed && t.state.kind == Kind::Count(0)
}

/// A covered safe cell that the current chain reveal has not handled yet.
pub open spec fn pending(t: Tile) -> bool {
    &&& t.state.visibility == Visibility::Hidden
    &&& t.state.kind is Count
    &&& !t.checked
}

/// Some neighbour of `i` is an uncovered blank.
pub open spec fn touches_blank(g: Seq<Tile>, i: int, w: int, h: int) -> bool {
    exists|j: int| adjacent(i, j, w, h) && #[trigger] revealed_zero(g[j])
}

/// A cell that a chain reveal uncovers.
pub open spec fn diggable(g: Seq<Tile>, i: int, w: int, h: int) -> bool {
    0 <= i < g.len() && pending(g[i]) && touches_blank(g, i, w, h)
}

pub open spec fn settled(g: Seq<Tile>, w: int, h: int) -> bool {
    forall|i: int| !#[trigger] diggable(g, i, w, h)
}

pub open spec fn uncovered(t: Tile) -> Tile {
    Tile { state: State { kind: t.state.kind, visibility: Visibility::Revealed }, checked: true }
}

/// A tile is either kept or, if pending, uncovered and marked.
pub open spec fn dug(a: Tile, b: Tile) -> bool {
    b == a || (pending(a) && b == uncovered(a))
}

/// `b[i]` touches an uncovered blank that is either uncovered in `a` too or
/// ranks below `i`.
pub open spec fn supported(a: Seq<Tile>, b: Seq<Tile>, i: int, w: int, h: int, rank: spec_fn(int) -> int) -> bool {
    exists|j: int| adjacent(i, j, w, h) && #[trigger] revealed_zero(b[j]) && (b[j] == a[j] || rank(j) < rank(i))
}

/// Every tile uncovered on the way from `a` to `b` is supported under `rank`:
/// following supports downward always ends at a blank uncovered in `a`.
pub open spec fn ranked(a: Seq<Tile>, b: Seq<Tile>, w: int, h: int, rank: spec_fn(int) -> int) -> bool {
    forall|i: int| 0 <= i < a.len() && #[trigger] b[i] != a[i] ==> 0 <= rank(i) && supported(a, b, i, w, h, rank)
}

/// What one pass of `chain_dig` does, with `done` its result.
pub open spec fn dig_pass(a: Seq<Tile>, b: Seq<Tile>, done: bool, w: int, h: int) -> bool {
    &&& b.len() == a.len()
    &&& forall|i: int| 0 <= i < a.len() ==> dug(a[i], #[trigger] b[i])
    &&& forall|i: int| #[trigger] diggable(a, i, w, h) ==> b[i] == uncovered(a[i])
    &&& ranked(a, b, w, h, |k: int| k)
    &&& done == settled(a, w, h)
    &&& done ==> b == a
}

pub open spec fn board_ok(g: Seq<Tile>, w: int, h: int) -> bool {
    grid_ok(w, h) && g.len() == w * h
}

proof fn lemma_touches_kept(a: Seq<Tile>, b: Seq<Tile>, i: int, w: int, h: int)
    requires
        b.len() == a.len(),
        forall|k: int| 0 <= k < a.len() ==> dug(a[k], #[trigger] b[k]),
        touches_blank(a, i, w, h),
        a.len() == w * h,
    ensures
        touches_blank(b, i, w, h),
{
    let j = choose|j: int| adjacent(i, j, w, h) && #[trigger] revealed_zero(a[j]);
    assert(dug(a[j], b[j]));
    assert(revealed_zero(b[j]));
}

/// One pass over the board: every covered safe cell that is not yet checked
/// and touches an uncovered blank is uncovered and checked. Returns true
/// when the pass changed nothing.
pub fn chain_dig(game: &mut Vec<Tile>, h: usize, w: usize) -> (done: bool)
    requires
        board_ok(old(game)@, w as int, h as int),
    ensures
        dig_pass(old(game)@, final(game)@, done, w as int, h as int),
{
    let ghost a = game@;
    let ghost wi = w as int;
    let ghost hi = h as int;
    let mut done = true;
    let mut i: usize = 0;
    while i < game.len()
        invariant
            board_ok(a, wi, hi),
            wi == w, hi == h,
            game@.len() == a.len(),
            i <= a.len(),
            forall|k: int| 0 <= k < a.len() ==> dug(a[k], #[trigger] game@[k]),
            forall|k: int| i <= k < a.len() ==> #[trigger] game@[k] == a[k],
            forall|k: int| 0 <= k < i && #[trigger] diggable(a, k, wi, hi) ==> game@[k] == uncovered(a[k]),
            ranked(a, game@, wi, hi, |x: int| x),
            done ==> game@ == a,
            !done ==> !settled(a, wi, hi),
        decreases a.len() - i,
    {
        let t = game[i];
        if !t.checked && t.state.visibility == Visibility::Hidden && t.state.kind != Kind::Mine {
            let nb = get_neighbor_indexes(i, w, h);
            proof {
                lemma_neighbors_distinct(i as int, wi, hi);
                assert forall|k: int| 0 <= k < nb@.len() implies in_grid(nb@[k] as int, wi, hi) by {
                    assert(neighbors(i as int, wi, hi)[k] == nb@[k] as int);
                }
            }
            let mut found = false;
            let mut m: usize = 0;
            while m < nb.len()
                invariant
                    board_ok(a, wi, hi),
                    game@.len() == a.len(),
                    nb@.map_values(|v: usize| v as int) == neighbors(i as int, wi, hi),
                    forall|k: int| 0 <= k < nb@.len() ==> in_grid(nb@[k] as int, wi, hi),
                    m <= nb.len(),
                    found == exists|k: int| 0 <= k < m && #[trigger] revealed_zero(game@[nb@[k] as int]),
                decreases nb.len() - m,
            {
                proof {
                    assert(neighbors(i as int, wi, hi)[m as int] == nb@[m as int] as int);
                }
                let s = game[nb[m]].state;
                let ghost was_found = found;
                if s.visibility == Visibility::Revealed && s.kind == Kind::Count(0) {
                    found = true;
                }
                proof {
                    if revealed_zero(game@[nb@[m as int] as int]) {
                        assert(found);
                    }
                    if was_found {
                        let k = choose|k: int| 0 <= k < m && #[trigger] revealed_zero(game@[nb@[k] as int]);
                        assert(k < m + 1);
                    }
                    assert(found == exists|k: int| 0 <= k < m + 1 && #[trigger] revealed_zero(game@[nb@[k] as int]));
                }
                m += 1;
            }
            proof {
                let g = game@;
                let ns = neighbors(i as int, wi, hi);
                if touches_blank(g, i as int, wi, hi) {
                    let j = choose|j: int| adjacent(i as int, j, wi, hi) && #[trigger] revealed_zero(g[j]);
                    lemma_neighbors_adjacent(i as int, j, wi, hi);
                    let k = choose|k: int| 0 <= k < ns.len() && ns[k] == j;
                    assert(nb@[k] as int == ns[k]);
                    assert(found);
                }
                if found {
                    let k = choose|k: int| 0 <= k < nb@.len() && #[trigger] revealed_zero(g[nb@[k] as int]);
                    assert(ns[k] == nb@[k] as int);
                    assert(ns.contains(nb@[k] as int));
                    lemma_neighbors_adjacent(i as int, nb@[k] as int, wi, hi);
                    assert(touches_blank(g, i as int, wi, hi));
                    let j = nb@[k] as int;
                    assert(g[j] == a[j] || j < i);
                    assert(supported(a, g, i as int, wi, hi, |x: int| x));
                }
                if diggable(a, i as int, wi, hi) {
                    lemma_touches_kept(a, g, i as int, wi, hi);
                }
            }
            if found {
                let ghost before = game@;
                let ghost was_done = done;
                game.set(i, Tile { state: State { kind: t.state.kind, visibility: Visibility::Revealed }, checked: true });
                done = false;
                proof {
                    assert(game@[i as int] == uncovered(a[i as int]));
                    assert(forall|k: int| 0 <= k < a.len() ==> dug(before[k], #[trigger] game@[k]));
                    assert forall|k: int| 0 <= k < a.len() && #[trigger] game@[k] != a[k]
                        implies supported(a, game@, k, wi, hi, |x: int| x) by {
                        let rk = |x: int| x;
                        assert(supported(a, before, k, wi, hi, rk));
                        let j = choose|j: int| adjacent(k, j, wi, hi) && #[trigger] revealed_zero(before[j]) && (before[j] == a[j] || rk(j) < rk(k));
                        assert(dug(before[j], game@[j]));
                        assert(revealed_zero(game@[j]));
                    }
                    if was_done {
                        assert(diggable(a, i as int, wi, hi));
                    }
                }
            }
        }
        i += 1;
    }
    proof {
        if done {
            assert forall|k: int| !#[trigger] diggable(a, k, wi, hi) by {
                if diggable(a, k, wi, hi) {
                    assert(game@[k] == uncovered(a[k]));
                }
            }
        }
    }
    done
}

/// Number of pending tiles.
pub open spec fn pending_count(g: Seq<Tile>) -> nat
    decreases g.len(),
{
    if g.len() == 0 {
        0
    } else {
        pending_count(g.drop_last()) + if pending(g.last()) { 1nat } else { 0nat }
    }
}

proof fn lemma_pending_count(a: Seq<Tile>, b: Seq<Tile>)
    requires
        b.len() == a.len(),
        forall|i: int| 0 <= i < a.len() ==> dug(a[i], #[trigger] b[i]),
    ensures
        pending_count(b) <= pending_count(a) <= a.len(),
        b != a ==> pending_count(b) < pending_count(a),
    decreases a.len(),
{
    if a.len() > 0 {
        let a1 = a.drop_last();
        let b1 = b.drop_last();
        assert forall|i: int| 0 <= i < a1.len() implies dug(a1[i], #[trigger] b1[i]) by {
            assert(dug(a[i], b[i]));
        }
        lemma_pending_count(a1, b1);
        assert(dug(a.last(), b.last()));
        if b != a {
            if b1 == a1 {
                assert(b.last() != a.last()) by {
                    if b.last() == a.last() {
                        assert forall|i: int| 0 <= i < a.len() implies b[i] == a[i] by {
                            if i < a1.len() {
                                assert(b1[i] == a1[i]);
                            }
                        }
                        assert(b =~= a);
                    }
                }
            }
        }
    } else {
        assert(b =~= a);
    }
}

/// A pass that reports a change leaves fewer pending tiles, and there are
/// at most as many pending tiles as cells: passes that change something
/// number at most `height * width`.
pub proof fn lemma_pass_progress(a: Seq<Tile>, b: Seq<Tile>, w: int, h: int)
    requires
        dig_pass(a, b, false, w, h),
    ensures
        pending_count(b) < pending_count(a) <= a.len(),
{
    lemma_pending_count(a, b);
}

/// Once a pass reports no change, the next pass reports no change either
/// and leaves the board as it is.
pub proof fn lemma_fixpoint_stable(a: Seq<Tile>, b: Seq<Tile>, c: Seq<Tile>, done: bool, w: int, h: int)
    requires
        dig_pass(a, b, true, w, h),
        dig_pass(b, c, done, w, h),
    ensures
        done,
        c == b,
{
}

/// What repeating `chain_dig` until it reports no change does to a board.
pub open spec fn flood(a: Seq<Tile>, b: Seq<Tile>, w: int, h: int) -> bool {
    &&& b.len() == a.len()
    &&& forall|i: int| 0 <= i < a.len() ==> dug(a[i], #[trigger] b[i])
    &&& exists|rank: spec_fn(int) -> int| #[trigger] ranked(a, b, w, h, rank)
    &&& settled(b, w, h)
}

/// Runs `chain_dig` until a pass changes nothing.
pub fn dig_to_fixpoint(game: &mut Vec<Tile>, h: usize, w: usize)
    requires
        board_ok(old(game)@, w as int, h as int),
    ensures
        flood(old(game)@, final(game)@, w as int, h as int),
{
    let ghost a = game@;
    let ghost n = a.len() as int;
    let ghost mut rank: spec_fn(int) -> int = |k: int| 0;
    let ghost mut p: int = 0;
    loop
        invariant
            board_ok(game@, w as int, h as int),
            game@.len() == a.len(),
            n == a.len(),
            p >= 0,
            forall|i: int| 0 <= i < a.len() ==> dug(a[i], #[trigger] game@[i]),
            ranked(a, game@, w as int, h as int, rank),
            forall|i: int| 0 <= i < a.len() && #[trigger] game@[i] != a[i] ==> 0 <= rank(i) < p * n,
        ensures
            flood(a, game@, w as int, h as int),
        decreases pending_count(game@),
    {
        let ghost before = game@;
        let done = chain_dig(game, h, w);
        proof {
            let g = game@;
            assert forall|i: int| 0 <= i < a.len() implies dug(a[i], #[trigger] g[i]) by {
                assert(dug(a[i], before[i]));
                assert(dug(before[i], g[i]));
            }
            let old_rank = rank;
            let pn = p * n;
            let new_rank = |k: int| if g[k] != before[k] { pn + k } else { old_rank(k) };
            let wi = w as int;
            let hi = h as int;
            assert(pn + n == (p + 1) * n) by (nonlinear_arith) requires pn == p * n;
            assert forall|i: int| 0 <= i < a.len() && #[trigger] g[i] != a[i]
                implies supported(a, g, i, wi, hi, new_rank) && 0 <= new_rank(i) < (p + 1) * n by {
                if g[i] == before[i] {
                    assert(supported(a, before, i, wi, hi, old_rank));
                    let j = choose|j: int| adjacent(i, j, wi, hi) && #[trigger] revealed_zero(before[j])
                        && (before[j] == a[j] || old_rank(j) < old_rank(i));
                    assert(dug(before[j], g[j]));
                    assert(g[j] == before[j]);
                    assert(revealed_zero(g[j]));
                } else {
                    let id = |x: int| x;
                    assert(supported(before, g, i, wi, hi, id));
                    let j = choose|j: int| adjacent(i, j, wi, hi) && #[trigger] revealed_zero(g[j])
                        && (g[j] == before[j] || id(j) < id(i));
                    if g[j] == before[j] {
                        if before[j] != a[j] {
                            assert(old_rank(j) < pn);
                        }
                    }
                    assert(g[j] == a[j] || new_rank(j) < new_rank(i));
                }
            }
            rank = new_rank;
            p = p + 1;
        }
        if done {
            proof { assert(settled(game@, w as int, h as int)); }
            break;
        }
        proof { lemma_pass_progress(before, game@, w as int, h as int); }
    }
}

/// A walk from cell `path[0]` through adjacent cells whose inner cells are
/// blanks, over safe, unflagged cells that no chain reveal has marked
/// while covered.
pub open spec fn blank_walk(g: Seq<Tile>, path: Seq<int>, w: int, h: int) -> bool {
    &&& path.len() >= 1
    &&& forall|k: int| 0 <= k < path.len() ==> 0 <= #[trigger] path[k] < g.len()
    &&& forall|k: int| 0 <= k < path.len() - 1 ==> adjacent(#[trigger] path[k], path[k + 1], w, h)
    &&& forall|k: int| 0 < k < path.len() - 1 ==> g[#[trigger] path[k]].state.kind == Kind::Count(0)
    &&& forall|k: int| 0 < k < path.len() ==> {
        let t = #[trigger] g[path[k]];
        &&& t.state.kind is Count
        &&& t.state.visibility != Visibility::Flagged
        &&& t.state.visibility == Visibility::Hidden ==> !t.checked
    }
}

/// Once the chain reveal has reached its fixpoint, every cell that a walk
/// of blanks leads to from an uncovered blank is uncovered: the region of
/// blanks connected to it and the numbered cells that border that region.
/// (`flood` further says, through `ranked`, that every cell the chain
/// reveal uncovered is reached from a blank uncovered before it started,
/// so nothing past that border is uncovered.)
pub proof fn lemma_flood_reaches(g: Seq<Tile>, path: Seq<int>, w: int, h: int)
    requires
        settled(g, w, h),
        blank_walk(g, path, w, h),
        revealed_zero(g[path[0]]),
    ensures
        g[path.last()].state.visibility == Visibility::Revealed,
    decreases path.len(),
{
    if path.len() > 1 {
        let p = path.drop_last();
        assert(blank_walk(g, p, w, h)) by {
            assert forall|k: int| 0 <= k < p.len() - 1 implies adjacent(#[trigger] p[k], p[k + 1], w, h) by {
                assert(p[k] == path[k] && p[k + 1] == path[k + 1]);
            }
            assert forall|k: int| 0 < k < p.len() - 1 implies g[#[trigger] p[k]].state.kind == Kind::Count(0) by {
                assert(p[k] == path[k]);
            }
        }
        lemma_flood_reaches(g, p, w, h);
        let n = path.len() - 1;
        let prev = path[n - 1];
        let last = path[n];
        assert(p.last() == prev);
        assert(adjacent(prev, last, w, h));
        assert(revealed_zero(g[prev])) by {
            if n - 1 > 0 {
                assert(g[path[n - 1]].state.kind == Kind::Count(0));
            }
        }
        assert(adjacent(last, prev, w, h));
        assert(touches_blank(g, last, w, h));
        assert(!diggable(g, last, w, h));
        let t = g[path[n]];
        assert(t.state.kind is Count);
    }
}

/// A walk from a blank uncovered in `a` to `i`, through adjacent cells
/// that are uncovered blanks in `b`.
pub open spec fn origin_walk(a: Seq<Tile>, b: Seq<Tile>, path: Seq<int>, i: int, w: int, h: int) -> bool {
    &&& path.len() >= 2
    &&& path.last() == i
    &&& revealed_zero(a[path[0]])
    &&& forall|k: int| 0 <= k < path.len() - 1 ==> adjacent(#[trigger] path[k], path[k + 1], w, h)
    &&& forall|k: int| 0 <= k < path.len() - 1 ==> revealed_zero(b[#[trigger] path[k]])
}

/// Every cell that the chain reveal uncovered is reached from a blank that
/// was uncovered before it started, through uncovered blanks: nothing
/// beyond the numbered border of a blank region is uncovered.
pub proof fn lemma_flood_origin(a: Seq<Tile>, b: Seq<Tile>, i: int, w: int, h: int)
    requires
        flood(a, b, w, h),
        a.len() == w * h,
        0 <= i < a.len(),
        b[i] != a[i],
    ensures
        exists|path: Seq<int>| #[trigger] origin_walk(a, b, path, i, w, h),
{
    let rank = choose|rank: spec_fn(int) -> int| #[trigger] ranked(a, b, w, h, rank);
    lemma_origin_by_rank(a, b, i, w, h, rank);
}

proof fn lemma_origin_by_rank(a: Seq<Tile>, b: Seq<Tile>, i: int, w: int, h: int, rank: spec_fn(int) -> int)
    requires
        b.len() == a.len(),
        forall|k: int| 0 <= k < a.len() ==> dug(a[k], #[trigger] b[k]),
        ranked(a, b, w, h, rank),
        a.len() == w * h,
        0 <= i < a.len(),
        b[i] != a[i],
    ensures
        exists|path: Seq<int>| #[trigger] origin_walk(a, b, path, i, w, h),
    decreases rank(i),
{
    let j = choose|j: int| adjacent(i, j, w, h) && #[trigger] revealed_zero(b[j]) && (b[j] == a[j] || rank(j) < rank(i));
    if b[j] == a[j] {
        let path = seq![j, i];
        assert(origin_walk(a, b, path, i, w, h));
    } else {
        assert(adjacent(j, i, w, h));
        assert(0 <= rank(j));
        lemma_origin_by_rank(a, b, j, w, h, rank);
        let p = choose|p: Seq<int>| #[trigger] origin_walk(a, b, p, j, w, h);
        let path = p.push(i);
        assert forall|k: int| 0 <= k < path.len() - 1 implies adjacent(#[trigger] path[k], path[k + 1], w, h) by {
            if k < p.len() - 1 {
                assert(path[k] == p[k] && path[k + 1] == p[k + 1]);
            }
        }
        assert forall|k: int| 0 <= k < path.len() - 1 implies revealed_zero(b[#[trigger] path[k]]) by {
            if k < p.len() - 1 {
                assert(path[k] == p[k]);
            }
        }
        assert(origin_walk(a, b, path, i, w, h));
    }
}

/// A safe cell left flagged keeps the session from being won.
pub proof fn lemma_wrong_flag_blocks_win(g: Seq<Tile>, i: int)
    requires
        0 <= i < g.len(),
        g[i].state.kind is Count,
        g[i].state.visibility == Visibility::Flagged,
    ensures
        !won(g),
{
    assert(g[i].state == g[i].state);
}

/// The session is won when every mine is covered or flagged and every safe
/// cell is uncovered.
pub open spec fn won(g: Seq<Tile>) -> bool {
    forall|i: int| 0 <= i < g.len() ==> {
        let s = #[trigger] g[i].state;
        if s.kind == Kind::Mine {
            s.visibility != Visibility::Revealed
        } else {
            s.visibility == Visibility::Revealed
        }
    }
}

pub fn check_win(game: &Vec<Tile>) -> (r: GameState)
    ensures
        r == (if won(game@) { GameState::Won } else { GameState::Playing }),
{
    let mut i: usize = 0;
    while i < game.len()
        invariant
            i <= game@.len(),
            forall|k: int| 0 <= k < i ==> {
                let s = #[trigger] game@[k].state;
                if s.kind == Kind::Mine {
                    s.visibility != Visibility::Revealed
                } else {
                    s.visibility == Visibility::Revealed
                }
            },
        decreases game.len() - i,
    {
        let s = game[i].state;
        let ok = match s.kind {
            Kind::Mine => s.visibility != Visibility::Revealed,
            Kind::Count(_) => s.visibility == Visibility::Revealed,
        };
        if !ok {
            return GameState::Playing;
        }
        i += 1;
    }
    GameState::Won
}

/// Clears the chain-reveal marks, as done at the start of each turn.
pub fn reset_checked(game: &mut Vec<Tile>)
    ensures
        final(game)@.len() == old(game)@.len(),
        forall|i: int| 0 <= i < old(game)@.len() ==> (#[trigger] final(game)@[i]).state == old(game)@[i].state
            && !final(game)@[i].checked,
{
    let ghost a = game@;
    let mut i: usize = 0;
    while i < game.len()
        invariant
            game@.len() == a.len(),
            i <= a.len(),
            forall|k: int| 0 <= k < a.len() ==> (#[trigger] game@[k]).state == a[k].state,
            forall|k: int| 0 <= k < i ==> !(#[trigger] game@[k]).checked,
        decreases a.len() - i,
    {
        let t = game[i];
        game.set(i, Tile { state: t.state, checked: false });
        i += 1;
    }
}

} // verus!
