//! Mine placement and the adjacency counts derived from it.

use vstd::prelude::*;
use crate::tile::{Kind, State, Tile, Visibility};
use crate::geometry::{
    get_neighbor_indexes, grid_ok, in_grid, lemma_neighbors_distinct, lemma_neighbors_symmetric,
    neighbors,
};

verus! {

/// How many entries of `ns` lie in `s`.
pub open spec fn count_in(ns: Seq<int>, s: Set<int>) -> nat
    decreases ns.len(),
{
    if ns.len() == 0 {
        0
    } else {
        count_in(ns.drop_last(), s) + if s.contains(ns.last()) { 1nat } else { 0nat }
    }
}

/// Cells of a layout that hold a mine (`None`).
pub open spec fn mine_set(l: Seq<Option<u8>>) -> Set<int> {
    Set::new(|j: int| 0 <= j < l.len() && l[j] is None)
}

/// Every safe cell holds the number of mines among its neighbours.
pub open spec fn counts_ok(l: Seq<Option<u8>>, w: int, h: int) -> bool {
    &&& l.len() == w * h
    &&& forall|i: int| 0 <= i < l.len() && (#[trigger] l[i]) is Some
        ==> l[i]->0 as int == count_in(neighbors(i, w, h), mine_set(l))
}

/// The cells named by the first `k` entries of `bombs`.
pub open spec fn first_bombs(bombs: Seq<usize>, k: int) -> Set<int> {
    Set::new(|j: int| exists|m: int| 0 <= m < k && bombs[m] as int == j)
}

proof fn lemma_count_insert(ns: Seq<int>, s: Set<int>, b: int)
    requires
        ns.no_duplicates(),
        !s.contains(b),
    ensures
        count_in(ns, s.insert(b)) == count_in(ns, s) + if ns.contains(b) { 1nat } else { 0nat },
        count_in(ns, s) + if ns.contains(b) { 1nat } else { 0nat } <= ns.len(),
    decreases ns.len(),
{
    if ns.len() > 0 {
        let d = ns.drop_last();
        assert(d.no_duplicates());
        lemma_count_insert(d, s, b);
        assert(ns.contains(b) <==> (d.contains(b) || ns.last() == b)) by {
            if ns.contains(b) {
                let k = choose|k: int| 0 <= k < ns.len() && ns[k] == b;
                if k < d.len() {
                    assert(d[k] == b);
                }
            }
            if d.contains(b) {
                let k = choose|k: int| 0 <= k < d.len() && d[k] == b;
                assert(ns[k] == b);
            }
            assert(ns[ns.len() - 1] == ns.last());
        }
        if ns.last() == b {
            assert(!d.contains(b)) by {
                if d.contains(b) {
                    let k = choose|k: int| 0 <= k < d.len() && d[k] == b;
                    assert(ns[k] == ns[ns.len() - 1]);
                }
            }
        }
    }
}

proof fn lemma_count_none(ns: Seq<int>, s: Set<int>)
    requires
        forall|x: int| !s.contains(x),
    ensures
        count_in(ns, s) == 0,
    decreases ns.len(),
{
    if ns.len() > 0 {
        lemma_count_none(ns.drop_last(), s);
    }
}

proof fn lemma_first_bombs_len(bombs: Seq<usize>, k: int)
    requires
        bombs.no_duplicates(),
        0 <= k <= bombs.len(),
    ensures
        first_bombs(bombs, k).finite(),
        first_bombs(bombs, k).len() == k,
    decreases k,
{
    if k == 0 {
        assert(first_bombs(bombs, 0) =~= Set::empty());
    } else {
        lemma_first_bombs_len(bombs, k - 1);
        let prev = first_bombs(bombs, k - 1);
        assert(first_bombs(bombs, k) =~= prev.insert(bombs[k - 1] as int));
        assert(!prev.contains(bombs[k - 1] as int));
    }
}

proof fn lemma_neighbors_len(i: int, w: int, h: int)
    ensures
        neighbors(i, w, h).len() <= 8,
{
}

/// Lays mines on the cells named by `bombs` and counts, for every other
/// cell, the mines around it.
pub fn place_mines(height: usize, width: usize, bombs: &Vec<usize>) -> (r: Vec<Option<u8>>)
    requires
        grid_ok(width as int, height as int),
        bombs@.no_duplicates(),
        forall|k: int| 0 <= k < bombs@.len() ==> (#[trigger] bombs@[k]) < width * height,
    ensures
        mine_set(r@) == first_bombs(bombs@, bombs@.len() as int),
        counts_ok(r@, width as int, height as int),
{
    let ghost wi = width as int;
    let ghost hi = height as int;
    let n: usize = width * height;
    let mut tiles: Vec<Option<u8>> = Vec::new();
    let mut z: usize = 0;
    while z < n
        invariant
            z <= n,
            tiles@.len() == z,
            forall|i: int| 0 <= i < z ==> #[trigger] tiles@[i] == Some(0u8),
        decreases n - z,
    {
        tiles.push(Some(0));
        z += 1;
    }
    proof {
        assert forall|i: int| 0 <= i < n implies count_in(neighbors(i, wi, hi), first_bombs(bombs@, 0)) == 0 by {
            lemma_count_none(neighbors(i, wi, hi), first_bombs(bombs@, 0));
        }
    }
    let mut k: usize = 0;
    while k < bombs.len()
        invariant
            grid_ok(wi, hi),
            wi == width, hi == height, n == wi * hi,
            bombs@.no_duplicates(),
            forall|q: int| 0 <= q < bombs@.len() ==> (#[trigger] bombs@[q]) < n,
            k <= bombs@.len(),
            tiles@.len() == n,
            forall|i: int| 0 <= i < n ==> ((#[trigger] tiles@[i] is None) <==> first_bombs(bombs@, k as int).contains(i)),
            forall|i: int| 0 <= i < n && (#[trigger] tiles@[i]) is Some
                ==> tiles@[i]->0 as int == count_in(neighbors(i, wi, hi), first_bombs(bombs@, k as int)),
        decreases bombs@.len() - k,
    {
        let b = bombs[k];
        let ghost s = first_bombs(bombs@, k as int);
        let ghost s2 = first_bombs(bombs@, k + 1);
        proof {
            assert(s2 =~= s.insert(b as int));
            assert(!s.contains(b as int));
        }
        tiles.set(b, None);
        let ghost c = tiles@;
        let nb = get_neighbor_indexes(b, width, height);
        proof {
            lemma_neighbors_distinct(b as int, wi, hi);
            assert forall|q: int| 0 <= q < nb@.len() implies in_grid(nb@[q] as int, wi, hi) by {
                assert(neighbors(b as int, wi, hi)[q] == nb@[q] as int);
            }
            assert forall|t: int| 0 <= t < n && (#[trigger] c[t]) is Some && neighbors(b as int, wi, hi).contains(t)
                implies c[t]->0 + 1 <= 8 by {
                lemma_neighbors_distinct(t, wi, hi);
                lemma_neighbors_symmetric(b as int, t, wi, hi);
                lemma_count_insert(neighbors(t, wi, hi), s, b as int);
                lemma_neighbors_len(t, wi, hi);
            }
        }
        let mut m: usize = 0;
        while m < nb.len()
            invariant
                grid_ok(wi, hi),
                wi == width, hi == height, n == wi * hi,
                tiles@.len() == n,
                c.len() == n,
                nb@.map_values(|v: usize| v as int) == neighbors(b as int, wi, hi),
                neighbors(b as int, wi, hi).no_duplicates(),
                forall|q: int| 0 <= q < nb@.len() ==> in_grid(nb@[q] as int, wi, hi),
                forall|t: int| 0 <= t < n && (#[trigger] c[t]) is Some && neighbors(b as int, wi, hi).contains(t)
                    ==> c[t]->0 + 1 <= 8,
                m <= nb@.len(),
                forall|t: int| 0 <= t < n ==> #[trigger] tiles@[t] == (
                    if (exists|q: int| 0 <= q < m && nb@[q] as int == t) && c[t] is Some {
                        Some((c[t]->0 + 1) as u8)
                    } else {
                        c[t]
                    }),
            decreases nb@.len() - m,
        {
            let t = nb[m];
            let ghost before = tiles@;
            proof {
                let ns = neighbors(b as int, wi, hi);
                assert(ns[m as int] == t as int);
                assert(ns.contains(t as int));
                assert(!exists|q: int| 0 <= q < m && nb@[q] as int == t) by {
                    if exists|q: int| 0 <= q < m && nb@[q] as int == t {
                        let q = choose|q: int| 0 <= q < m && nb@[q] as int == t;
                        assert(ns[q] == ns[m as int]);
                    }
                }
                assert(tiles@[t as int] == c[t as int]);
            }
            match tiles[t] {
                Some(x) => {
                    tiles.set(t, Some(x + 1));
                },
                None => {},
            }
            proof {
                assert forall|u: int| 0 <= u < n implies #[trigger] tiles@[u] == (
                    if (exists|q: int| 0 <= q < m + 1 && nb@[q] as int == u) && c[u] is Some {
                        Some((c[u]->0 + 1) as u8)
                    } else {
                        c[u]
                    }) by {
                    if u == t as int {
                        assert(nb@[m as int] as int == u);
                    } else {
                        assert(tiles@[u] == before[u]);
                        if exists|q: int| 0 <= q < m + 1 && nb@[q] as int == u {
                            let q = choose|q: int| 0 <= q < m + 1 && nb@[q] as int == u;
                            assert(q < m);
                        }
                    }
                }
            }
            m += 1;
        }
        proof {
            let ns = neighbors(b as int, wi, hi);
            assert forall|i: int| 0 <= i < n implies ((#[trigger] tiles@[i] is None) <==> s2.contains(i)) by {
                if i != b as int {
                    assert(c[i] == tiles@[i] || c[i] is Some);
                }
            }
            assert forall|i: int| 0 <= i < n && (#[trigger] tiles@[i]) is Some
                implies tiles@[i]->0 as int == count_in(neighbors(i, wi, hi), s2) by {
                lemma_neighbors_distinct(i, wi, hi);
                lemma_neighbors_symmetric(b as int, i, wi, hi);
                lemma_count_insert(neighbors(i, wi, hi), s, b as int);
                let hit = exists|q: int| 0 <= q < nb@.len() && nb@[q] as int == i;
                if ns.contains(i) {
                    let q = choose|q: int| 0 <= q < ns.len() && ns[q] == i;
                    assert(nb@[q] as int == i);
                }
                if hit {
                    let q = choose|q: int| 0 <= q < nb@.len() && nb@[q] as int == i;
                    assert(ns[q] == i);
                }
            }
        }
        k += 1;
    }
    proof {
        assert(mine_set(tiles@) =~= first_bombs(bombs@, bombs@.len() as int));
        let l = tiles@;
        assert forall|i: int| 0 <= i < l.len() && (#[trigger] l[i]) is Some
            implies l[i]->0 as int == count_in(neighbors(i, wi, hi), mine_set(l)) by {}
    }
    tiles
}

/// Relies on `rand::seq::index::sample` over `rand::thread_rng`: exactly
/// `amount` distinct indices from `0..length`. It panics when `amount`
/// exceeds `length`.
#[verifier::external_body]
fn sample_indices(length: usize, amount: usize) -> (r: Vec<usize>)
    requires
        amount <= length,
    ensures
        r@.len() == amount,
        r@.no_duplicates(),
        forall|k: int| 0 <= k < r@.len() ==> (#[trigger] r@[k]) < length,
{
    rand::seq::index::sample(&mut rand::thread_rng(), length, amount).into_vec()
}

/// Mine layout of a grid: `None` for a mine, `Some(n)` for a safe cell
/// with `n` mines around it. Mines are drawn uniformly without repetition.
pub fn gen_bomb_map(height: usize, width: usize, bomb_amount: usize) -> (r: Vec<Option<u8>>)
    requires
        grid_ok(width as int, height as int),
        bomb_amount < width * height,
    ensures
        counts_ok(r@, width as int, height as int),
        mine_set(r@).finite(),
        mine_set(r@).len() == bomb_amount,
{
    let bombs = sample_indices(width * height, bomb_amount);
    let r = place_mines(height, width, &bombs);
    proof {
        lemma_first_bombs_len(bombs@, bombs@.len() as int);
    }
    r
}

/// Why a board cannot be made.
#[derive(Clone, Copy, Debug, PartialEq, Eq, Structural)]
pub enum BoardError {
    /// The grid has no cell.
    EmptyGrid,
    /// The number of cells does not fit in `usize`.
    GridTooLarge,
    /// There must be at least one safe cell.
    TooManyMines,
}

/// The tile a layout entry starts as: covered and unchecked.
pub open spec fn fresh_tile(e: Option<u8>) -> Tile {
    Tile {
        state: State {
            kind: match e {
                Some(n) => Kind::Count(n),
                None => Kind::Mine,
            },
            visibility: Visibility::Hidden,
        },
        checked: false,
    }
}

/// The mine layout a board was made from.
pub open spec fn layout_of(g: Seq<Tile>) -> Seq<Option<u8>> {
    g.map_values(|t: Tile| match t.state.kind {
        Kind::Count(n) => Some(n),
        Kind::Mine => None,
    })
}

/// A new board: every tile covered and unchecked, with consistent counts
/// and `bomb_amount` mines.
pub open spec fn new_board(g: Seq<Tile>, height: int, width: int, bomb_amount: int) -> bool {
    &&& g.len() == width * height
    &&& forall|i: int| 0 <= i < g.len() ==> #[trigger] g[i] == fresh_tile(layout_of(g)[i])
    &&& counts_ok(layout_of(g), width, height)
    &&& mine_set(layout_of(g)).finite()
    &&& mine_set(layout_of(g)).len() == bomb_amount
}

/// Makes a board of `height` rows and `width` columns with `bomb_amount`
/// mines at random places.
pub fn new_game(height: usize, width: usize, bomb_amount: usize) -> (r: Result<Vec<Tile>, BoardError>)
    ensures
        height == 0 || width == 0 <==> r == Err::<Vec<Tile>, BoardError>(BoardError::EmptyGrid),
        height > 0 && width > 0 && height * width > usize::MAX
            <==> r == Err::<Vec<Tile>, BoardError>(BoardError::GridTooLarge),
        height > 0 && width > 0 && height * width <= usize::MAX && bomb_amount >= height * width
            <==> r == Err::<Vec<Tile>, BoardError>(BoardError::TooManyMines),
        r is Ok ==> new_board(r->Ok_0@, height as int, width as int, bomb_amount as int),
{
    if height == 0 || width == 0 {
        return Err(BoardError::EmptyGrid);
    }
    let n = match width.checked_mul(height) {
        Some(n) => n,
        None => {
            proof { assert(height * width == width * height) by (nonlinear_arith); }
            return Err(BoardError::GridTooLarge);
        },
    };
    proof { assert(height * width == width * height) by (nonlinear_arith); }
    if bomb_amount >= n {
        return Err(BoardError::TooManyMines);
    }
    let map = gen_bomb_map(height, width, bomb_amount);
    let game = board_from_layout(&map);
    proof {
        assert(layout_of(game@) =~= map@);
    }
    Ok(game)
}

/// Covered, unchecked tiles for a mine layout.
pub fn board_from_layout(map: &Vec<Option<u8>>) -> (game: Vec<Tile>)
    ensures
        game@.len() == map@.len(),
        forall|k: int| 0 <= k < map@.len() ==> #[trigger] game@[k] == fresh_tile(map@[k]),
        layout_of(game@) == map@,
{
    let mut game: Vec<Tile> = Vec::new();
    let mut i: usize = 0;
    while i < map.len()
        invariant
            i <= map@.len(),
            game@.len() == i,
            forall|k: int| 0 <= k < i ==> #[trigger] game@[k] == fresh_tile(map@[k]),
        decreases map.len() - i,
    {
        let kind = match map[i] {
            Some(x) => Kind::Count(x),
            None => Kind::Mine,
        };
        game.push(Tile { state: State { kind, visibility: Visibility::Hidden }, checked: false });
        i += 1;
    }
    proof {
        assert(layout_of(game@) =~= map@);
    }
    game
}

} // verus!
