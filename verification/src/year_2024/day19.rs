//! Decryption of a character grid that has been scrambled by repeated
//! neighborhood rotations.
//!
//! The input names a rotation key and a grid.  One round turns the
//! 8-neighborhood of every interior cell, row-major, one key directive per
//! cell, directives consumed cyclically.  Rather than simulating a huge
//! number of rounds, the engine builds the one-round source mapping, splits
//! it into permutation cycles, and advances every cycle by the round count
//! modulo its own length.

use vstd::arithmetic::div_mod::{
    lemma_add_mod_noop_right, lemma_div_pos_is_pos, lemma_fundamental_div_mod,
    lemma_fundamental_div_mod_converse,
    lemma_mod_add_multiples_vanish, lemma_mod_bound, lemma_mod_self_0, lemma_multiply_divide_lt,
    lemma_small_mod,
};
use vstd::arithmetic::mul::{lemma_mul_nonnegative, lemma_mul_strictly_positive};
use vstd::prelude::*;
use vstd::set_lib::{lemma_int_range, lemma_len_subset, set_int_range};

verus! {

/// A grid position: row then column.
pub type Coord = (usize, usize);

/// `g` is a rectangle of `m` rows and `n` columns.
pub open spec fn rect_wf<T>(g: Seq<Seq<T>>, m: int, n: int) -> bool {
    g.len() == m && m >= 1 && n >= 1 && forall|i: int| 0 <= i < m ==> (#[trigger] g[i]).len() == n
}

/// `p` lies inside an `m` by `n` grid.
pub open spec fn in_grid(p: Coord, m: int, n: int) -> bool {
    p.0 < m && p.1 < n
}

/// The mapping entry at `p`.
pub open spec fn map_at(mp: Seq<Seq<Coord>>, p: Coord) -> Coord {
    mp[p.0 as int][p.1 as int]
}

/// The mapping has grid shape and every entry is a grid coordinate.
pub open spec fn map_wf(mp: Seq<Seq<Coord>>, m: int, n: int) -> bool {
    rect_wf(mp, m, n) && forall|r: int, c: int|
        0 <= r < m && 0 <= c < n ==> in_grid(#[trigger] mp[r][c], m, n)
}

/// No two cells draw their value from the same source.
pub open spec fn map_inj(mp: Seq<Seq<Coord>>, m: int, n: int) -> bool {
    forall|r1: int, c1: int, r2: int, c2: int|
        0 <= r1 < m && 0 <= c1 < n && 0 <= r2 < m && 0 <= c2 < n && #[trigger] mp[r1][c1]
            == #[trigger] mp[r2][c2] ==> r1 == r2 && c1 == c2
}

/// The `k`-th cell of the ring around `(r, c)`, clockwise from the top-left
/// corner.
pub open spec fn ring_pos(r: int, c: int, k: int) -> (int, int) {
    if k == 0 {
        (r - 1, c - 1)
    } else if k == 1 {
        (r - 1, c)
    } else if k == 2 {
        (r - 1, c + 1)
    } else if k == 3 {
        (r, c + 1)
    } else if k == 4 {
        (r + 1, c + 1)
    } else if k == 5 {
        (r + 1, c)
    } else if k == 6 {
        (r + 1, c - 1)
    } else {
        (r, c - 1)
    }
}

/// The ring slot of `(i, j)` around the center `(r, c)`, or -1 when `(i, j)`
/// is not on that ring.
pub open spec fn ring_slot(r: int, c: int, i: int, j: int) -> int {
    if i == r - 1 && j == c - 1 {
        0
    } else if i == r - 1 && j == c {
        1
    } else if i == r - 1 && j == c + 1 {
        2
    } else if i == r && j == c + 1 {
        3
    } else if i == r + 1 && j == c + 1 {
        4
    } else if i == r + 1 && j == c {
        5
    } else if i == r + 1 && j == c - 1 {
        6
    } else if i == r && j == c - 1 {
        7
    } else {
        -1
    }
}

/// The ring slot a rotated cell draws its value from: its clockwise
/// neighbor for an `R` directive, its counter-clockwise neighbor otherwise.
pub open spec fn rot_src(rotation: char, k: int) -> int {
    if rotation == 'R' {
        (k + 7) % 8
    } else {
        (k + 1) % 8
    }
}

/// One ring rotation around `(r, c)`: each cell of the ring takes the value
/// of its ring neighbor, every other cell keeps its value.
pub open spec fn rotate_spec<T>(g: Seq<Seq<T>>, r: int, c: int, rotation: char) -> Seq<Seq<T>> {
    Seq::new(
        g.len(),
        |i: int|
            Seq::new(
                g[i].len(),
                |j: int|
                    {
                        let k = ring_slot(r, c, i, j);
                        if k >= 0 {
                            let s = ring_pos(r, c, rot_src(rotation, k));
                            g[s.0][s.1]
                        } else {
                            g[i][j]
                        }
                    },
            ),
    )
}

/// The identity mapping: every cell draws its value from itself.
pub open spec fn identity_map(m: int, n: int) -> Seq<Seq<Coord>> {
    Seq::new(m as nat, |i: int| Seq::new(n as nat, |j: int| (i as usize, j as usize)))
}

/// The interior cell whose ring the `t`-th rotation of a round turns, for a
/// grid of width `n`: interior cells are visited row-major.
pub open spec fn interior_cell(n: int, t: int) -> (int, int) {
    (1 + t / (n - 2), 1 + t % (n - 2))
}

/// The mapping after the first `t` rotations of a round.
pub open spec fn mapping_after(m: int, n: int, key: Seq<char>, t: int) -> Seq<Seq<Coord>>
    decreases t,
{
    if t <= 0 {
        identity_map(m, n)
    } else {
        let prev = mapping_after(m, n, key, t - 1);
        let cell = interior_cell(n, t - 1);
        rotate_spec(prev, cell.0, cell.1, key[(t - 1) % key.len() as int])
    }
}

/// The one-round source mapping of an `m` by `n` grid under `key`: cell `p`
/// holds, after one round, the value the grid held at
/// `round_mapping_spec(m, n, key)[p.0][p.1]`.  Grids without interior cells
/// are left as they are.
pub open spec fn round_mapping_spec(m: int, n: int, key: Seq<char>) -> Seq<Seq<Coord>> {
    if m >= 3 && n >= 3 {
        mapping_after(m, n, key, (m - 2) * (n - 2))
    } else {
        identity_map(m, n)
    }
}

/// `p` followed `k` times through the mapping.
pub open spec fn iter_map(mp: Seq<Seq<Coord>>, p: Coord, k: nat) -> Coord
    decreases k,
{
    if k == 0 {
        p
    } else {
        map_at(mp, iter_map(mp, p, (k - 1) as nat))
    }
}

/// Turns the ring of the interior cell `(row, col)` by one position, as the
/// key directive `rotation` asks: the grid values stay, only their places
/// move.
pub fn rotate_grid(grid: &mut Vec<Vec<Coord>>, row: usize, col: usize, rotation: char)
    requires
        rect_wf(old(grid).deep_view(), old(grid)@.len() as int, old(grid).deep_view()[0].len() as int),
        1 <= row && row + 1 < old(grid)@.len(),
        1 <= col && col + 1 < old(grid).deep_view()[0].len(),
    ensures
        final(grid).deep_view() == rotate_spec(
            old(grid).deep_view(),
            row as int,
            col as int,
            rotation,
        ),
{
    let ghost g0 = old(grid).deep_view();
    let nrows = grid.len();
    let ncols = grid[0].len();
    proof {
        assert(ncols == g0[0].len());
        assert forall|i: int| 0 <= i < nrows implies (#[trigger] grid@[i])@.len() == ncols by {
            assert(g0[i].len() == ncols);
            assert(g0[i] == grid@[i].deep_view());
        }
    }
    let r0 = row - 1;
    let r2 = row + 1;
    let c0 = col - 1;
    let c2 = col + 1;
    let v0: Coord = grid[r0][c0];
    let v1: Coord = grid[r0][col];
    let v2: Coord = grid[r0][c2];
    let v3: Coord = grid[row][c2];
    let v4: Coord = grid[r2][c2];
    let v5: Coord = grid[r2][col];
    let v6: Coord = grid[r2][c0];
    let v7: Coord = grid[row][c0];
    if rotation == 'R' {
        grid[r0][c0] = v7;
        grid[r0][col] = v0;
        grid[r0][c2] = v1;
        grid[row][c2] = v2;
        grid[r2][c2] = v3;
        grid[r2][col] = v4;
        grid[r2][c0] = v5;
        grid[row][c0] = v6;
    } else {
        grid[r0][c0] = v1;
        grid[r0][col] = v2;
        grid[r0][c2] = v3;
        grid[row][c2] = v4;
        grid[r2][c2] = v5;
        grid[r2][col] = v6;
        grid[r2][c0] = v7;
        grid[row][c0] = v0;
    }
    proof {
        assert(final(grid).deep_view() =~~= rotate_spec(g0, row as int, col as int, rotation));
    }
}

/// Builds the one-round source mapping for the shape of `grid` under `key`:
/// starting from the identity, the ring of every interior cell is turned
/// once, row-major, one key directive per cell, directives consumed
/// cyclically.
#[verifier::loop_isolation(false)]
pub fn compute_round_mapping(grid: &Vec<Vec<char>>, key: &Vec<char>) -> (mapping: Vec<
    Vec<Coord>,
>)
    requires
        rect_wf(grid.deep_view(), grid@.len() as int, grid.deep_view()[0].len() as int),
        key@.len() > 0,
    ensures
        mapping.deep_view() == round_mapping_spec(
            grid@.len() as int,
            grid.deep_view()[0].len() as int,
            key@,
        ),
{
    let m = grid.len();
    let n = grid[0].len();
    let ghost mi = m as int;
    let ghost ni = n as int;
    proof {
        assert(ni == grid.deep_view()[0].len());
    }
    let mut mapping: Vec<Vec<Coord>> = Vec::new();
    let mut row: usize = 0;
    while row < m
        invariant
            row <= m,
            mapping@.len() == row,
            forall|i: int|
                0 <= i < row ==> (#[trigger] mapping@[i])@.len() == n && forall|j: int|
                    0 <= j < n ==> mapping@[i]@[j] == (i as usize, j as usize),
        decreases m - row,
    {
        let mut line: Vec<Coord> = Vec::new();
        let mut col: usize = 0;
        while col < n
            invariant
                col <= n,
                line@.len() == col,
                forall|j: int| 0 <= j < col ==> line@[j] == (row as usize, j as usize),
            decreases n - col,
        {
            line.push((row, col));
            col = col + 1;
        }
        mapping.push(line);
        row = row + 1;
    }
    proof {
        assert(mapping.deep_view() =~~= identity_map(mi, ni));
    }
    if m < 3 || n < 3 {
        return mapping;
    }
    let klen = key.len();
    let mut key_index: usize = 0;
    let mut row: usize = 1;
    while row < m - 1
        invariant
            1 <= row <= m - 1,
            mapping.deep_view() == mapping_after(mi, ni, key@, (row - 1) * (ni - 2)),
            key_index == ((row - 1) * (ni - 2)) % key@.len() as int,
            key_index < key@.len(),
        decreases m - row,
    {
        let mut col: usize = 1;
        while col < n - 1
            invariant
                1 <= col <= n - 1,
                1 <= row <= m - 2,
                mapping.deep_view() == mapping_after(
                    mi,
                    ni,
                    key@,
                    (row - 1) * (ni - 2) + (col - 1),
                ),
                key_index == ((row - 1) * (ni - 2) + (col - 1)) % key@.len() as int,
                key_index < key@.len(),
            decreases n - col,
        {
            let ghost t = (row - 1) * (ni - 2) + (col - 1);
            proof {
                lemma_mapping_after_rect(mi, ni, key@, t);
                lemma_fundamental_div_mod_converse(t, ni - 2, row - 1, col - 1);
                assert(interior_cell(ni, t) == (row as int, col as int));
            }
            rotate_grid(&mut mapping, row, col, key[key_index]);
            key_index = key_index + 1;
            if key_index == klen {
                key_index = 0;
            }
            proof {
                lemma_add_mod_noop_right(1, t, key@.len() as int);
                if key_index == 0 {
                    lemma_mod_self_0(key@.len() as int);
                } else {
                    lemma_small_mod(key_index as nat, key@.len());
                }
                assert(key_index == (t + 1) % key@.len() as int);
            }
            col = col + 1;
        }
        proof {
            assert((row - 1) * (ni - 2) + (ni - 2) == ((row + 1) - 1) * (ni - 2))
                by (nonlinear_arith);
        }
        row = row + 1;
    }
    proof {
        assert((row - 1) * (ni - 2) == (mi - 2) * (ni - 2));
    }
    mapping
}

/// The mapping keeps its rectangular shape through every rotation of a
/// round.
proof fn lemma_mapping_after_rect(m: int, n: int, key: Seq<char>, t: int)
    requires
        m >= 1,
        n >= 1,
    ensures
        rect_wf(mapping_after(m, n, key, t), m, n),
    decreases (if t > 0 {
        t
    } else {
        0
    }),
{
    if t <= 0 {
        assert(rect_wf(identity_map(m, n), m, n));
    } else {
        lemma_mapping_after_rect(m, n, key, t - 1);
    }
}

/// A ring rotation only moves values among the eight ring cells, so it
/// keeps the mapping well-formed and injective.
#[verifier::rlimit(60)]
#[verifier::spinoff_prover]
proof fn lemma_rotate_preserves(mp: Seq<Seq<Coord>>, m: int, n: int, r: int, c: int, rot: char)
    requires
        map_wf(mp, m, n),
        1 <= r < m - 1,
        1 <= c < n - 1,
    ensures
        map_wf(rotate_spec(mp, r, c, rot), m, n),
        map_inj(mp, m, n) ==> map_inj(rotate_spec(mp, r, c, rot), m, n),
{
    let g = rotate_spec(mp, r, c, rot);
    assert forall|k: int| 0 <= k < 8 implies 0 <= #[trigger] rot_src(rot, k) < 8 by {
        lemma_mod_bound(k + 7, 8);
        lemma_mod_bound(k + 1, 8);
    }
    assert forall|i: int, j: int| 0 <= i < m && 0 <= j < n implies in_grid(
        #[trigger] g[i][j],
        m,
        n,
    ) by {
        let k = ring_slot(r, c, i, j);
        if k >= 0 {
            let s = ring_pos(r, c, rot_src(rot, k));
            assert(0 <= s.0 < m && 0 <= s.1 < n);
            assert(g[i][j] == mp[s.0][s.1]);
        }
    }
    if map_inj(mp, m, n) {
        assert forall|r1: int, c1: int, r2: int, c2: int|
            0 <= r1 < m && 0 <= c1 < n && 0 <= r2 < m && 0 <= c2 < n && #[trigger] g[r1][c1]
                == #[trigger] g[r2][c2] implies r1 == r2 && c1 == c2 by {
            let k1 = ring_slot(r, c, r1, c1);
            let k2 = ring_slot(r, c, r2, c2);
            let s1 = if k1 >= 0 {
                ring_pos(r, c, rot_src(rot, k1))
            } else {
                (r1, c1)
            };
            let s2 = if k2 >= 0 {
                ring_pos(r, c, rot_src(rot, k2))
            } else {
                (r2, c2)
            };
            assert(g[r1][c1] == mp[s1.0][s1.1]);
            assert(g[r2][c2] == mp[s2.0][s2.1]);
            assert(0 <= s1.0 < m && 0 <= s1.1 < n);
            assert(0 <= s2.0 < m && 0 <= s2.1 < n);
            assert(s1 == s2);
        }
    }
}

/// The mapping stays well-formed and injective through the rotations of a
/// round.
proof fn lemma_mapping_after_props(m: int, n: int, key: Seq<char>, t: int)
    requires
        3 <= m <= usize::MAX,
        3 <= n <= usize::MAX,
        key.len() > 0,
        t <= (m - 2) * (n - 2),
    ensures
        map_wf(mapping_after(m, n, key, t), m, n),
        map_inj(mapping_after(m, n, key, t), m, n),
    decreases (if t > 0 {
        t
    } else {
        0
    }),
{
    if t <= 0 {
        assert(map_wf(identity_map(m, n), m, n));
        assert(map_inj(identity_map(m, n), m, n));
    } else {
        lemma_mapping_after_props(m, n, key, t - 1);
        let cell = interior_cell(n, t - 1);
        lemma_multiply_divide_lt(t - 1, n - 2, m - 2);
        lemma_div_pos_is_pos(t - 1, n - 2);
        lemma_mod_bound(t - 1, n - 2);
        assert(1 <= cell.0 < m - 1 && 1 <= cell.1 < n - 1);
        lemma_rotate_preserves(
            mapping_after(m, n, key, t - 1),
            m,
            n,
            cell.0,
            cell.1,
            key[(t - 1) % key.len() as int],
        );
    }
}

/// The round mapping is a permutation of the grid coordinates: it has grid
/// shape, every entry is a grid coordinate, and no two cells share a source.
/// Together with the cycle cover returned by `compute_cycles` this makes
/// every coordinate appear exactly once as a destination and once as a
/// source.
pub proof fn lemma_round_mapping_bijective(m: int, n: int, key: Seq<char>)
    requires
        1 <= m <= usize::MAX,
        1 <= n <= usize::MAX,
        key.len() > 0,
    ensures
        map_wf(round_mapping_spec(m, n, key), m, n),
        map_inj(round_mapping_spec(m, n, key), m, n),
{
    if m >= 3 && n >= 3 {
        lemma_mul_nonnegative(m - 2, n - 2);
        lemma_mapping_after_props(m, n, key, (m - 2) * (n - 2));
    } else {
        assert(map_wf(identity_map(m, n), m, n));
        assert(map_inj(identity_map(m, n), m, n));
    }
}

/// Distinct grid coordinates are at most as many as the grid has cells.
proof fn lemma_distinct_coords_bounded(s: Seq<Coord>, m: int, n: int)
    requires
        0 < m,
        0 < n,
        forall|i: int| 0 <= i < s.len() ==> in_grid(#[trigger] s[i], m, n),
        forall|i1: int, i2: int|
            0 <= i1 < i2 < s.len() ==> #[trigger] s[i1] != #[trigger] s[i2],
    ensures
        s.len() <= m * n,
{
    let f = |p: Coord| p.0 as int * n + p.1 as int;
    let enc = s.map_values(f);
    assert forall|i1: int, i2: int| 0 <= i1 < i2 < enc.len() implies enc[i1] != enc[i2] by {
        let p1 = s[i1];
        let p2 = s[i2];
        assert(p1 != p2);
        assert(p1.0 as int * n + p1.1 != p2.0 as int * n + p2.1) by (nonlinear_arith)
            requires
                (p1.0 != p2.0 || p1.1 != p2.1),
                0 <= p1.1 < n,
                0 <= p2.1 < n,
                p1.0 >= 0,
                p2.0 >= 0,
        ;
    }
    assert(enc.no_duplicates());
    enc.unique_seq_to_set();
    assert forall|x: int| enc.to_set().contains(x) implies set_int_range(0, m * n).contains(
        x,
    ) by {
        let i = choose|i: int| 0 <= i < enc.len() && enc[i] == x;
        let p = s[i];
        assert(x == p.0 as int * n + p.1);
        assert(0 <= p.0 as int * n + p.1 < m * n) by (nonlinear_arith)
            requires
                0 <= p.0 < m,
                0 <= p.1 < n,
        ;
    }
    lemma_int_range(0, m * n);
    lemma_len_subset(enc.to_set(), set_int_range(0, m * n));
}

/// `p` is listed somewhere in `cs`.
pub open spec fn in_cycles(p: Coord, cs: Seq<Seq<Coord>>) -> bool {
    exists|a: int, i: int| 0 <= a < cs.len() && 0 <= i < cs[a].len() && #[trigger] cs[a][i] == p
}

/// Every coordinate of every cycle lies in the grid.
pub open spec fn cycles_in_grid(cs: Seq<Seq<Coord>>, m: int, n: int) -> bool {
    forall|a: int, i: int|
        0 <= a < cs.len() && 0 <= i < cs[a].len() ==> in_grid(#[trigger] cs[a][i], m, n)
}

/// Every cycle is nonempty and the mapping sends each member to the next
/// member, cyclically.
pub open spec fn cycles_closed(cs: Seq<Seq<Coord>>, mp: Seq<Seq<Coord>>) -> bool {
    (forall|a: int| 0 <= a < cs.len() ==> (#[trigger] cs[a]).len() > 0) && (forall|a: int, i: int|
        0 <= a < cs.len() && 0 <= i < cs[a].len() ==> map_at(mp, #[trigger] cs[a][i]) == cs[a][(i
            + 1) % cs[a].len() as int])
}

/// No coordinate is listed twice, within one cycle or across two.
pub open spec fn cycles_distinct(cs: Seq<Seq<Coord>>) -> bool {
    forall|a1: int, i1: int, a2: int, i2: int|
        0 <= a1 < cs.len() && 0 <= i1 < cs[a1].len() && 0 <= a2 < cs.len() && 0 <= i2
            < cs[a2].len() && !(a1 == a2 && i1 == i2) ==> #[trigger] cs[a1][i1] != #[trigger] cs[a2][i2]
}

/// Every grid coordinate is listed somewhere.
pub open spec fn cycles_cover(cs: Seq<Seq<Coord>>, m: int, n: int) -> bool {
    forall|r: int, c: int|
        0 <= r < m && 0 <= c < n ==> #[trigger] in_cycles((r as usize, c as usize), cs)
}

/// In a closed cycle, every member is the mapping's image of the member
/// before it.
proof fn lemma_cycle_pred(cs: Seq<Seq<Coord>>, mp: Seq<Seq<Coord>>, a: int, j: int)
    requires
        cycles_closed(cs, mp),
        0 <= a < cs.len(),
        0 <= j < cs[a].len(),
    ensures
        map_at(
            mp,
            cs[a][if j == 0 {
                cs[a].len() - 1
            } else {
                j - 1
            }],
        ) == cs[a][j],
{
    let len = cs[a].len() as int;
    let i0: int = if j == 0 {
        len - 1
    } else {
        j - 1
    };
    assert(map_at(mp, cs[a][i0]) == cs[a][(i0 + 1) % len]);
    if j == 0 {
        lemma_mod_self_0(len);
    } else {
        lemma_small_mod(j as nat, len as nat);
    }
}

/// One step of the cycle walk: the next position is the next power of the
/// mapping, it cannot revisit the walked coordinates other than the start,
/// and it cannot enter an already closed cycle.
#[verifier::rlimit(80)]
#[verifier::spinoff_prover]
proof fn lemma_walk_step(
    gm: Seq<Seq<Coord>>,
    gcs: Seq<Seq<Coord>>,
    cyc: Seq<Coord>,
    start: Coord,
    pos: Coord,
    m: int,
    n: int,
)
    requires
        map_wf(gm, m, n),
        map_inj(gm, m, n),
        cycles_closed(gcs, gm),
        cycles_in_grid(gcs, m, n),
        cyc.len() >= 1,
        cyc[0] == start,
        forall|i: int|
            0 <= i < cyc.len() ==> #[trigger] cyc[i] == iter_map(gm, start, i as nat) && in_grid(
                cyc[i],
                m,
                n,
            ),
        forall|i1: int, i2: int|
            0 <= i1 < i2 < cyc.len() ==> #[trigger] cyc[i1] != #[trigger] cyc[i2],
        forall|i: int| 0 <= i < cyc.len() ==> !in_cycles(#[trigger] cyc[i], gcs),
        pos == map_at(gm, cyc[cyc.len() - 1]),
    ensures
        pos == iter_map(gm, start, cyc.len() as nat),
        in_grid(pos, m, n),
        forall|i: int| 1 <= i < cyc.len() ==> pos != #[trigger] cyc[i],
        !in_cycles(pos, gcs),
{
    let k = cyc.len() as int;
    let prev = cyc[k - 1];
    assert(prev == iter_map(gm, start, (k - 1) as nat));
    assert(pos == iter_map(gm, start, k as nat));
    assert(in_grid(pos, m, n));
    assert forall|i: int| 1 <= i < k implies pos != #[trigger] cyc[i] by {
        if pos == cyc[i] {
            assert(cyc[i] == map_at(gm, cyc[i - 1]));
            let q = cyc[i - 1];
            assert(gm[q.0 as int][q.1 as int] == gm[prev.0 as int][prev.1 as int]);
            assert(q == prev);
            assert(false);
        }
    }
    if in_cycles(pos, gcs) {
        let (a, j): (int, int) = choose|a: int, j: int|
            0 <= a < gcs.len() && 0 <= j < gcs[a].len() && #[trigger] gcs[a][j] == pos;
        lemma_cycle_pred(gcs, gm, a, j);
        let j0: int = if j == 0 {
            gcs[a].len() - 1
        } else {
            j - 1
        };
        let q = gcs[a][j0];
        assert(in_grid(q, m, n));
        assert(gm[q.0 as int][q.1 as int] == gm[prev.0 as int][prev.1 as int]);
        assert(q == prev);
        assert(in_cycles(prev, gcs));
        assert(false);
    }
}

/// A finished walk is one more cycle: appending it keeps the collection
/// closed, distinct and inside the grid, and extends the listed coordinates
/// by exactly the walked ones.
#[verifier::rlimit(80)]
#[verifier::spinoff_prover]
proof fn lemma_close_cycle(
    gm: Seq<Seq<Coord>>,
    gcs: Seq<Seq<Coord>>,
    cyc: Seq<Coord>,
    start: Coord,
    m: int,
    n: int,
)
    requires
        cycles_closed(gcs, gm),
        cycles_distinct(gcs),
        cycles_in_grid(gcs, m, n),
        cyc.len() >= 1,
        cyc[0] == start,
        forall|i: int|
            0 <= i < cyc.len() ==> #[trigger] cyc[i] == iter_map(gm, start, i as nat) && in_grid(
                cyc[i],
                m,
                n,
            ),
        forall|i1: int, i2: int|
            0 <= i1 < i2 < cyc.len() ==> #[trigger] cyc[i1] != #[trigger] cyc[i2],
        forall|i: int| 0 <= i < cyc.len() ==> !in_cycles(#[trigger] cyc[i], gcs),
        iter_map(gm, start, cyc.len() as nat) == start,
    ensures
        cycles_closed(gcs.push(cyc), gm),
        cycles_distinct(gcs.push(cyc)),
        cycles_in_grid(gcs.push(cyc), m, n),
        forall|p: Coord|
            #[trigger] in_cycles(p, gcs.push(cyc)) <==> in_cycles(p, gcs) || cyc.contains(p),
{
    let new_gcs = gcs.push(cyc);
    let k = cyc.len() as int;
    assert forall|a: int, i: int|
        0 <= a < new_gcs.len() && 0 <= i < new_gcs[a].len() implies map_at(
        gm,
        #[trigger] new_gcs[a][i],
    ) == new_gcs[a][(i + 1) % new_gcs[a].len() as int] by {
        if a < gcs.len() {
            assert(map_at(gm, gcs[a][i]) == gcs[a][(i + 1) % gcs[a].len() as int]);
        } else {
            assert(new_gcs[a] == cyc);
            if i < k - 1 {
                assert(cyc[i + 1] == iter_map(gm, start, (i + 1) as nat));
                assert(map_at(gm, cyc[i]) == cyc[i + 1]);
                lemma_small_mod((i + 1) as nat, k as nat);
            } else {
                assert(cyc[k - 1] == iter_map(gm, start, (k - 1) as nat));
                assert(map_at(gm, cyc[k - 1]) == iter_map(gm, start, k as nat));
                lemma_mod_self_0(k);
            }
        }
    }
    assert forall|a1: int, i1: int, a2: int, i2: int|
        0 <= a1 < new_gcs.len() && 0 <= i1 < new_gcs[a1].len() && 0 <= a2 < new_gcs.len() && 0 <= i2
            < new_gcs[a2].len() && !(a1 == a2 && i1 == i2) implies #[trigger] new_gcs[a1][i1]
        != #[trigger] new_gcs[a2][i2] by {
        if a1 < gcs.len() && a2 < gcs.len() {
            assert(gcs[a1][i1] != gcs[a2][i2]);
        } else if a1 == gcs.len() && a2 == gcs.len() {
            assert(cyc[i1] != cyc[i2]);
        } else if a1 < gcs.len() {
            if new_gcs[a1][i1] == new_gcs[a2][i2] {
                assert(gcs[a1][i1] == cyc[i2]);
                assert(in_cycles(cyc[i2], gcs));
                assert(false);
            }
        } else {
            if new_gcs[a1][i1] == new_gcs[a2][i2] {
                assert(gcs[a2][i2] == cyc[i1]);
                assert(in_cycles(cyc[i1], gcs));
                assert(false);
            }
        }
    }
    assert forall|p: Coord| true implies (#[trigger] in_cycles(p, new_gcs) <==> in_cycles(p, gcs)
        || cyc.contains(p)) by {
        if in_cycles(p, new_gcs) {
            let (a, j): (int, int) = choose|a: int, j: int|
                0 <= a < new_gcs.len() && 0 <= j < new_gcs[a].len() && #[trigger] new_gcs[a][j]
                    == p;
            if a < gcs.len() {
                assert(gcs[a][j] == p);
            } else {
                assert(cyc[j] == p);
            }
        }
        if in_cycles(p, gcs) {
            let (a, j): (int, int) = choose|a: int, j: int|
                0 <= a < gcs.len() && 0 <= j < gcs[a].len() && #[trigger] gcs[a][j] == p;
            assert(new_gcs[a][j] == p);
        }
        if cyc.contains(p) {
            let j = choose|j: int| 0 <= j < cyc.len() && cyc[j] == p;
            assert(new_gcs[gcs.len() as int][j] == p);
        }
    }
}

/// Splits the grid coordinates into the cycles of the round mapping: scan
/// row-major, and walk the mapping from every coordinate not yet assigned
/// until the walk returns to its start.  Every coordinate lands in exactly
/// one cycle.
#[verifier::loop_isolation(false)]
#[verifier::rlimit(100)]
#[verifier::spinoff_prover]
pub fn compute_cycles(mapping: &Vec<Vec<Coord>>) -> (cycles: Vec<Vec<Coord>>)
    requires
        map_wf(mapping.deep_view(), mapping@.len() as int, mapping.deep_view()[0].len() as int),
        map_inj(mapping.deep_view(), mapping@.len() as int, mapping.deep_view()[0].len() as int),
    ensures
        cycles_in_grid(
            cycles.deep_view(),
            mapping@.len() as int,
            mapping.deep_view()[0].len() as int,
        ),
        cycles_closed(cycles.deep_view(), mapping.deep_view()),
        cycles_distinct(cycles.deep_view()),
        cycles_cover(
            cycles.deep_view(),
            mapping@.len() as int,
            mapping.deep_view()[0].len() as int,
        ),
{
    let ghost gm = mapping.deep_view();
    let m = mapping.len();
    let n = mapping[0].len();
    let ghost mi = m as int;
    let ghost ni = n as int;
    proof {
        assert(ni == gm[0].len());
        assert forall|i: int| 0 <= i < mi implies (#[trigger] mapping@[i])@.len() == ni by {
            assert(gm[i].len() == ni);
            assert(gm[i] == mapping@[i].deep_view());
        }
        assert forall|x: int, y: int| 0 <= x < mi && 0 <= y < ni implies #[trigger] mapping@[x]@[y]
            == gm[x][y] by {
            assert(gm[x] == mapping@[x].deep_view());
        }
    }
    let mut seen: Vec<Vec<bool>> = Vec::new();
    let mut row: usize = 0;
    while row < m
        invariant
            row <= m,
            seen@.len() == row,
            forall|i: int|
                0 <= i < row ==> (#[trigger] seen@[i])@.len() == ni && forall|j: int|
                    0 <= j < ni ==> !seen@[i]@[j],
        decreases m - row,
    {
        let mut line: Vec<bool> = Vec::new();
        let mut col: usize = 0;
        while col < n
            invariant
                col <= n,
                line@.len() == col,
                forall|j: int| 0 <= j < col ==> !line@[j],
            decreases n - col,
        {
            line.push(false);
            col = col + 1;
        }
        seen.push(line);
        row = row + 1;
    }
    let mut cycles: Vec<Vec<Coord>> = Vec::new();
    let ghost mut gcs = cycles.deep_view();
    proof {
        assert(gcs =~~= Seq::<Seq<Coord>>::empty());
    }
    let mut row: usize = 0;
    while row < m
        invariant
            row <= m,
            gcs == cycles.deep_view(),
            seen@.len() == mi,
            forall|i: int| 0 <= i < mi ==> (#[trigger] seen@[i])@.len() == ni,
            forall|r: int, c: int|
                0 <= r < mi && 0 <= c < ni ==> ((#[trigger] seen@[r]@[c]) <==> in_cycles(
                    (r as usize, c as usize),
                    gcs,
                )),
            cycles_in_grid(gcs, mi, ni),
            cycles_closed(gcs, gm),
            cycles_distinct(gcs),
            forall|r: int, c: int| 0 <= r < row && 0 <= c < ni ==> #[trigger] seen@[r]@[c],
        decreases m - row,
    {
        let mut col: usize = 0;
        while col < n
            invariant
                col <= n,
                gcs == cycles.deep_view(),
                seen@.len() == mi,
                forall|i: int| 0 <= i < mi ==> (#[trigger] seen@[i])@.len() == ni,
                forall|r: int, c: int|
                    0 <= r < mi && 0 <= c < ni ==> ((#[trigger] seen@[r]@[c]) <==> in_cycles(
                        (r as usize, c as usize),
                        gcs,
                    )),
                cycles_in_grid(gcs, mi, ni),
                cycles_closed(gcs, gm),
                cycles_distinct(gcs),
                forall|r: int, c: int| 0 <= r < row && 0 <= c < ni ==> #[trigger] seen@[r]@[c],
                forall|c: int| 0 <= c < col ==> #[trigger] seen@[row as int]@[c],
            decreases n - col,
        {
            if !seen[row][col] {
                let start: Coord = (row, col);
                proof {
                    assert(!in_cycles(start, gcs));
                }
                seen[row][col] = true;
                let ghost seen_in = seen@;
                let mut cycle: Vec<Coord> = Vec::new();
                cycle.push(start);
                let mut pos: Coord = mapping[row][col];
                proof {
                    assert(iter_map(gm, start, 0) == start);
                    assert(pos == gm[row as int][col as int]);
                    assert(cycle@[0] == start);
                    assert(pos == map_at(gm, cycle@[cycle@.len() - 1]));
                    lemma_walk_step(gm, gcs, cycle@, start, pos, mi, ni);
                    lemma_mul_strictly_positive(mi, ni);
                    assert forall|r: int, c: int|
                        0 <= r < mi && 0 <= c < ni implies ((#[trigger] seen@[r]@[c]) <==> in_cycles(
                        (r as usize, c as usize),
                        gcs,
                    ) || cycle@.contains((r as usize, c as usize))) by {
                        let p = (r as usize, c as usize);
                        if p == start {
                            assert(seen@[r]@[c]);
                            assert(cycle@.contains(p));
                        } else {
                            if cycle@.contains(p) {
                                let i = choose|i: int|
                                    0 <= i < cycle@.len() && cycle@[i] == p;
                                assert(false);
                            }
                        }
                    }
                }
                while pos.0 != start.0 || pos.1 != start.1
                    invariant
                        gcs == cycles.deep_view(),
                        seen@.len() == mi,
                        forall|i: int| 0 <= i < mi ==> (#[trigger] seen@[i])@.len() == ni,
                        in_grid(start, mi, ni),
                        in_grid(pos, mi, ni),
                        cycle@.len() >= 1,
                        cycle@[0] == start,
                        forall|i: int|
                            0 <= i < cycle@.len() ==> #[trigger] cycle@[i] == iter_map(
                                gm,
                                start,
                                i as nat,
                            ) && in_grid(cycle@[i], mi, ni),
                        pos == iter_map(gm, start, cycle@.len() as nat),
                        forall|i1: int, i2: int|
                            0 <= i1 < i2 < cycle@.len() ==> #[trigger] cycle@[i1] != #[trigger] cycle@[i2],
                        forall|i: int| 1 <= i < cycle@.len() ==> pos != #[trigger] cycle@[i],
                        forall|i: int|
                            0 <= i < cycle@.len() ==> !in_cycles(#[trigger] cycle@[i], gcs),
                        !in_cycles(pos, gcs),
                        forall|r: int, c: int|
                            0 <= r < mi && 0 <= c < ni ==> ((#[trigger] seen@[r]@[c])
                                <==> in_cycles((r as usize, c as usize), gcs) || cycle@.contains(
                                (r as usize, c as usize),
                            )),
                        cycles_in_grid(gcs, mi, ni),
                        cycles_closed(gcs, gm),
                        cycles_distinct(gcs),
                        cycle@.len() <= mi * ni,
                        forall|r: int, c: int|
                            0 <= r < mi && 0 <= c < ni && seen_in[r]@[c] ==> #[trigger] seen@[r]@[c],
                    decreases mi * ni - cycle@.len(),
                {
                    proof {
                        lemma_distinct_coords_bounded(cycle@.push(pos), mi, ni);
                    }
                    let ghost cyc0 = cycle@;
                    let ghost seen0 = seen@;
                    cycle.push(pos);
                    seen[pos.0][pos.1] = true;
                    let prev = pos;
                    pos = mapping[pos.0][pos.1];
                    proof {
                        assert(cycle@ == cyc0.push(prev));
                        assert(pos == gm[prev.0 as int][prev.1 as int]);
                        assert(pos == map_at(gm, cycle@[cycle@.len() - 1]));
                        lemma_walk_step(gm, gcs, cycle@, start, pos, mi, ni);
                        assert forall|r: int, c: int|
                            0 <= r < mi && 0 <= c < ni implies ((#[trigger] seen@[r]@[c])
                            <==> in_cycles((r as usize, c as usize), gcs) || cycle@.contains(
                            (r as usize, c as usize),
                        )) by {
                            let p = (r as usize, c as usize);
                            if p == prev {
                                assert(seen@[r]@[c]);
                                assert(cycle@[cycle@.len() - 1] == p);
                                assert(cycle@.contains(p));
                            } else {
                                assert(seen@[r]@[c] == seen0[r]@[c]);
                                if cycle@.contains(p) {
                                    let i = choose|i: int|
                                        0 <= i < cycle@.len() && cycle@[i] == p;
                                    assert(cyc0[i] == p);
                                    assert(cyc0.contains(p));
                                }
                                if cyc0.contains(p) {
                                    let i = choose|i: int| 0 <= i < cyc0.len() && cyc0[i] == p;
                                    assert(cycle@[i] == p);
                                    assert(cycle@.contains(p));
                                }
                            }
                        }
                    }
                }
                proof {
                    assert(pos == start);
                }
                cycles.push(cycle);
                proof {
                    lemma_close_cycle(gm, gcs, cycle@, start, mi, ni);
                    assert(cycles.deep_view() =~~= gcs.push(cycle@));
                    gcs = gcs.push(cycle@);
                    assert forall|r: int, c: int| 0 <= r < row && 0 <= c < ni implies #[trigger] seen@[r]@[c] by {
                        assert(seen_in[r]@[c]);
                    }
                    assert forall|c: int| 0 <= c <= col implies #[trigger] seen@[row as int]@[c] by {
                        assert(seen_in[row as int]@[c]);
                    }
                }
            }
            col = col + 1;
        }
        row = row + 1;
    }
    proof {
        assert forall|r: int, c: int| 0 <= r < mi && 0 <= c < ni implies #[trigger] in_cycles(
            (r as usize, c as usize),
            gcs,
        ) by {
            assert(seen@[r]@[c]);
        }
    }
    cycles
}

/// The grid after `steps` rounds: every cell shows the value that the
/// original grid held `steps` mapping steps away.
pub open spec fn power_grid(g: Seq<Seq<char>>, mp: Seq<Seq<Coord>>, steps: nat) -> Seq<Seq<char>> {
    Seq::new(
        g.len(),
        |r: int|
            Seq::new(
                g[r].len(),
                |c: int|
                    {
                        let s = iter_map(mp, (r as usize, c as usize), steps);
                        g[s.0 as int][s.1 as int]
                    },
            ),
    )
}

/// Walking a closed cycle `steps` times from its `i`-th member lands on its
/// `(i + steps) mod k`-th member.
pub proof fn lemma_cycle_advance(cyc: Seq<Coord>, mp: Seq<Seq<Coord>>, i: int, steps: nat)
    requires
        cyc.len() > 0,
        0 <= i < cyc.len(),
        forall|j: int|
            0 <= j < cyc.len() ==> map_at(mp, #[trigger] cyc[j]) == cyc[(j + 1) % cyc.len() as int],
    ensures
        iter_map(mp, cyc[i], steps) == cyc[(i + steps) % cyc.len() as int],
    decreases steps,
{
    let k = cyc.len() as int;
    if steps == 0 {
        lemma_small_mod(i as nat, k as nat);
    } else {
        lemma_cycle_advance(cyc, mp, i, (steps - 1) as nat);
        let j = (i + steps - 1) % k;
        lemma_mod_bound(i + steps - 1, k);
        assert(iter_map(mp, cyc[i], steps) == map_at(mp, cyc[j]));
        assert(map_at(mp, cyc[j]) == cyc[(j + 1) % k]);
        lemma_add_mod_noop_right(1, i + steps - 1, k);
    }
}

/// Fills, inside `output_grid`, the cells of one cycle with the values the
/// grid shows after `nb_rounds` rounds: the cell at cycle position `i` takes
/// the input value at cycle position `(i + nb_rounds) mod k`.  Cells off the
/// cycle keep their value.
#[verifier::loop_isolation(false)]
pub fn decrypt_cycle(
    input_grid: &Vec<Vec<char>>,
    output_grid: &mut Vec<Vec<char>>,
    cycle: &Vec<Coord>,
    nb_rounds: u32,
)
    requires
        rect_wf(
            input_grid.deep_view(),
            input_grid@.len() as int,
            input_grid.deep_view()[0].len() as int,
        ),
        rect_wf(
            old(output_grid).deep_view(),
            input_grid@.len() as int,
            input_grid.deep_view()[0].len() as int,
        ),
        cycle@.len() > 0,
        cycle@.len() <= usize::MAX / 2,
        forall|i: int|
            0 <= i < cycle@.len() ==> in_grid(
                #[trigger] cycle@[i],
                input_grid@.len() as int,
                input_grid.deep_view()[0].len() as int,
            ),
        forall|i1: int, i2: int|
            0 <= i1 < i2 < cycle@.len() ==> #[trigger] cycle@[i1] != #[trigger] cycle@[i2],
    ensures
        rect_wf(
            final(output_grid).deep_view(),
            input_grid@.len() as int,
            input_grid.deep_view()[0].len() as int,
        ),
        forall|i: int|
            0 <= i < cycle@.len() ==> final(output_grid).deep_view()[(#[trigger] cycle@[i]).0 as int][cycle@[i].1 as int]
                == input_grid.deep_view()[cycle@[(i + nb_rounds as int) % cycle@.len() as int].0 as int][cycle@[(
                i + nb_rounds as int
            ) % cycle@.len() as int].1 as int],
        forall|r: int, c: int|
            0 <= r < input_grid@.len() && 0 <= c < input_grid.deep_view()[0].len()
                && !cycle@.contains((r as usize, c as usize))
                ==> final(output_grid).deep_view()[r][c] == old(output_grid).deep_view()[r][c],
{
    let ghost gin = input_grid.deep_view();
    let ghost gout0 = old(output_grid).deep_view();
    let ghost mi = input_grid@.len() as int;
    let ghost ni = input_grid.deep_view()[0].len() as int;
    let k = cycle.len();
    let shift = (nb_rounds as usize) % k;
    proof {
        assert forall|i: int| 0 <= i < mi implies (#[trigger] output_grid@[i])@.len() == ni by {
            assert(output_grid.deep_view()[i].len() == ni);
            assert(output_grid.deep_view()[i] == output_grid@[i].deep_view());
        }
        assert forall|r: int| 0 <= r < mi implies (#[trigger] input_grid@[r])@.len() == ni by {
            assert(gin[r].len() == ni);
            assert(gin[r] == input_grid@[r].deep_view());
        }
        assert forall|i: int| 0 <= i < k implies #[trigger] ((i + shift) % k as int) == (i
            + nb_rounds as int) % k as int by {
            lemma_add_mod_noop_right(i, nb_rounds as int, k as int);
        }
    }
    let mut i: usize = 0;
    while i < k
        invariant
            0 <= i <= k,
            k == cycle@.len(),
            shift < k,
            output_grid@.len() == mi,
            forall|r: int| 0 <= r < mi ==> (#[trigger] output_grid@[r])@.len() == ni,
            rect_wf(output_grid.deep_view(), mi, ni),
            forall|j: int|
                0 <= j < i ==> output_grid.deep_view()[(#[trigger] cycle@[j]).0 as int][cycle@[j].1 as int]
                    == gin[cycle@[(j + nb_rounds as int) % cycle@.len() as int].0 as int][cycle@[(j
                    + nb_rounds as int) % cycle@.len() as int].1 as int],
            forall|r: int, c: int|
                0 <= r < mi && 0 <= c < ni && !cycle@.subrange(0, i as int).contains(
                    (r as usize, c as usize),
                ) ==> output_grid.deep_view()[r][c] == gout0[r][c],
        decreases k - i,
    {
        let ghost gout_pre = output_grid.deep_view();
        let mut j = i + shift;
        if j >= k {
            j = j - k;
        }
        proof {
            assert(j == (i + shift) % k as int) by {
                if i + shift < k {
                    lemma_small_mod((i + shift) as nat, k as nat);
                } else {
                    lemma_mod_self_0(k as int);
                    lemma_add_mod_noop_right(i + shift - k, k as int, k as int);
                    lemma_small_mod((i + shift - k) as nat, k as nat);
                }
            }
        }
        let (src_r, src_c) = cycle[j];
        let (dst_r, dst_c) = cycle[i];
        let v = input_grid[src_r][src_c];
        proof {
            assert(gin[src_r as int] == input_grid@[src_r as int].deep_view());
        }
        output_grid[dst_r][dst_c] = v;
        proof {
            assert(output_grid.deep_view()[dst_r as int][dst_c as int] == v);
            assert(v == gin[src_r as int][src_c as int]);
            assert forall|r: int, c: int|
                0 <= r < mi && 0 <= c < ni && !cycle@.subrange(0, i + 1).contains(
                    (r as usize, c as usize),
                ) implies output_grid.deep_view()[r][c] == gout0[r][c] by {
                let p = (r as usize, c as usize);
                assert(cycle@.subrange(0, i + 1)[i as int] == cycle@[i as int]);
                assert(p != cycle@[i as int]);
                if cycle@.subrange(0, i as int).contains(p) {
                    let x = choose|x: int|
                        0 <= x < i && cycle@.subrange(0, i as int)[x] == p;
                    assert(cycle@.subrange(0, i + 1)[x] == p);
                    assert(false);
                }
                assert(gout_pre[r][c] == gout0[r][c]);
                assert(output_grid.deep_view()[r][c] == gout_pre[r][c]);
            }
            assert forall|j2: int| 0 <= j2 < i + 1 implies output_grid.deep_view()[(
            #[trigger] cycle@[j2]).0 as int][cycle@[j2].1 as int] == gin[cycle@[(j2
                + nb_rounds as int) % cycle@.len() as int].0 as int][cycle@[(j2 + nb_rounds as int)
                % cycle@.len() as int].1 as int] by {
                if j2 < i {
                    assert(cycle@[j2] != cycle@[i as int]);
                    assert(output_grid.deep_view()[cycle@[j2].0 as int][cycle@[j2].1 as int]
                        == gout_pre[cycle@[j2].0 as int][cycle@[j2].1 as int]);
                }
            }
        }
        i = i + 1;
    }
    proof {
        assert(cycle@.subrange(0, k as int) =~= cycle@);
    }
}

/// How the engine can fail: input that is not a key and a rectangular grid,
/// or a decrypted grid without a marked message.
#[derive(Clone, Copy, Debug, PartialEq, Eq, Structural)]
pub enum DecryptError {
    MalformedInput,
    MessageNotFound,
}

/// There is an opening marker strictly before `e` in the row.
pub open spec fn has_open_before(line: Seq<char>, e: int) -> bool {
    exists|b: int| 0 <= b < e && line[b] == '>'
}

/// The first closing marker at or after `i` with an opening marker before
/// it, or the row length when there is none.
pub open spec fn msg_close_from(line: Seq<char>, i: int) -> int
    decreases line.len() - i when 0 <= i <= line.len()
{
    if i >= line.len() {
        line.len() as int
    } else if line[i] == '<' && has_open_before(line, i) {
        i
    } else {
        msg_close_from(line, i + 1)
    }
}

/// The opening marker closest before `e`.
pub open spec fn last_open_before(line: Seq<char>, e: int) -> int
    decreases e when e >= 0
{
    if e <= 0 {
        0
    } else if line[e - 1] == '>' {
        e - 1
    } else {
        last_open_before(line, e - 1)
    }
}

/// The row holds a closing marker with an opening marker before it.
pub open spec fn row_has_message(line: Seq<char>) -> bool {
    msg_close_from(line, 0) < line.len()
}

/// The characters strictly between the markers of the row.
pub open spec fn row_message(line: Seq<char>) -> Seq<char> {
    line.subrange(last_open_before(line, msg_close_from(line, 0)) + 1, msg_close_from(line, 0))
}

/// The first row with a message, from `i` on, or the number of rows.
pub open spec fn first_message_row(g: Seq<Seq<char>>, i: int) -> int
    decreases g.len() - i when 0 <= i <= g.len()
{
    if i >= g.len() {
        g.len() as int
    } else if row_has_message(g[i]) {
        i
    } else {
        first_message_row(g, i + 1)
    }
}

/// Some row of the grid holds a message.
pub open spec fn grid_has_message(g: Seq<Seq<char>>) -> bool {
    first_message_row(g, 0) < g.len()
}

/// The message of the first row that holds one.
pub open spec fn grid_message(g: Seq<Seq<char>>) -> Seq<char> {
    row_message(g[first_message_row(g, 0)])
}

/// An index before which no closing marker qualifies, and which qualifies
/// itself or is the row's end, is where the search for the closing marker
/// ends.
proof fn lemma_msg_close_from_unique(line: Seq<char>, i: int, e: int)
    requires
        0 <= i <= e <= line.len(),
        forall|j: int| i <= j < e ==> !(line[j] == '<' && has_open_before(line, j)),
        e < line.len() ==> line[e] == '<' && has_open_before(line, e),
    ensures
        msg_close_from(line, i) == e,
    decreases e - i,
{
    if i < e {
        lemma_msg_close_from_unique(line, i + 1, e);
    }
}

/// An opening marker with no later opening marker before `e` is the one the
/// search finds.
proof fn lemma_last_open_unique(line: Seq<char>, e: int, b: int)
    requires
        0 <= b < e <= line.len(),
        line[b] == '>',
        forall|j: int| b < j < e ==> line[j] != '>',
    ensures
        last_open_before(line, e) == b,
    decreases e,
{
    if e - 1 > b {
        lemma_last_open_unique(line, e - 1, b);
    }
}

/// A row index before which no row holds a message, and whose row holds one
/// or is past the end, is where the row search ends.
proof fn lemma_first_msg_row_unique(g: Seq<Seq<char>>, i: int, e: int)
    requires
        0 <= i <= e <= g.len(),
        forall|j: int| i <= j < e ==> !row_has_message(#[trigger] g[j]),
        e < g.len() ==> row_has_message(g[e]),
    ensures
        first_message_row(g, i) == e,
    decreases e - i,
{
    if i < e {
        lemma_first_msg_row_unique(g, i + 1, e);
    }
}

/// Scans the grid top to bottom for the first row with both markers in
/// order, and returns the characters strictly between the most recent
/// opening marker and the first closing marker after it.
#[verifier::loop_isolation(false)]
pub fn decrypt_grid(grid: &Vec<Vec<char>>) -> (r: Result<String, DecryptError>)
    ensures
        match r {
            Ok(s) => grid_has_message(grid.deep_view()) && s@ == grid_message(grid.deep_view()),
            Err(e) => e == DecryptError::MessageNotFound && !grid_has_message(grid.deep_view()),
        },
{
    let ghost gd = grid.deep_view();
    let mut row: usize = 0;
    while row < grid.len()
        invariant
            row <= gd.len(),
            forall|x: int| 0 <= x < row ==> !row_has_message(#[trigger] gd[x]),
        decreases gd.len() - row,
    {
        let line = &grid[row];
        let ghost gl = gd[row as int];
        proof {
            assert(gl == grid@[row as int].deep_view());
            assert(gl =~= line@);
        }
        let mut beg: usize = 0;
        let mut has_open = false;
        let mut ind: usize = 0;
        while ind < line.len()
            invariant
                ind <= gl.len(),
                has_open <==> has_open_before(gl, ind as int),
                has_open ==> beg < ind && gl[beg as int] == '>' && (forall|j: int|
                    beg < j < ind ==> gl[j] != '>'),
                forall|j: int| 0 <= j < ind ==> !(gl[j] == '<' && has_open_before(gl, j)),
            decreases gl.len() - ind,
        {
            let c = line[ind];
            if c == '>' {
                beg = ind;
                has_open = true;
                proof {
                    assert(gl[ind as int] == '>');
                    assert(has_open_before(gl, ind + 1));
                }
            } else if c == '<' && has_open {
                proof {
                    lemma_msg_close_from_unique(gl, 0, ind as int);
                    lemma_last_open_unique(gl, ind as int, beg as int);
                    lemma_first_msg_row_unique(gd, 0, row as int);
                }
                let msg = crate::text::subvec(line, beg + 1, ind);
                return Ok(crate::text::chars_to_string(&msg));
            } else {
                proof {
                    if has_open_before(gl, ind + 1) && !has_open_before(gl, ind as int) {
                        let b = choose|b: int| 0 <= b < ind + 1 && gl[b] == '>';
                        assert(b == ind);
                        assert(false);
                    }
                }
            }
            ind = ind + 1;
        }
        proof {
            lemma_msg_close_from_unique(gl, 0, gl.len() as int);
        }
        row = row + 1;
    }
    proof {
        lemma_first_msg_row_unique(gd, 0, gd.len() as int);
    }
    Err(DecryptError::MessageNotFound)
}

/// The input lines form a key and a grid: a non-empty key line, a separator
/// line, and at least three grid rows of equal length at least three.
pub open spec fn input_wf(lines: Seq<Seq<char>>) -> bool {
    lines.len() >= 5 && lines[0].len() > 0 && lines[2].len() >= 3 && forall|i: int|
        2 <= i < lines.len() ==> (#[trigger] lines[i]).len() == lines[2].len()
}

/// Reads the rotation key from the first line and the grid from the lines
/// after the separator; rejects input that is not a key over a grid of at
/// least three rows and columns with rows of one length.
#[verifier::loop_isolation(false)]
pub fn parse_input(lines: &Vec<Vec<char>>) -> (r: Result<
    (Vec<char>, Vec<Vec<char>>),
    DecryptError,
>)
    ensures
        match r {
            Ok((key, grid)) => input_wf(lines.deep_view()) && key@ == lines.deep_view()[0]
                && grid.deep_view() == lines.deep_view().subrange(
                2,
                lines.deep_view().len() as int,
            ),
            Err(e) => e == DecryptError::MalformedInput && !input_wf(lines.deep_view()),
        },
{
    let ghost gl = lines.deep_view();
    proof {
        assert forall|i: int| 0 <= i < gl.len() implies (#[trigger] lines@[i])@.len() == gl[i].len()
            && lines@[i]@ =~= gl[i] by {
            assert(gl[i] == lines@[i].deep_view());
        }
    }
    if lines.len() < 5 {
        return Err(DecryptError::MalformedInput);
    }
    let width = lines[2].len();
    if lines[0].len() == 0 || width < 3 {
        return Err(DecryptError::MalformedInput);
    }
    let mut i: usize = 2;
    while i < lines.len()
        invariant
            2 <= i <= gl.len(),
            forall|j: int| 2 <= j < i ==> (#[trigger] gl[j]).len() == width,
        decreases gl.len() - i,
    {
        if lines[i].len() != width {
            return Err(DecryptError::MalformedInput);
        }
        i = i + 1;
    }
    let key = crate::text::subvec(&lines[0], 0, lines[0].len());
    proof {
        assert(key@ =~= gl[0]);
    }
    let mut grid: Vec<Vec<char>> = Vec::new();
    let mut i: usize = 2;
    while i < lines.len()
        invariant
            2 <= i <= gl.len(),
            grid@.len() == i - 2,
            forall|j: int| 0 <= j < i - 2 ==> (#[trigger] grid@[j])@ =~= gl[j + 2],
        decreases gl.len() - i,
    {
        let line = &lines[i];
        let row = crate::text::subvec(line, 0, line.len());
        proof {
            assert(row@ =~= gl[i as int]);
        }
        grid.push(row);
        i = i + 1;
    }
    proof {
        assert(grid.deep_view() =~~= gl.subrange(2, gl.len() as int));
    }
    Ok((key, grid))
}

/// Undoing zero rounds returns the grid unchanged.
pub proof fn lemma_zero_rounds(g: Seq<Seq<char>>, mp: Seq<Seq<Coord>>, m: int, n: int)
    requires
        rect_wf(g, m, n),
        m <= usize::MAX,
        n <= usize::MAX,
    ensures
        power_grid(g, mp, 0) == g,
{
    assert(power_grid(g, mp, 0) =~~= g);
}

/// A cell the mapping leaves in place shows its original value after any
/// number of rounds.
pub proof fn lemma_fixed_cell_invariant(mp: Seq<Seq<Coord>>, p: Coord, steps: nat)
    requires
        map_at(mp, p) == p,
    ensures
        iter_map(mp, p, steps) == p,
    decreases steps,
{
    if steps > 0 {
        lemma_fixed_cell_invariant(mp, p, (steps - 1) as nat);
    }
}

/// A grid too small to have interior cells keeps every cell in place, so it
/// decrypts to itself for any round count.
pub proof fn lemma_degenerate_identity(m: int, n: int, key: Seq<char>, p: Coord)
    requires
        1 <= m <= usize::MAX,
        1 <= n <= usize::MAX,
        m < 3 || n < 3,
        in_grid(p, m, n),
    ensures
        map_at(round_mapping_spec(m, n, key), p) == p,
{
}

/// On a closed cycle of length `k`, the cell a round count reaches repeats
/// with period `k`: `steps + k` rounds land where `steps` rounds land.
pub proof fn lemma_cycle_periodicity(mp: Seq<Seq<Coord>>, cyc: Seq<Coord>, i: int, steps: nat)
    requires
        cyc.len() > 0,
        0 <= i < cyc.len(),
        forall|j: int|
            0 <= j < cyc.len() ==> map_at(mp, #[trigger] cyc[j]) == cyc[(j + 1) % cyc.len() as int],
    ensures
        iter_map(mp, cyc[i], steps + cyc.len()) == iter_map(mp, cyc[i], steps),
{
    let k = cyc.len() as int;
    lemma_cycle_advance(cyc, mp, i, steps);
    lemma_cycle_advance(cyc, mp, i, steps + cyc.len());
    lemma_mod_add_multiples_vanish(i + steps, k);
}

/// On a closed cycle, the decrypted grid itself repeats with the cycle's
/// length as period: the cell at a cycle member shows the same value after
/// `steps` rounds and after `steps` plus the cycle length.
pub proof fn lemma_decrypted_cell_periodic(
    g: Seq<Seq<char>>,
    mp: Seq<Seq<Coord>>,
    m: int,
    n: int,
    cyc: Seq<Coord>,
    i: int,
    steps: nat,
)
    requires
        rect_wf(g, m, n),
        cyc.len() > 0,
        0 <= i < cyc.len(),
        in_grid(cyc[i], m, n),
        forall|j: int|
            0 <= j < cyc.len() ==> map_at(mp, #[trigger] cyc[j]) == cyc[(j + 1) % cyc.len() as int],
    ensures
        power_grid(g, mp, steps + cyc.len())[cyc[i].0 as int][cyc[i].1 as int] == power_grid(
            g,
            mp,
            steps,
        )[cyc[i].0 as int][cyc[i].1 as int],
{
    lemma_cycle_periodicity(mp, cyc, i, steps);
}

/// One round applied to a grid: every cell takes the value of its source.
pub open spec fn apply_round(g: Seq<Seq<char>>, mp: Seq<Seq<Coord>>) -> Seq<Seq<char>> {
    Seq::new(
        g.len(),
        |r: int|
            Seq::new(
                g[r].len(),
                |c: int|
                    {
                        let s = mp[r][c];
                        g[s.0 as int][s.1 as int]
                    },
            ),
    )
}

/// The grid after `steps` rounds, simulated one round at a time.
pub open spec fn simulate_spec(g: Seq<Seq<char>>, mp: Seq<Seq<Coord>>, steps: nat) -> Seq<
    Seq<char>,
>
    decreases steps,
{
    if steps == 0 {
        g
    } else {
        apply_round(simulate_spec(g, mp, (steps - 1) as nat), mp)
    }
}

/// Following the mapping `k + 1` times from `p` is following it `k` times
/// from `p`'s source.
proof fn lemma_iter_shift(mp: Seq<Seq<Coord>>, p: Coord, k: nat)
    ensures
        iter_map(mp, p, (k + 1) as nat) == iter_map(mp, map_at(mp, p), k),
    decreases k,
{
    if k > 0 {
        lemma_iter_shift(mp, p, (k - 1) as nat);
        assert(iter_map(mp, p, (k + 1) as nat) == map_at(mp, iter_map(mp, p, k)));
        assert(iter_map(mp, map_at(mp, p), k) == map_at(
            mp,
            iter_map(mp, map_at(mp, p), (k - 1) as nat),
        ));
    } else {
        assert(iter_map(mp, p, 0) == p);
        assert(iter_map(mp, map_at(mp, p), 0) == map_at(mp, p));
        assert(iter_map(mp, p, 1) == map_at(mp, iter_map(mp, p, 0)));
    }
}

/// Advancing every cell by the round count along the mapping gives exactly
/// what that many one-round applications give.
pub proof fn lemma_power_is_simulation(
    g: Seq<Seq<char>>,
    mp: Seq<Seq<Coord>>,
    m: int,
    n: int,
    steps: nat,
)
    requires
        rect_wf(g, m, n),
        map_wf(mp, m, n),
        m <= usize::MAX,
        n <= usize::MAX,
    ensures
        power_grid(g, mp, steps) == simulate_spec(g, mp, steps),
    decreases steps,
{
    if steps == 0 {
        lemma_zero_rounds(g, mp, m, n);
    } else {
        lemma_power_is_simulation(g, mp, m, n, (steps - 1) as nat);
        let prev = simulate_spec(g, mp, (steps - 1) as nat);
        assert forall|r: int, c: int| 0 <= r < m && 0 <= c < n implies #[trigger] power_grid(
            g,
            mp,
            steps,
        )[r][c] == apply_round(prev, mp)[r][c] by {
            let p = (r as usize, c as usize);
            let s = mp[r][c];
            lemma_iter_shift(mp, p, (steps - 1) as nat);
            assert((steps - 1) as nat + 1 == steps);
            assert(map_at(mp, p) == s);
            assert(iter_map(mp, p, steps) == iter_map(mp, s, (steps - 1) as nat));
            assert(apply_round(prev, mp)[r][c] == prev[s.0 as int][s.1 as int]);
            assert(prev[s.0 as int][s.1 as int] == power_grid(g, mp, (steps - 1) as nat)[s.0 as int][s.1 as int]);
        }
        assert(power_grid(g, mp, steps) =~~= apply_round(prev, mp));
    }
}

/// Decrypts the grid: builds the one-round mapping from the key, splits it
/// into cycles, advances every cycle by the round count modulo its length,
/// and extracts the message from the decrypted grid.
#[verifier::loop_isolation(false)]
#[verifier::rlimit(60)]
pub fn decrypt_message(grid: &Vec<Vec<char>>, key: &Vec<char>, nb_rounds: u32) -> (r: Result<
    String,
    DecryptError,
>)
    requires
        rect_wf(grid.deep_view(), grid@.len() as int, grid.deep_view()[0].len() as int),
        key@.len() > 0,
        grid@.len() * grid.deep_view()[0].len() <= usize::MAX / 2,
    ensures
        ({
            let dec = power_grid(
                grid.deep_view(),
                round_mapping_spec(grid@.len() as int, grid.deep_view()[0].len() as int, key@),
                nb_rounds as nat,
            );
            match r {
                Ok(s) => grid_has_message(dec) && s@ == grid_message(dec),
                Err(e) => e == DecryptError::MessageNotFound && !grid_has_message(dec),
            }
        }),
{
    let ghost gd = grid.deep_view();
    let m = grid.len();
    let n = grid[0].len();
    let ghost mi = m as int;
    let ghost ni = n as int;
    proof {
        assert(ni == gd[0].len());
    }
    let mapping = compute_round_mapping(grid, key);
    let ghost gm = mapping.deep_view();
    proof {
        lemma_round_mapping_bijective(mi, ni, key@);
    }
    let cycles = compute_cycles(&mapping);
    let ghost gcs = cycles.deep_view();
    let mut decrypted: Vec<Vec<char>> = Vec::new();
    let mut row: usize = 0;
    while row < m
        invariant
            row <= m,
            decrypted@.len() == row,
            forall|i: int| 0 <= i < row ==> (#[trigger] decrypted@[i])@.len() == ni,
        decreases m - row,
    {
        let mut line: Vec<char> = Vec::new();
        let mut col: usize = 0;
        while col < n
            invariant
                col <= n,
                line@.len() == col,
            decreases n - col,
        {
            line.push('.');
            col = col + 1;
        }
        decrypted.push(line);
        row = row + 1;
    }
    proof {
        assert(rect_wf(decrypted.deep_view(), mi, ni));
    }
    let mut ci: usize = 0;
    while ci < cycles.len()
        invariant
            ci <= gcs.len(),
            gcs == cycles.deep_view(),
            gm == mapping.deep_view(),
            rect_wf(decrypted.deep_view(), mi, ni),
            forall|a: int, i: int|
                0 <= a < ci && 0 <= i < gcs[a].len() ==> decrypted.deep_view()[(
                #[trigger] gcs[a][i]).0 as int][gcs[a][i].1 as int] == gd[iter_map(
                    gm,
                    gcs[a][i],
                    nb_rounds as nat,
                ).0 as int][iter_map(gm, gcs[a][i], nb_rounds as nat).1 as int],
        decreases gcs.len() - ci,
    {
        let cycle = &cycles[ci];
        let ghost cyc = gcs[ci as int];
        proof {
            assert(cyc == cycles@[ci as int].deep_view());
            assert(cycle@ =~= cyc);
            assert(cyc.len() > 0);
            assert forall|i1: int, i2: int| 0 <= i1 < i2 < cyc.len() implies #[trigger] cyc[i1]
                != #[trigger] cyc[i2] by {
                assert(gcs[ci as int][i1] == cyc[i1]);
            }
            lemma_distinct_coords_bounded(cyc, mi, ni);
        }
        let ghost pre = decrypted.deep_view();
        decrypt_cycle(grid, &mut decrypted, cycle, nb_rounds);
        proof {
            let k = cyc.len() as int;
            assert forall|a: int, i: int|
                0 <= a < ci + 1 && 0 <= i < gcs[a].len() implies decrypted.deep_view()[(
            #[trigger] gcs[a][i]).0 as int][gcs[a][i].1 as int] == gd[iter_map(
                gm,
                gcs[a][i],
                nb_rounds as nat,
            ).0 as int][iter_map(gm, gcs[a][i], nb_rounds as nat).1 as int] by {
                let p = gcs[a][i];
                if a == ci {
                    lemma_cycle_advance(cyc, gm, i, nb_rounds as nat);
                } else {
                    if cyc.contains(p) {
                        let x = choose|x: int| 0 <= x < cyc.len() && cyc[x] == p;
                        assert(gcs[ci as int][x] == gcs[a][i]);
                        assert(false);
                    }
                    assert(decrypted.deep_view()[p.0 as int][p.1 as int] == pre[p.0 as int][p.1 as int]);
                }
            }
        }
        ci = ci + 1;
    }
    proof {
        let ghost dec = power_grid(gd, gm, nb_rounds as nat);
        assert forall|r: int, c: int| 0 <= r < mi && 0 <= c < ni implies decrypted.deep_view()[r][c]
            == dec[r][c] by {
            assert(in_cycles((r as usize, c as usize), gcs));
            let (a, i): (int, int) = choose|a: int, i: int|
                0 <= a < gcs.len() && 0 <= i < gcs[a].len() && #[trigger] gcs[a][i] == (
                r as usize,
                c as usize,
            );
        }
        assert(decrypted.deep_view() =~~= power_grid(gd, gm, nb_rounds as nat));
    }
    decrypt_grid(&decrypted)
}

/// The number of rounds each part of the puzzle undoes.
pub open spec fn rounds_for_part(part: int) -> int {
    if part == 1 {
        1
    } else if part == 2 {
        100
    } else {
        1048576000
    }
}

/// Entry point for the puzzle: the first input line is the rotation key, a
/// separator line follows, the rest is the grid; the part selects the round
/// count.  A grid too large for the machine to index is rejected like a
/// misshapen one.
#[verifier::loop_isolation(false)]
pub fn run(part: u8, text: &Vec<char>) -> (r: Result<String, DecryptError>)
    requires
        1 <= part <= 3,
    ensures
        ({
            let lines = crate::text::spec_lines(text@);
            if !input_wf(lines) {
                r == Result::<String, DecryptError>::Err(DecryptError::MalformedInput)
            } else {
                let g = lines.subrange(2, lines.len() as int);
                let m = g.len();
                let n = g[0].len();
                if m * n > usize::MAX / 2 {
                    r == Result::<String, DecryptError>::Err(DecryptError::MalformedInput)
                } else {
                    let dec = power_grid(
                        g,
                        round_mapping_spec(m as int, n as int, lines[0]),
                        rounds_for_part(part as int) as nat,
                    );
                    match r {
                        Ok(s) => grid_has_message(dec) && s@ == grid_message(dec),
                        Err(e) => e == DecryptError::MessageNotFound && !grid_has_message(dec),
                    }
                }
            }
        }),
{
    let lines = crate::text::split_lines(text);
    proof {
        assert(lines.deep_view() =~~= crate::text::spec_lines(text@));
    }
    let parsed = parse_input(&lines);
    let (key, grid) = match parsed {
        Ok(kg) => kg,
        Err(e) => {
            return Err(e);
        },
    };
    proof {
        assert(input_wf(lines.deep_view()));
        assert(grid.deep_view().len() >= 3);
    }
    let m = grid.len();
    let n = grid[0].len();
    proof {
        assert(grid.deep_view()[0] == grid@[0].deep_view());
        assert(grid.deep_view()[0].len() == n as int);
        assert forall|i: int| 0 <= i < grid.deep_view().len() implies (#[trigger] grid.deep_view()[i]).len()
            == n as int by {
            assert(grid.deep_view()[i] == lines.deep_view()[i + 2]);
        }
        assert(rect_wf(grid.deep_view(), m as int, n as int));
    }
    proof {
        lemma_fundamental_div_mod((usize::MAX / 2) as int, n as int);
        lemma_mod_bound((usize::MAX / 2) as int, n as int);
    }
    if m > (usize::MAX / 2) / n {
        proof {
            assert(m * n > usize::MAX / 2) by (nonlinear_arith)
                requires
                    m > (usize::MAX / 2) / n,
                    n > 0,
                    usize::MAX / 2 == n * ((usize::MAX / 2) / n) + (usize::MAX / 2) % n,
                    0 <= (usize::MAX / 2) % n < n,
            ;
        }
        return Err(DecryptError::MalformedInput);
    }
    proof {
        assert(m * n <= usize::MAX / 2) by (nonlinear_arith)
            requires
                m <= (usize::MAX / 2) / n,
                n > 0,
                usize::MAX / 2 == n * ((usize::MAX / 2) / n) + (usize::MAX / 2) % n,
                0 <= (usize::MAX / 2) % n < n,
        ;
    }
    let nb_rounds: u32 = if part == 1 {
        1
    } else if part == 2 {
        100
    } else {
        1048576000
    };
    decrypt_message(&grid, &key, nb_rounds)
}

} // verus!
