//! The max-cost grid path solver with route reconstruction: a full forward
//! pass over the grid, then backtracking from the bottom-right cell to
//! recover a move sequence of 'D' (down) and 'R' (right) steps, ties
//! resolved in favour of 'R'.

use vstd::prelude::*;
use crate::errors::{Field, SolveError};
use crate::min_path::{grid_cell, lemma_grid_index};
use crate::parse::{digits_value, read_safe, spec_parse_u64};
use crate::tokens::{spec_tokens, BufReadSplitter};

verus! {

/// The move symbol for a step down.
pub const DOWN: u8 = 68;

/// The move symbol for a step right.
pub const RIGHT: u8 = 82;

/// The greatest cost of reaching cell (`j`, `i`) from (0, 0) moving only
/// right or down, counting every visited cell, as an unbounded integer.
pub open spec fn max_path_cost(cells: Seq<u64>, w: int, j: int, i: int) -> int
    decreases (if j > 0 { j } else { 0 }) + (if i > 0 { i } else { 0 }),
{
    if j <= 0 && i <= 0 {
        grid_cell(cells, w, 0, 0) as int
    } else if j <= 0 {
        max_path_cost(cells, w, 0, i - 1) + grid_cell(cells, w, 0, i)
    } else if i <= 0 {
        max_path_cost(cells, w, j - 1, 0) + grid_cell(cells, w, j, 0)
    } else {
        grid_cell(cells, w, j, i) + vstd::math::max(
            max_path_cost(cells, w, j - 1, i),
            max_path_cost(cells, w, j, i - 1),
        )
    }
}

/// Some reachable cost of the grid exceeds `u64::MAX`.
pub open spec fn max_cost_overflows(cells: Seq<u64>, h: int, w: int) -> bool {
    exists|j: int, i: int|
        0 <= j < h && 0 <= i < w && #[trigger] max_path_cost(cells, w, j, i) > u64::MAX
}

/// The reconstructed move sequence from (0, 0) to (`j`, `i`): at each cell
/// the step comes from the costlier neighbour, from the left on ties, and
/// border cells admit only one direction.
pub open spec fn spec_route(cells: Seq<u64>, w: int, j: int, i: int) -> Seq<u8>
    decreases (if j > 0 { j } else { 0 }) + (if i > 0 { i } else { 0 }),
{
    if j <= 0 && i <= 0 {
        Seq::empty()
    } else if j <= 0 {
        spec_route(cells, w, 0, i - 1).push(RIGHT)
    } else if i <= 0 {
        spec_route(cells, w, j - 1, 0).push(DOWN)
    } else if max_path_cost(cells, w, j - 1, i) > max_path_cost(cells, w, j, i - 1) {
        spec_route(cells, w, j - 1, i).push(DOWN)
    } else {
        spec_route(cells, w, j, i - 1).push(RIGHT)
    }
}

/// The greatest monotone path cost of an `h` by `w` row-major grid, with a
/// move sequence that attains it, reconstructed from the bottom-right cell.
pub fn max_cost_route(h: usize, w: usize, cells: &Vec<u64>) -> (r: Result<
    (u64, Vec<u8>),
    SolveError,
>)
    requires
        h * w == cells@.len(),
    ensures
        match r {
            Ok(p) => h > 0 && w > 0 && !max_cost_overflows(cells@, h as int, w as int)
                && p.0 as int == max_path_cost(cells@, w as int, h - 1, w - 1)
                && p.1@ == spec_route(cells@, w as int, h - 1, w - 1),
            Err(SolveError::ZeroDimension) => h == 0 || w == 0,
            Err(SolveError::CostOverflow) => h > 0 && w > 0
                && max_cost_overflows(cells@, h as int, w as int),
            Err(_) => false,
        },
{
    if h == 0 || w == 0 {
        return Err(SolveError::ZeroDimension);
    }
    let ghost cs = cells@;
    let ghost wi = w as int;
    let n = cells.len();
    let mut map: Vec<Vec<u64>> = Vec::new();
    let mut j: usize = 0;
    while j < h
        invariant
            0 < w,
            0 < h,
            h * w == cells@.len(),
            n == cells@.len(),
            cs == cells@,
            wi == w as int,
            j <= h,
            map@.len() == j as int,
            forall|j2: int| 0 <= j2 < j ==> (#[trigger] map@[j2])@.len() == w as int,
            forall|j2: int, i2: int| 0 <= j2 < j && 0 <= i2 < w
                ==> (#[trigger] map@[j2]@[i2]) as int == max_path_cost(cs, wi, j2, i2),
        decreases h - j,
    {
        let mut row: Vec<u64> = Vec::new();
        let mut i: usize = 0;
        while i < w
            invariant
                0 < w,
                0 < h,
                h * w == cells@.len(),
                n == cells@.len(),
                cs == cells@,
                wi == w as int,
                j < h,
                i <= w,
                map@.len() == j as int,
                forall|j2: int| 0 <= j2 < j ==> (#[trigger] map@[j2])@.len() == w as int,
                forall|j2: int, i2: int| 0 <= j2 < j && 0 <= i2 < w
                    ==> (#[trigger] map@[j2]@[i2]) as int == max_path_cost(cs, wi, j2, i2),
                row@.len() == i as int,
                forall|k: int| 0 <= k < i
                    ==> (#[trigger] row@[k]) as int == max_path_cost(cs, wi, j as int, k),
            decreases w - i,
        {
            proof {
                lemma_grid_index(h as int, w as int, j as int, i as int);
            }
            let idx = j * w + i;
            let value = cells[idx];
            assert(value == grid_cell(cs, wi, j as int, i as int));
            let base = if j == 0 {
                if i == 0 {
                    0u64
                } else {
                    row[i - 1]
                }
            } else {
                if i == 0 {
                    map[j - 1][0]
                } else {
                    let up = map[j - 1][i];
                    let left = row[i - 1];
                    if up >= left {
                        up
                    } else {
                        left
                    }
                }
            };
            assert(base as int + value as int == max_path_cost(cs, wi, j as int, i as int));
            if value > u64::MAX - base {
                proof {
                    assert(max_path_cost(cs, wi, j as int, i as int) > u64::MAX);
                    assert(max_cost_overflows(cs, h as int, wi));
                }
                return Err(SolveError::CostOverflow);
            }
            row.push(base + value);
            i += 1;
        }
        map.push(row);
        j += 1;
    }
    proof {
        assert(!max_cost_overflows(cs, h as int, wi)) by {
            assert forall|j2: int, i2: int| 0 <= j2 < h && 0 <= i2 < w
                implies !(#[trigger] max_path_cost(cs, wi, j2, i2) > u64::MAX) by {
                assert(map@[j2]@[i2] as int == max_path_cost(cs, wi, j2, i2));
            }
        }
    }
    // Backtrack from the bottom-right cell, prepending each chosen move.
    let mut bj: usize = h - 1;
    let mut bi: usize = w - 1;
    let mut path: Vec<u8> = Vec::new();
    while !(bj == 0 && bi == 0)
        invariant
            bj < h,
            bi < w,
            map@.len() == h as int,
            forall|j2: int| 0 <= j2 < h ==> (#[trigger] map@[j2])@.len() == w as int,
            forall|j2: int, i2: int| 0 <= j2 < h && 0 <= i2 < w
                ==> (#[trigger] map@[j2]@[i2]) as int == max_path_cost(cs, wi, j2, i2),
            spec_route(cs, wi, h - 1, w - 1) == spec_route(cs, wi, bj as int, bi as int) + path@,
        decreases bj + bi,
    {
        let ghost oldpath = path@;
        let ghost oj = bj as int;
        let ghost oi = bi as int;
        if bj == 0 {
            path.insert(0, RIGHT);
            bi -= 1;
            assert(spec_route(cs, wi, oj, oi) == spec_route(cs, wi, 0, oi - 1).push(RIGHT));
        } else if bi == 0 {
            path.insert(0, DOWN);
            bj -= 1;
            assert(spec_route(cs, wi, oj, oi) == spec_route(cs, wi, oj - 1, 0).push(DOWN));
        } else {
            let down_step = map[bj - 1][bi];
            let right_step = map[bj][bi - 1];
            if down_step > right_step {
                path.insert(0, DOWN);
                bj -= 1;
                assert(spec_route(cs, wi, oj, oi)
                    == spec_route(cs, wi, oj - 1, oi).push(DOWN));
            } else {
                path.insert(0, RIGHT);
                bi -= 1;
                assert(spec_route(cs, wi, oj, oi)
                    == spec_route(cs, wi, oj, oi - 1).push(RIGHT));
            }
        }
        proof {
            let m = oldpath;
            assert(path@ =~= seq![path@[0]] + m);
            assert(spec_route(cs, wi, oj, oi) + m
                =~= spec_route(cs, wi, bj as int, bi as int) + path@);
        }
    }
    assert(path@ =~= spec_route(cs, wi, h - 1, w - 1));
    let total = map[h - 1][w - 1];
    assert(total as int == max_path_cost(cs, wi, h - 1, w - 1));
    Ok((total, path))
}

/// Every byte of the move sequence is a 'D' or an 'R'.
pub open spec fn valid_moves(p: Seq<u8>) -> bool {
    forall|k: int| 0 <= k < p.len() ==> p[k] == DOWN || p[k] == RIGHT
}

/// The number of down moves in a move sequence.
pub open spec fn downs(p: Seq<u8>) -> int
    decreases p.len(),
{
    if p.len() == 0 {
        0
    } else {
        (if p[0] == DOWN {
            1int
        } else {
            0int
        }) + downs(p.skip(1))
    }
}

/// The number of right moves in a move sequence.
pub open spec fn rights(p: Seq<u8>) -> int
    decreases p.len(),
{
    if p.len() == 0 {
        0
    } else {
        (if p[0] == RIGHT {
            1int
        } else {
            0int
        }) + rights(p.skip(1))
    }
}

/// The total cost of the cells visited when following the moves of `p` from
/// cell (`j`, `i`), the starting cell included.
pub open spec fn route_cost_from(cells: Seq<u64>, w: int, j: int, i: int, p: Seq<u8>) -> int
    decreases p.len(),
{
    if p.len() == 0 {
        grid_cell(cells, w, j, i) as int
    } else if p[0] == DOWN {
        grid_cell(cells, w, j, i) + route_cost_from(cells, w, j + 1, i, p.skip(1))
    } else {
        grid_cell(cells, w, j, i) + route_cost_from(cells, w, j, i + 1, p.skip(1))
    }
}

proof fn lemma_counts_push(p: Seq<u8>, m: u8)
    ensures
        downs(p.push(m)) == downs(p) + (if m == DOWN {
            1int
        } else {
            0int
        }),
        rights(p.push(m)) == rights(p) + (if m == RIGHT {
            1int
        } else {
            0int
        }),
    decreases p.len(),
{
    if p.len() == 0 {
        assert(p.push(m).skip(1) =~= p);
    } else {
        assert(p.push(m).skip(1) =~= p.skip(1).push(m));
        lemma_counts_push(p.skip(1), m);
    }
}

proof fn lemma_route_cost_push(cells: Seq<u64>, w: int, j: int, i: int, p: Seq<u8>, m: u8)
    requires
        valid_moves(p),
        m == DOWN || m == RIGHT,
    ensures
        route_cost_from(cells, w, j, i, p.push(m)) == route_cost_from(cells, w, j, i, p)
            + grid_cell(cells, w, j + downs(p.push(m)), i + rights(p.push(m))),
    decreases p.len(),
{
    lemma_counts_push(p, m);
    if p.len() == 0 {
        assert(p.push(m).skip(1) =~= p);
        assert(p.push(m)[0] == m);
        if m == DOWN {
            assert(route_cost_from(cells, w, j, i, p.push(m))
                == grid_cell(cells, w, j, i) + route_cost_from(cells, w, j + 1, i, p));
        } else {
            assert(route_cost_from(cells, w, j, i, p.push(m))
                == grid_cell(cells, w, j, i) + route_cost_from(cells, w, j, i + 1, p));
        }
    } else {
        assert(p.push(m)[0] == p[0]);
        assert(p.push(m).skip(1) =~= p.skip(1).push(m));
        assert(valid_moves(p.skip(1))) by {
            assert forall|k: int| 0 <= k < p.skip(1).len()
                implies p.skip(1)[k] == DOWN || p.skip(1)[k] == RIGHT by {
                assert(p.skip(1)[k] == p[k + 1]);
            }
        }
        lemma_counts_push(p.skip(1), m);
        if p[0] == DOWN {
            lemma_route_cost_push(cells, w, j + 1, i, p.skip(1), m);
        } else {
            assert(p[0] == RIGHT);
            lemma_route_cost_push(cells, w, j, i + 1, p.skip(1), m);
        }
    }
}

/// The reconstructed route to (`j`, `i`) is made of `j` down and `i` right
/// moves, and of nothing else.
pub proof fn lemma_spec_route_shape(cells: Seq<u64>, w: int, j: int, i: int)
    requires
        0 <= j,
        0 <= i,
    ensures
        valid_moves(spec_route(cells, w, j, i)),
        downs(spec_route(cells, w, j, i)) == j,
        rights(spec_route(cells, w, j, i)) == i,
        spec_route(cells, w, j, i).len() == j + i,
    decreases j + i,
{
    let p = spec_route(cells, w, j, i);
    if j == 0 && i == 0 {
    } else if j == 0 {
        lemma_spec_route_shape(cells, w, 0, i - 1);
        lemma_counts_push(spec_route(cells, w, 0, i - 1), RIGHT);
    } else if i == 0 {
        lemma_spec_route_shape(cells, w, j - 1, 0);
        lemma_counts_push(spec_route(cells, w, j - 1, 0), DOWN);
    } else if max_path_cost(cells, w, j - 1, i) > max_path_cost(cells, w, j, i - 1) {
        lemma_spec_route_shape(cells, w, j - 1, i);
        lemma_counts_push(spec_route(cells, w, j - 1, i), DOWN);
    } else {
        lemma_spec_route_shape(cells, w, j, i - 1);
        lemma_counts_push(spec_route(cells, w, j, i - 1), RIGHT);
    }
}

/// Consistency of the reconstruction: following the reconstructed route from
/// the top-left cell visits cells whose costs sum to exactly the greatest
/// path cost the forward pass reports.
pub proof fn lemma_route_consistent(cells: Seq<u64>, w: int, j: int, i: int)
    requires
        0 <= j,
        0 <= i,
    ensures
        route_cost_from(cells, w, 0, 0, spec_route(cells, w, j, i))
            == max_path_cost(cells, w, j, i),
    decreases j + i,
{
    if j == 0 && i == 0 {
    } else if j == 0 {
        lemma_route_consistent(cells, w, 0, i - 1);
        lemma_spec_route_shape(cells, w, 0, i - 1);
        lemma_route_cost_push(cells, w, 0, 0, spec_route(cells, w, 0, i - 1), RIGHT);
        lemma_counts_push(spec_route(cells, w, 0, i - 1), RIGHT);
    } else if i == 0 {
        lemma_route_consistent(cells, w, j - 1, 0);
        lemma_spec_route_shape(cells, w, j - 1, 0);
        lemma_route_cost_push(cells, w, 0, 0, spec_route(cells, w, j - 1, 0), DOWN);
        lemma_counts_push(spec_route(cells, w, j - 1, 0), DOWN);
    } else if max_path_cost(cells, w, j - 1, i) > max_path_cost(cells, w, j, i - 1) {
        lemma_route_consistent(cells, w, j - 1, i);
        lemma_spec_route_shape(cells, w, j - 1, i);
        lemma_route_cost_push(cells, w, 0, 0, spec_route(cells, w, j - 1, i), DOWN);
        lemma_counts_push(spec_route(cells, w, j - 1, i), DOWN);
    } else {
        lemma_route_consistent(cells, w, j, i - 1);
        lemma_spec_route_shape(cells, w, j, i - 1);
        lemma_route_cost_push(cells, w, 0, 0, spec_route(cells, w, j, i - 1), RIGHT);
        lemma_counts_push(spec_route(cells, w, j, i - 1), RIGHT);
    }
}

/// Optimality of the forward pass: no monotone move sequence from the
/// top-left cell can collect more than the greatest path cost of the cell
/// it ends on.
pub proof fn lemma_route_optimal(cells: Seq<u64>, w: int, p: Seq<u8>)
    requires
        valid_moves(p),
    ensures
        route_cost_from(cells, w, 0, 0, p) <= max_path_cost(cells, w, downs(p), rights(p)),
    decreases p.len(),
{
    if p.len() > 0 {
        let q = p.drop_last();
        let m = p.last();
        assert(p =~= q.push(m));
        assert(valid_moves(q)) by {
            assert forall|k: int| 0 <= k < q.len()
                implies q[k] == DOWN || q[k] == RIGHT by {
                assert(q[k] == p[k]);
            }
        }
        assert(m == DOWN || m == RIGHT) by {
            assert(p[p.len() - 1] == m);
        }
        lemma_route_optimal(cells, w, q);
        lemma_route_cost_push(cells, w, 0, 0, q, m);
        lemma_counts_push(q, m);
        lemma_counts_nonneg(q);
    }
}

proof fn lemma_counts_nonneg(p: Seq<u8>)
    ensures
        downs(p) >= 0,
        rights(p) >= 0,
    decreases p.len(),
{
    if p.len() > 0 {
        lemma_counts_nonneg(p.skip(1));
    }
}

/// The counterpart bound for the min-cost solver: no monotone move sequence
/// from the top-left cell can collect less than the least path cost of the
/// cell it ends on.
pub proof fn lemma_route_min_bound(cells: Seq<u64>, w: int, p: Seq<u8>)
    requires
        valid_moves(p),
    ensures
        route_cost_from(cells, w, 0, 0, p)
            >= crate::min_path::min_path_cost(cells, w, downs(p), rights(p)),
    decreases p.len(),
{
    if p.len() > 0 {
        let q = p.drop_last();
        let m = p.last();
        assert(p =~= q.push(m));
        assert(valid_moves(q)) by {
            assert forall|k: int| 0 <= k < q.len()
                implies q[k] == DOWN || q[k] == RIGHT by {
                assert(q[k] == p[k]);
            }
        }
        assert(m == DOWN || m == RIGHT) by {
            assert(p[p.len() - 1] == m);
        }
        lemma_route_min_bound(cells, w, q);
        lemma_route_cost_push(cells, w, 0, 0, q, m);
        lemma_counts_push(q, m);
        lemma_counts_nonneg(q);
    }
}

/// A move sequence that attains the least path cost of (`j`, `i`): at each
/// cell the step comes from the cheaper neighbour.
pub open spec fn spec_min_route(cells: Seq<u64>, w: int, j: int, i: int) -> Seq<u8>
    decreases (if j > 0 { j } else { 0 }) + (if i > 0 { i } else { 0 }),
{
    if j <= 0 && i <= 0 {
        Seq::empty()
    } else if j <= 0 {
        spec_min_route(cells, w, 0, i - 1).push(RIGHT)
    } else if i <= 0 {
        spec_min_route(cells, w, j - 1, 0).push(DOWN)
    } else if crate::min_path::min_path_cost(cells, w, j - 1, i)
        < crate::min_path::min_path_cost(cells, w, j, i - 1) {
        spec_min_route(cells, w, j - 1, i).push(DOWN)
    } else {
        spec_min_route(cells, w, j, i - 1).push(RIGHT)
    }
}

/// The witness route to (`j`, `i`) is made of `j` down and `i` right moves.
pub proof fn lemma_min_route_shape(cells: Seq<u64>, w: int, j: int, i: int)
    requires
        0 <= j,
        0 <= i,
    ensures
        valid_moves(spec_min_route(cells, w, j, i)),
        downs(spec_min_route(cells, w, j, i)) == j,
        rights(spec_min_route(cells, w, j, i)) == i,
    decreases j + i,
{
    if j == 0 && i == 0 {
    } else if j == 0 {
        lemma_min_route_shape(cells, w, 0, i - 1);
        lemma_counts_push(spec_min_route(cells, w, 0, i - 1), RIGHT);
    } else if i == 0 {
        lemma_min_route_shape(cells, w, j - 1, 0);
        lemma_counts_push(spec_min_route(cells, w, j - 1, 0), DOWN);
    } else if crate::min_path::min_path_cost(cells, w, j - 1, i)
        < crate::min_path::min_path_cost(cells, w, j, i - 1) {
        lemma_min_route_shape(cells, w, j - 1, i);
        lemma_counts_push(spec_min_route(cells, w, j - 1, i), DOWN);
    } else {
        lemma_min_route_shape(cells, w, j, i - 1);
        lemma_counts_push(spec_min_route(cells, w, j, i - 1), RIGHT);
    }
}

/// The least path cost is attained: following the witness route from the
/// top-left cell visits cells whose costs sum to exactly it. Together with
/// the bound below, the least path cost is the minimum over all monotone
/// move sequences.
pub proof fn lemma_min_route_consistent(cells: Seq<u64>, w: int, j: int, i: int)
    requires
        0 <= j,
        0 <= i,
    ensures
        route_cost_from(cells, w, 0, 0, spec_min_route(cells, w, j, i))
            == crate::min_path::min_path_cost(cells, w, j, i),
    decreases j + i,
{
    if j == 0 && i == 0 {
    } else if j == 0 {
        lemma_min_route_consistent(cells, w, 0, i - 1);
        lemma_min_route_shape(cells, w, 0, i - 1);
        lemma_route_cost_push(cells, w, 0, 0, spec_min_route(cells, w, 0, i - 1), RIGHT);
        lemma_counts_push(spec_min_route(cells, w, 0, i - 1), RIGHT);
    } else if i == 0 {
        lemma_min_route_consistent(cells, w, j - 1, 0);
        lemma_min_route_shape(cells, w, j - 1, 0);
        lemma_route_cost_push(cells, w, 0, 0, spec_min_route(cells, w, j - 1, 0), DOWN);
        lemma_counts_push(spec_min_route(cells, w, j - 1, 0), DOWN);
    } else if crate::min_path::min_path_cost(cells, w, j - 1, i)
        < crate::min_path::min_path_cost(cells, w, j, i - 1) {
        lemma_min_route_consistent(cells, w, j - 1, i);
        lemma_min_route_shape(cells, w, j - 1, i);
        lemma_route_cost_push(cells, w, 0, 0, spec_min_route(cells, w, j - 1, i), DOWN);
        lemma_counts_push(spec_min_route(cells, w, j - 1, i), DOWN);
    } else {
        lemma_min_route_consistent(cells, w, j, i - 1);
        lemma_min_route_shape(cells, w, j, i - 1);
        lemma_route_cost_push(cells, w, 0, 0, spec_min_route(cells, w, j, i - 1), RIGHT);
        lemma_counts_push(spec_min_route(cells, w, j, i - 1), RIGHT);
    }
}

/// What the whole max-cost run returns for a raw byte input: height, width
/// and `height * width` cells are read as the leading tokens, then the
/// greatest bottom-right path cost and its reconstructed route; the first
/// failure in reading order decides the error.
pub open spec fn spec_solve_route(input: Seq<u8>) -> Result<(u64, Seq<u8>), SolveError> {
    let toks = spec_tokens(input);
    if toks.len() < 1 {
        Err(SolveError::EndOfInput(Field::Height))
    } else if spec_parse_u64(toks[0]) is None {
        Err(SolveError::Malformed(Field::Height))
    } else if toks.len() < 2 {
        Err(SolveError::EndOfInput(Field::Width))
    } else if spec_parse_u64(toks[1]) is None {
        Err(SolveError::Malformed(Field::Width))
    } else {
        let h = digits_value(toks[0]);
        let w = digits_value(toks[1]);
        if h == 0 || w == 0 {
            Err(SolveError::ZeroDimension)
        } else {
            let need = h * w;
            let avail = toks.len() - 2;
            let upto = if need <= avail { need } else { avail };
            if exists|k: int| 0 <= k < upto && #[trigger] spec_parse_u64(toks[2 + k]) is None {
                Err(SolveError::Malformed(Field::Cell))
            } else if avail < need {
                Err(SolveError::EndOfInput(Field::Cell))
            } else {
                let cells = crate::min_path::spec_cells_of(toks, need);
                if max_cost_overflows(cells, h, w) {
                    Err(SolveError::CostOverflow)
                } else {
                    Ok((
                        max_path_cost(cells, w, h - 1, w - 1) as u64,
                        spec_route(cells, w, h - 1, w - 1),
                    ))
                }
            }
        }
    }
}

/// Runs the max-cost solver over a raw byte input: tokens are read as
/// height, width and the row-major cells; the greatest path cost and the
/// move sequence that attains it follow.
#[verifier::loop_isolation(false)]
pub fn solve_max_route(input: &[u8]) -> (r: Result<(u64, Vec<u8>), SolveError>)
    ensures
        match r {
            Ok(p) => spec_solve_route(input@) == Ok::<(u64, Seq<u8>), SolveError>((p.0, p.1@)),
            Err(e) => spec_solve_route(input@) == Err::<(u64, Seq<u8>), SolveError>(e),
        },
{
    let ghost toks = spec_tokens(input@);
    let mut sp = BufReadSplitter::new();
    sp.feed(input);
    assert(sp@ =~= input@);
    let h = match read_safe(&mut sp, Field::Height) {
        Ok(v) => v,
        Err(e) => {
            return Err(e);
        },
    };
    let w = match read_safe(&mut sp, Field::Width) {
        Ok(v) => v,
        Err(e) => {
            assert(spec_tokens(input@).skip(1).len() == 0 ==> spec_tokens(input@).len() == 1);
            return Err(e);
        },
    };
    proof {
        crate::parse::lemma_digits_value_nonneg(toks[0]);
        crate::parse::lemma_digits_value_nonneg(toks[1]);
    }
    assert(h as int == digits_value(toks[0]));
    assert(w as int == digits_value(toks[1]));
    if h == 0 || w == 0 {
        return Err(SolveError::ZeroDimension);
    }
    let ghost hh = h as int;
    let ghost ww = w as int;
    let mut cells: Vec<u64> = Vec::new();
    let mut j: u64 = 0;
    while j < h
        invariant
            j <= h,
            cells@.len() == j * ww,
            2 + cells@.len() <= toks.len(),
            spec_tokens(sp@) == toks.skip(2 + cells@.len() as int),
            forall|q: int| 0 <= q < cells@.len()
                ==> #[trigger] spec_parse_u64(toks[2 + q]) == Some(cells@[q]),
        decreases h - j,
    {
        let mut i: u64 = 0;
        while i < w
            invariant
                j < h,
                i <= w,
                cells@.len() == j * ww + i,
                2 + cells@.len() <= toks.len(),
                spec_tokens(sp@) == toks.skip(2 + cells@.len() as int),
                forall|q: int| 0 <= q < cells@.len()
                    ==> #[trigger] spec_parse_u64(toks[2 + q]) == Some(cells@[q]),
            decreases w - i,
        {
            proof {
                lemma_grid_index(hh, ww, j as int, i as int);
            }
            let ghost len0 = cells@.len() as int;
            match read_safe(&mut sp, Field::Cell) {
                Ok(v) => {
                    assert(spec_parse_u64(toks[2 + len0]) == Some(v));
                    cells.push(v);
                    proof {
                        assert(toks.skip(2 + len0).skip(1) =~= toks.skip(2 + len0 + 1));
                    }
                },
                Err(e) => {
                    proof {
                        assert(len0 < hh * ww);
                        let need = hh * ww;
                        let avail = toks.len() - 2;
                        let upto: int = if need <= avail { need } else { avail };
                        if e == SolveError::EndOfInput(Field::Cell) {
                            assert(toks.skip(2 + len0).len() == 0);
                            assert(toks.len() == 2 + len0);
                            assert(upto == len0);
                            assert forall|k: int| 0 <= k < upto
                                implies !(#[trigger] spec_parse_u64(toks[2 + k]) is None) by {
                                assert(spec_parse_u64(toks[2 + k]) == Some(cells@[k]));
                            }
                            assert(avail < need);
                        } else {
                            assert(spec_parse_u64(toks[2 + len0]) is None);
                            assert(toks.skip(2 + len0).len() > 0);
                            assert(len0 < avail && len0 < need);
                            assert(0 <= len0 < upto && spec_parse_u64(toks[2 + len0]) is None);
                            assert(exists|k: int|
                                0 <= k < upto && #[trigger] spec_parse_u64(toks[2 + k]) is None);
                        }
                    }
                    return Err(e);
                },
            }
            i += 1;
        }
        j += 1;
        assert(cells@.len() == j * ww) by (nonlinear_arith)
            requires
                cells@.len() == (j - 1) * ww + ww,
        {}
    }
    assert(cells@.len() == hh * ww);
    assert(toks.len() - 2 >= hh * ww);
    assert(!(exists|k: int|
        0 <= k < hh * ww && #[trigger] spec_parse_u64(toks[2 + k]) is None));
    assert forall|k: int| 0 <= k < hh * ww
        implies crate::min_path::spec_cells_of(toks, hh * ww)[k] == cells@[k] by {
        assert(spec_parse_u64(toks[2 + k]) == Some(cells@[k]));
    }
    assert(crate::min_path::spec_cells_of(toks, hh * ww) =~= cells@);
    proof {
        assert(ww <= hh * ww && hh <= hh * ww) by (nonlinear_arith)
            requires
                hh >= 1,
                ww >= 1,
        {}
    }
    let n = cells.len();
    assert(hh <= n && ww <= n);
    let hu = h as usize;
    let wu = w as usize;
    assert(hu as int == hh && wu as int == ww);
    max_cost_route(hu, wu, &cells)
}

/// The max-cost run is a pure function of its token sequence: two inputs
/// with the same tokens get the same result.
pub proof fn lemma_route_tokens_only(a: Seq<u8>, b: Seq<u8>)
    requires
        spec_tokens(a) == spec_tokens(b),
    ensures
        spec_solve_route(a) == spec_solve_route(b),
{
}

} // verus!
