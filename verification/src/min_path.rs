//! The min-cost grid path solver: the least total cost of walking a grid of
//! cell costs from the top-left to the bottom-right cell, moving only right
//! or down, computed row by row over two rolling rows.

use vstd::prelude::*;
use crate::errors::{Field, SolveError};
use crate::parse::{digits_value, read_safe, spec_parse_u64};
use crate::tokens::{spec_tokens, BufReadSplitter};

verus! {

/// The cost of cell (`j`, `i`) in a row-major grid of width `w`.
pub open spec fn grid_cell(cells: Seq<u64>, w: int, j: int, i: int) -> u64 {
    cells[j * w + i]
}

/// The least cost of reaching cell (`j`, `i`) from (0, 0) moving only right
/// or down, counting every visited cell, as an unbounded integer.
pub open spec fn min_path_cost(cells: Seq<u64>, w: int, j: int, i: int) -> int
    decreases (if j > 0 { j } else { 0 }) + (if i > 0 { i } else { 0 }),
{
    if j <= 0 && i <= 0 {
        grid_cell(cells, w, 0, 0) as int
    } else if j <= 0 {
        min_path_cost(cells, w, 0, i - 1) + grid_cell(cells, w, 0, i)
    } else if i <= 0 {
        min_path_cost(cells, w, j - 1, 0) + grid_cell(cells, w, j, 0)
    } else {
        grid_cell(cells, w, j, i) + vstd::math::min(
            min_path_cost(cells, w, j - 1, i),
            min_path_cost(cells, w, j, i - 1),
        )
    }
}

/// A row-major index stays inside the grid.
pub proof fn lemma_grid_index(h: int, w: int, j: int, i: int)
    requires
        0 <= j < h,
        0 <= i < w,
    ensures
        0 <= j * w + i < h * w,
{
    assert(0 <= j * w + i < h * w) by (nonlinear_arith)
        requires
            0 <= j < h,
            0 <= i < w,
    {}
}

/// What the min-cost solver returns: an error on an empty grid, an error
/// where some reachable cost exceeds `u64::MAX`, and the bottom-right least
/// cost otherwise.
pub open spec fn spec_min_cost(cells: Seq<u64>, h: int, w: int) -> Result<u64, SolveError> {
    if h <= 0 || w <= 0 {
        Err(SolveError::ZeroDimension)
    } else if exists|j: int, i: int|
        0 <= j < h && 0 <= i < w && #[trigger] min_path_cost(cells, w, j, i) > u64::MAX {
        Err(SolveError::CostOverflow)
    } else {
        Ok(min_path_cost(cells, w, h - 1, w - 1) as u64)
    }
}

/// The least cost of a monotone walk from the top-left to the bottom-right
/// of an `h` by `w` row-major grid.
pub fn min_cost_grid_path(h: usize, w: usize, cells: &Vec<u64>) -> (r: Result<u64, SolveError>)
    requires
        h * w == cells@.len(),
    ensures
        r == spec_min_cost(cells@, h as int, w as int),
{
    if h == 0 || w == 0 {
        return Err(SolveError::ZeroDimension);
    }
    let ghost cs = cells@;
    let ghost wi = w as int;
    let mut current: Vec<u64> = Vec::new();
    let mut i: usize = 0;
    while i < w
        invariant
            0 < w,
            0 < h,
            h * w == cells@.len(),
            cs == cells@,
            wi == w as int,
            i <= w,
            current@.len() == i as int,
            forall|k: int| 0 <= k < i ==> current@[k] as int == min_path_cost(cs, wi, 0, k),
        decreases w - i,
    {
        proof {
            lemma_grid_index(h as int, w as int, 0, i as int);
        }
        let value = cells[i];
        assert(value == grid_cell(cs, wi, 0, i as int));
        if i == 0 {
            current.push(value);
        } else {
            let base = current[i - 1];
            if value > u64::MAX - base {
                proof {
                    assert(min_path_cost(cs, wi, 0, i as int) > u64::MAX);
                    assert(exists|j2: int, i2: int|
                        0 <= j2 < h && 0 <= i2 < w
                            && #[trigger] min_path_cost(cs, wi, j2, i2) > u64::MAX);
                }
                return Err(SolveError::CostOverflow);
            }
            current.push(base + value);
        }
        i += 1;
    }
    let n = cells.len();
    assert forall|j2: int, i2: int| 0 <= j2 < 1 && 0 <= i2 < w
        implies #[trigger] min_path_cost(cs, wi, j2, i2) <= u64::MAX by {
        assert(current@[i2] as int == min_path_cost(cs, wi, 0, i2));
    }
    let mut j: usize = 1;
    while j < h
        invariant
            0 < w,
            0 < h,
            h * w == cells@.len(),
            n == cells@.len(),
            cs == cells@,
            wi == w as int,
            1 <= j <= h,
            current@.len() == w as int,
            forall|k: int| 0 <= k < w ==> current@[k] as int == min_path_cost(cs, wi, j - 1, k),
            forall|j2: int, i2: int| 0 <= j2 < j && 0 <= i2 < w
                ==> #[trigger] min_path_cost(cs, wi, j2, i2) <= u64::MAX,
        decreases h - j,
    {
        let prev = current;
        let mut cur: Vec<u64> = Vec::new();
        let mut i2: usize = 0;
        while i2 < w
            invariant
                0 < w,
                0 < h,
                h * w == cells@.len(),
                n == cells@.len(),
                cs == cells@,
                wi == w as int,
                1 <= j < h,
                i2 <= w,
                prev@.len() == w as int,
                forall|k: int| 0 <= k < w ==> prev@[k] as int == min_path_cost(cs, wi, j - 1, k),
                cur@.len() == i2 as int,
                forall|k: int| 0 <= k < i2 ==> cur@[k] as int == min_path_cost(cs, wi, j as int, k),
            decreases w - i2,
        {
            proof {
                lemma_grid_index(h as int, w as int, j as int, i2 as int);
            }
            let idx = j * w + i2;
            let value = cells[idx];
            assert(value == grid_cell(cs, wi, j as int, i2 as int));
            let m = if i2 == 0 {
                prev[0]
            } else {
                let a = cur[i2 - 1];
                let b = prev[i2];
                if a <= b {
                    a
                } else {
                    b
                }
            };
            assert(value as int + m as int == min_path_cost(cs, wi, j as int, i2 as int));
            if value > u64::MAX - m {
                proof {
                    assert(min_path_cost(cs, wi, j as int, i2 as int) > u64::MAX);
                    assert(exists|j2: int, i2x: int|
                        0 <= j2 < h && 0 <= i2x < w
                            && #[trigger] min_path_cost(cs, wi, j2, i2x) > u64::MAX);
                }
                return Err(SolveError::CostOverflow);
            }
            cur.push(value + m);
            i2 += 1;
        }
        current = cur;
        assert forall|j2: int, i2: int| 0 <= j2 < j + 1 && 0 <= i2 < w
            implies #[trigger] min_path_cost(cs, wi, j2, i2) <= u64::MAX by {
            if j2 == j {
                assert(current@[i2] as int == min_path_cost(cs, wi, j2, i2));
            }
        }
        j += 1;
    }
    proof {
        assert forall|j2: int, i2: int| 0 <= j2 < h && 0 <= i2 < w
            implies #[trigger] min_path_cost(cs, wi, j2, i2) <= u64::MAX by {
        }
        assert(!(exists|j2: int, i2: int|
            0 <= j2 < h && 0 <= i2 < w
                && #[trigger] min_path_cost(cs, wi, j2, i2) > u64::MAX));
    }
    let r = current[w - 1];
    assert(r as int == min_path_cost(cs, wi, h - 1, w - 1));
    Ok(r)
}

/// The grid the cell tokens denote: token `2 + k` read as the `k`-th cell.
pub open spec fn spec_cells_of(toks: Seq<Seq<u8>>, count: int) -> Seq<u64> {
    Seq::new(count as nat, |k: int| (digits_value(toks[2 + k]) as u64))
}

/// What the whole min-cost run returns for a raw byte input: height, width
/// and `height * width` cells are read as the leading tokens, then the least
/// bottom-right path cost is computed; the first failure in reading order
/// decides the error.
pub open spec fn spec_solve_cheapest(input: Seq<u8>) -> Result<u64, SolveError> {
    let toks = spec_tokens(input);
    if toks.len() < 1 {
        Err(SolveError::EndOfInput(Field::Height))
    } else if spec_parse_u64(toks[0]) is None {
        Err(SolveError::Malformed(Field::Height))
    } else if toks.len() < 2 {
        Err(SolveError::EndOfInput(Field::Width))
    } else if spec_parse_u64(toks[1]) is None {
        Err(SolveError::Malformed(Field::Width))
    } else {
        let h = digits_value(toks[0]);
        let w = digits_value(toks[1]);
        if h == 0 || w == 0 {
            Err(SolveError::ZeroDimension)
        } else {
            let need = h * w;
            let avail = toks.len() - 2;
            let upto = if need <= avail { need } else { avail };
            if exists|k: int| 0 <= k < upto && #[trigger] spec_parse_u64(toks[2 + k]) is None {
                Err(SolveError::Malformed(Field::Cell))
            } else if avail < need {
                Err(SolveError::EndOfInput(Field::Cell))
            } else {
                spec_min_cost(spec_cells_of(toks, need), h, w)
            }
        }
    }
}

/// Runs the min-cost solver over a raw byte input: tokens are read as
/// height, width and the row-major cells, and the least path cost follows.
#[verifier::loop_isolation(false)]
pub fn solve_cheapest_way(input: &[u8]) -> (r: Result<u64, SolveError>)
    ensures
        r == spec_solve_cheapest(input@),
{
    let ghost toks = spec_tokens(input@);
    let mut sp = BufReadSplitter::new();
    sp.feed(input);
    assert(sp@ =~= input@);
    let h = match read_safe(&mut sp, Field::Height) {
        Ok(v) => v,
        Err(e) => {
            return Err(e);
        },
    };
    let w = match read_safe(&mut sp, Field::Width) {
        Ok(v) => v,
        Err(e) => {
            assert(spec_tokens(input@).skip(1).len() == 0 ==> spec_tokens(input@).len() == 1);
            return Err(e);
        },
    };
    proof {
        crate::parse::lemma_digits_value_nonneg(toks[0]);
        crate::parse::lemma_digits_value_nonneg(toks[1]);
    }
    assert(h as int == digits_value(toks[0]));
    assert(w as int == digits_value(toks[1]));
    if h == 0 || w == 0 {
        return Err(SolveError::ZeroDimension);
    }
    let ghost hh = h as int;
    let ghost ww = w as int;
    let mut cells: Vec<u64> = Vec::new();
    let mut j: u64 = 0;
    while j < h
        invariant
            0 < h,
            0 < w,
            j <= h,
            hh == h as int,
            ww == w as int,
            toks == spec_tokens(input@),
            cells@.len() == j * ww,
            2 + cells@.len() <= toks.len(),
            spec_tokens(sp@) == toks.skip(2 + cells@.len() as int),
            forall|q: int| 0 <= q < cells@.len()
                ==> #[trigger] spec_parse_u64(toks[2 + q]) == Some(cells@[q]),
        decreases h - j,
    {
        let mut i: u64 = 0;
        while i < w
            invariant
                0 < h,
                0 < w,
                j < h,
                i <= w,
                hh == h as int,
                ww == w as int,
                toks == spec_tokens(input@),
                cells@.len() == j * ww + i,
                2 + cells@.len() <= toks.len(),
                spec_tokens(sp@) == toks.skip(2 + cells@.len() as int),
                forall|q: int| 0 <= q < cells@.len()
                    ==> #[trigger] spec_parse_u64(toks[2 + q]) == Some(cells@[q]),
            decreases w - i,
        {
            proof {
                lemma_grid_index(hh, ww, j as int, i as int);
            }
            let ghost len0 = cells@.len() as int;
            match read_safe(&mut sp, Field::Cell) {
                Ok(v) => {
                    assert(spec_parse_u64(toks[2 + len0]) == Some(v));
                    cells.push(v);
                    proof {
                        assert(toks.skip(2 + len0).skip(1) =~= toks.skip(2 + len0 + 1));
                    }
                },
                Err(e) => {
                    proof {
                        lemma_grid_index(hh, ww, j as int, i as int);
                        assert(len0 < hh * ww);
                        let need = hh * ww;
                        let avail = toks.len() - 2;
                        let upto: int = if need <= avail { need } else { avail };
                        if e == SolveError::EndOfInput(Field::Cell) {
                            assert(toks.skip(2 + len0).len() == 0);
                            assert(toks.len() == 2 + len0);
                            assert(avail == len0);
                            assert(upto == len0);
                            assert forall|k: int| 0 <= k < upto
                                implies !(#[trigger] spec_parse_u64(toks[2 + k]) is None) by {
                                assert(spec_parse_u64(toks[2 + k]) == Some(cells@[k]));
                            }
                            assert(avail < need);
                        } else {
                            assert(spec_parse_u64(toks[2 + len0]) is None);
                            assert(toks.skip(2 + len0).len() > 0);
                            assert(toks.len() > 2 + len0);
                            assert(len0 < avail && len0 < need);
                            assert(0 <= len0 < upto && spec_parse_u64(toks[2 + len0]) is None);
                            assert(exists|k: int|
                                0 <= k < upto && #[trigger] spec_parse_u64(toks[2 + k]) is None);
                        }
                    }
                    return Err(e);
                },
            }
            i += 1;
        }
        j += 1;
        assert(cells@.len() == j * ww) by (nonlinear_arith)
            requires
                cells@.len() == (j - 1) * ww + ww,
        {}
    }
    // Every needed cell token was present and parsed.
    assert(cells@.len() == hh * ww);
    assert(toks.len() - 2 >= hh * ww);
    assert(!(exists|k: int|
        0 <= k < hh * ww && #[trigger] spec_parse_u64(toks[2 + k]) is None));
    assert forall|k: int| 0 <= k < hh * ww
        implies spec_cells_of(toks, hh * ww)[k] == cells@[k] by {
        assert(spec_parse_u64(toks[2 + k]) == Some(cells@[k]));
    }
    assert(spec_cells_of(toks, hh * ww) =~= cells@);
    proof {
        assert(ww <= hh * ww && hh <= hh * ww) by (nonlinear_arith)
            requires
                hh >= 1,
                ww >= 1,
        {}
    }
    let n = cells.len();
    assert(hh <= n && ww <= n);
    let hu = h as usize;
    let wu = w as usize;
    assert(hu as int == hh && wu as int == ww);
    let r = min_cost_grid_path(hu, wu, &cells);
    assert(r == spec_min_cost(cells@, hh, ww));
    r
}

/// The min-cost run is a pure function of its token sequence: two inputs
/// with the same tokens get the same result.
pub proof fn lemma_cheapest_tokens_only(a: Seq<u8>, b: Seq<u8>)
    requires
        spec_tokens(a) == spec_tokens(b),
    ensures
        spec_solve_cheapest(a) == spec_solve_cheapest(b),
{
}

} // verus!
