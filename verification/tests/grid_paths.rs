use token_dp::errors::{Field, SolveError};
use token_dp::max_route::{max_cost_route, solve_max_route};
use token_dp::min_path::{min_cost_grid_path, solve_cheapest_way};

fn brute_min(h: usize, w: usize, cells: &[u64], j: usize, i: usize) -> u64 {
    let c = cells[j * w + i];
    if j == 0 && i == 0 {
        c
    } else if j == 0 {
        c + brute_min(h, w, cells, 0, i - 1)
    } else if i == 0 {
        c + brute_min(h, w, cells, j - 1, 0)
    } else {
        c + brute_min(h, w, cells, j - 1, i).min(brute_min(h, w, cells, j, i - 1))
    }
}

fn brute_max(h: usize, w: usize, cells: &[u64], j: usize, i: usize) -> u64 {
    let c = cells[j * w + i];
    if j == 0 && i == 0 {
        c
    } else if j == 0 {
        c + brute_max(h, w, cells, 0, i - 1)
    } else if i == 0 {
        c + brute_max(h, w, cells, j - 1, 0)
    } else {
        c + brute_max(h, w, cells, j - 1, i).max(brute_max(h, w, cells, j, i - 1))
    }
}

fn path_sum(w: usize, cells: &[u64], path: &[u8]) -> u64 {
    let mut j = 0usize;
    let mut i = 0usize;
    let mut total = cells[0];
    for &m in path {
        if m == b'D' {
            j += 1;
        } else {
            assert_eq!(m, b'R');
            i += 1;
        }
        total += cells[j * w + i];
    }
    total
}

#[test]
fn min_single_cell() {
    assert_eq!(solve_cheapest_way(b"1 1 5"), Ok(5));
}

#[test]
fn min_two_by_two() {
    assert_eq!(solve_cheapest_way(b"2 2\n1 2\n1 1\n"), Ok(3));
}

#[test]
fn min_core_direct() {
    let cells = vec![1, 2, 1, 1];
    assert_eq!(min_cost_grid_path(2, 2, &cells), Ok(3));
}

#[test]
fn min_matches_brute_force() {
    let grids: [(usize, usize, Vec<u64>); 3] = [
        (3, 3, vec![3, 1, 4, 1, 5, 9, 2, 6, 5]),
        (2, 4, vec![7, 1, 1, 9, 2, 8, 1, 1]),
        (4, 2, vec![0, 3, 5, 0, 2, 2, 9, 1]),
    ];
    for (h, w, cells) in grids {
        let expected = brute_min(h, w, &cells, h - 1, w - 1);
        assert_eq!(min_cost_grid_path(h, w, &cells), Ok(expected));
    }
}

#[test]
fn min_zero_dimension_is_error() {
    assert_eq!(solve_cheapest_way(b"0 3 1 2 3"), Err(SolveError::ZeroDimension));
    assert_eq!(solve_cheapest_way(b"3 0"), Err(SolveError::ZeroDimension));
}

#[test]
fn min_missing_tokens() {
    assert_eq!(solve_cheapest_way(b""), Err(SolveError::EndOfInput(Field::Height)));
    assert_eq!(solve_cheapest_way(b"2"), Err(SolveError::EndOfInput(Field::Width)));
    assert_eq!(solve_cheapest_way(b"2 2 1 2 3"), Err(SolveError::EndOfInput(Field::Cell)));
}

#[test]
fn min_malformed_tokens() {
    assert_eq!(solve_cheapest_way(b"x 2"), Err(SolveError::Malformed(Field::Height)));
    assert_eq!(solve_cheapest_way(b"2 -1"), Err(SolveError::Malformed(Field::Width)));
    assert_eq!(solve_cheapest_way(b"2 2 1 a 3 4"), Err(SolveError::Malformed(Field::Cell)));
}

#[test]
fn min_cost_overflow() {
    assert_eq!(
        solve_cheapest_way(b"1 2 18446744073709551615 1"),
        Err(SolveError::CostOverflow)
    );
}

#[test]
fn min_idempotent() {
    let input: &[u8] = b"2 2 1 2 1 1";
    assert_eq!(solve_cheapest_way(input), solve_cheapest_way(input));
    // The result depends on the tokens alone, not on how they are spaced.
    assert_eq!(solve_cheapest_way(b"2\t2\n1 2\r\n1 1\n"), solve_cheapest_way(input));
}

#[test]
fn max_two_by_two() {
    let r = solve_max_route(b"2 2\n1 2\n3 4\n").unwrap();
    assert_eq!(r.0, 8);
    assert_eq!(r.1, b"DR".to_vec());
    assert_eq!(path_sum(2, &[1, 2, 3, 4], &r.1), 8);
}

#[test]
fn max_single_cell() {
    let r = solve_max_route(b"1 1 5").unwrap();
    assert_eq!(r.0, 5);
    assert_eq!(r.1, Vec::<u8>::new());
}

#[test]
fn max_tie_breaks_right() {
    let r = solve_max_route(b"2 2 1 1 1 1").unwrap();
    assert_eq!(r.0, 3);
    assert_eq!(r.1, b"DR".to_vec());
}

#[test]
fn max_all_zero_cells() {
    let r = solve_max_route(b"2 2 0 0 0 0").unwrap();
    assert_eq!(r.0, 0);
    assert_eq!(r.1.len(), 2);
    assert_eq!(path_sum(2, &[0, 0, 0, 0], &r.1), 0);
}

#[test]
fn max_matches_brute_force_and_path_is_consistent() {
    let grids: [(usize, usize, Vec<u64>); 3] = [
        (3, 3, vec![3, 1, 4, 1, 5, 9, 2, 6, 5]),
        (2, 4, vec![7, 1, 1, 9, 2, 8, 1, 1]),
        (4, 2, vec![0, 3, 5, 0, 2, 2, 9, 1]),
    ];
    for (h, w, cells) in grids {
        let expected = brute_max(h, w, &cells, h - 1, w - 1);
        let (total, path) = max_cost_route(h, w, &cells).unwrap();
        assert_eq!(total, expected);
        assert_eq!(path.len(), h + w - 2);
        assert_eq!(path_sum(w, &cells, &path), total);
    }
}

#[test]
fn max_zero_dimension_is_error() {
    assert_eq!(solve_max_route(b"0 2 1 1"), Err(SolveError::ZeroDimension));
    assert_eq!(solve_max_route(b"2 0"), Err(SolveError::ZeroDimension));
}

#[test]
fn max_missing_and_malformed() {
    assert_eq!(solve_max_route(b""), Err(SolveError::EndOfInput(Field::Height)));
    assert_eq!(solve_max_route(b"2"), Err(SolveError::EndOfInput(Field::Width)));
    assert_eq!(solve_max_route(b"q"), Err(SolveError::Malformed(Field::Height)));
    assert_eq!(solve_max_route(b"2 2 1 2 3"), Err(SolveError::EndOfInput(Field::Cell)));
    assert_eq!(solve_max_route(b"2 2 1 z 3 4"), Err(SolveError::Malformed(Field::Cell)));
}

#[test]
fn max_cost_overflow() {
    assert_eq!(
        solve_max_route(b"1 2 18446744073709551615 1"),
        Err(SolveError::CostOverflow)
    );
}

#[test]
fn max_idempotent() {
    let input: &[u8] = b"2 3 1 2 3 4 5 6";
    assert_eq!(solve_max_route(input), solve_max_route(input));
    assert_eq!(solve_max_route(b"2\n3\n1 2 3\n4 5 6\n"), solve_max_route(input));
}
