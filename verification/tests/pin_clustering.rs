use token_dp::errors::{Field, SolveError};
use token_dp::pins::{calculate_shortest_pin_path, solve_pins, sorted_unique};

// The linking cost pays a subset of the consecutive gaps: the first and the
// last gap are always paid, and no two consecutive gaps are both skipped.
// The solver's scan must find the cheapest such subset.
fn brute_cluster(pins: &[u64]) -> Option<u64> {
    if pins.len() < 2 {
        return None;
    }
    let gaps: Vec<u64> = pins.windows(2).map(|p| p[1] - p[0]).collect();
    let m = gaps.len();
    let mut best: Option<u64> = None;
    for mask in 0u32..(1u32 << m) {
        let picked = |k: usize| mask & (1 << k) != 0;
        if !picked(0) || !picked(m - 1) {
            continue;
        }
        let mut ok = true;
        for k in 0..m - 1 {
            if !picked(k) && !picked(k + 1) {
                ok = false;
            }
        }
        if !ok {
            continue;
        }
        let total: u64 = (0..m).filter(|&k| picked(k)).map(|k| gaps[k]).sum();
        best = Some(best.map_or(total, |b: u64| b.min(total)));
    }
    best
}

#[test]
fn pins_three_consecutive() {
    assert_eq!(solve_pins(b"3 1 2 3"), Ok(2));
}

#[test]
fn pins_core_direct() {
    let pins = vec![1, 2, 3];
    assert_eq!(calculate_shortest_pin_path(&pins), Some(2));
}

#[test]
fn pins_two_pins() {
    assert_eq!(solve_pins(b"2 10 4"), Ok(6));
}

#[test]
fn pins_skip_gap() {
    // Pins 1 2 4 8: paying gaps 1 and 4 while skipping the middle one wins.
    assert_eq!(solve_pins(b"4 1 2 4 8"), Ok(5));
}

#[test]
fn pins_match_brute_force() {
    let sets: [&[u64]; 4] = [
        &[1, 2, 3],
        &[1, 2, 4, 8],
        &[5, 9, 10, 11, 30],
        &[0, 100, 101, 102, 200],
    ];
    for pins in sets {
        let expected = brute_cluster(pins);
        assert_eq!(calculate_shortest_pin_path(&pins.to_vec()), expected);
    }
}

#[test]
fn pins_duplicates_collapse() {
    assert_eq!(solve_pins(b"5 3 3 1 2 1"), Ok(2));
}

#[test]
fn pins_short_stream_is_not_an_error() {
    // Fewer pin tokens than the declared count: the pins that are there count.
    assert_eq!(solve_pins(b"5 1 2"), Ok(1));
}

#[test]
fn pins_zero_count_has_no_solution() {
    assert_eq!(solve_pins(b"0"), Err(SolveError::NoSolution));
    assert_eq!(solve_pins(b"0 1 2"), Err(SolveError::NoSolution));
}

#[test]
fn pins_single_pin_has_no_solution() {
    assert_eq!(solve_pins(b"1 7"), Err(SolveError::NoSolution));
    assert_eq!(solve_pins(b"2 5 5"), Err(SolveError::NoSolution));
}

#[test]
fn pins_missing_and_malformed() {
    assert_eq!(solve_pins(b""), Err(SolveError::EndOfInput(Field::PinCount)));
    assert_eq!(solve_pins(b"x"), Err(SolveError::Malformed(Field::PinCount)));
    assert_eq!(solve_pins(b"2 1 y"), Err(SolveError::Malformed(Field::Pin)));
}

#[test]
fn pins_idempotent() {
    let input: &[u8] = b"4 1 2 4 8";
    assert_eq!(solve_pins(input), solve_pins(input));
    assert_eq!(solve_pins(b"4\n1\t2 4\r\n8\n"), solve_pins(input));
}

#[test]
fn sorted_unique_orders_and_dedups() {
    let values = vec![5, 1, 5, 3, 1];
    assert_eq!(sorted_unique(&values), vec![1, 3, 5]);
    assert_eq!(sorted_unique(&Vec::new()), Vec::<u64>::new());
}
