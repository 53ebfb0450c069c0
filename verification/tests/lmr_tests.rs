use thunfisch::lmr::{int_ln, lmr_reduction, lmr_table};

#[test]
fn print_lmp_board() {
    println!("{}", u32::from(false));
    let lmr = lmr_table();
    println!("{lmr:?}");
}

#[test]
fn int_ln_matches_the_float_formula() {
    for n in 1usize..5000 {
        let expected = (1.0 / std::f64::consts::LOG2_E * n.ilog2() as f64) as u32;
        assert_eq!(int_ln(n), expected, "n = {}", n);
    }
}

#[test]
fn lmr_reduction_matches_the_float_formula() {
    for depth in 1usize..64 {
        for moves_visited in 1usize..64 {
            let expected = (1.35
                + int_ln(depth) as f64 * int_ln(moves_visited) as f64 / 2.75) as u32;
            assert_eq!(lmr_reduction(depth, moves_visited), expected);
        }
    }
    assert_eq!(lmr_reduction(63, 63), 4);
    assert_eq!(lmr_reduction(1, 1), 1);
    let table = lmr_table();
    assert_eq!(table[0][5], 0);
    assert_eq!(table[63][63], 4);
}
