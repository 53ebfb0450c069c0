use std::collections::HashMap;
use thunfisch::move_scoring::{calculate_mvv_lva_score, mvv_lva_table};
use thunfisch::pv::{init_index_table, PVTable, MAX_DEPTH};

#[test]
fn test_triangular_index_table() {
    let pvt = PVTable::new();
    let triangular_index = init_index_table();
    assert_eq!(triangular_index[0], 0);
    assert_eq!(triangular_index[1], 127);
    assert_eq!(triangular_index[2], 253);
    assert_eq!(triangular_index[MAX_DEPTH - 1], pvt.table.len() - 1);
}

fn value_distribution() -> Vec<(i32, usize)> {
    let table = mvv_lva_table();
    let mut value_dist: HashMap<i32, usize> = HashMap::new();
    for i in 0..6 {
        for ii in 0..6 {
            let mvv_lva_val = table[i][ii];
            *value_dist.entry(mvv_lva_val).or_insert(0) += 1;
        }
    }
    let mut value_dist = value_dist.into_iter().collect::<Vec<(i32, usize)>>();
    value_dist.sort_by_key(|&(key, _)| key);
    value_dist.sort_by_key(|&(_, val)| val);
    value_dist
}

#[test]
fn move_scoring_print_mvva_lva_table() {
    let value_dist = value_distribution();
    println!("{:?}", value_dist.iter());
}

#[test]
fn mvv_lva_print_mvva_lva_table() {
    let value_dist = value_distribution();
    println!("{:?}", value_dist.iter());
}

#[test]
fn mvv_lva_values_match_the_documented_distribution() {
    let value_dist = value_distribution();
    assert_eq!(value_dist.len(), 31);
    assert_eq!(value_dist[value_dist.len() - 1], (0, 6));
    assert_eq!(value_dist[0], (10000, 1));
    assert_eq!(calculate_mvv_lva_score(4, 0), 99900);
    assert_eq!(calculate_mvv_lva_score(0, 5), 10000);
    assert_eq!(calculate_mvv_lva_score(5, 0), 0);
}

#[test]
fn push_move_copies_the_deeper_line() {
    let mut pvt = PVTable::new();
    let index = init_index_table();
    pvt.push_move(1, thunfisch::types::EncodedMove(77));
    assert_eq!(pvt.table[index[1]].0, 77);
    assert_eq!(pvt.get_bestmove(1), Some(thunfisch::types::EncodedMove(77)));
    assert_eq!(pvt.get_bestmove(0), None);
}
