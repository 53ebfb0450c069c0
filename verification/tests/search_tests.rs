use std::sync::atomic::AtomicBool;
use std::sync::Arc;
use thunfisch::board::Board;
use thunfisch::search::{
    alpha_beta, best_result, keep_best, quiescence_search, rfp_margin, search_iteration, search_root,
    IterationResult, SearchInfo, NEGAMAX_MATE_SCORE,
};
use thunfisch::settings::{repr, RandomXorShiftGenerator};
use thunfisch::time_management::{calc_search_time, time_budget, TimeControl, MAX_DEPTH, NO_LIMIT_MILLIS};
use thunfisch::transposition_table::{TranspositionTable, MATE_SCORE};
use thunfisch::types::{DecodedMove, EncodedMove, MoveType, Square};
use thunfisch::visualize::{format_usize, group_moves_by_type};

const BACK_RANK_MATE: &str = "6k1/5ppp/8/8/8/8/5PPP/R5K1 w - - 0 1";

fn stop_flag(value: bool) -> Arc<AtomicBool> {
    Arc::new(AtomicBool::new(value))
}

fn a1a8() -> EncodedMove {
    DecodedMove { from: Square(0), to: Square(56), mv_type: MoveType::Quiet }.encode()
}

#[test]
fn search_time_fixed_depth() {
    let board = Board::from_fen("rnbqkbnr/pppppppp/8/8/8/8/PPPPPPPP/RNBQKBNR w KQkq - 0 1");
    assert_eq!(calc_search_time("depth 5", &board), (5, NO_LIMIT_MILLIS));
    assert_eq!(calc_search_time("depth x", &board), (0, NO_LIMIT_MILLIS));
    assert_eq!(calc_search_time("", &board), (MAX_DEPTH, NO_LIMIT_MILLIS));
}

#[test]
fn search_time_from_the_clock() {
    let white = Board::from_fen("rnbqkbnr/pppppppp/8/8/8/8/PPPPPPPP/RNBQKBNR w KQkq - 0 1");
    let black = Board::from_fen("rnbqkbnr/pppppppp/8/8/8/8/PPPPPPPP/RNBQKBNR b KQkq - 0 1");
    assert_eq!(calc_search_time("wtime 60000 btime 30000", &white), (MAX_DEPTH, 2000));
    assert_eq!(calc_search_time("wtime 60000 btime 30000", &black), (MAX_DEPTH, 1000));
    assert_eq!(calc_search_time("wtime 60000 winc 1000 movestogo 10", &white), (MAX_DEPTH, 6500));
    assert_eq!(calc_search_time("movetime 1500 wtime 5", &white), (MAX_DEPTH, 1500));
    assert_eq!(calc_search_time("fixtime 700 movetime 1500", &white), (MAX_DEPTH, 700));
    assert_eq!(calc_search_time("wtime 100", &white), (MAX_DEPTH, 10));
    assert_eq!(calc_search_time("wtime 40 winc 1000", &white), (MAX_DEPTH, 10));
    assert_eq!(calc_search_time("wtime abc btime 3000", &black), (MAX_DEPTH, 100));
    assert_eq!(calc_search_time("infinite wtime", &white), (MAX_DEPTH, NO_LIMIT_MILLIS));
}

#[test]
fn time_budget_keeps_a_safety_margin() {
    let tc = TimeControl { wtime: 1000, btime: 0, winc: 2000, binc: 0, movestogo: 1, movetime: 0, fixtime: 0 };
    // 1000 + 1000 would use all the time: the budget is the time left less 50.
    assert_eq!(time_budget(&tc, true), 950);
}

#[test]
fn short_counts() {
    assert_eq!(format_usize(0), "0");
    assert_eq!(format_usize(999), "999");
    assert_eq!(format_usize(1000), "1k");
    assert_eq!(format_usize(1500), "1.5k");
    assert_eq!(format_usize(4_865_609), "4.8M");
    assert_eq!(format_usize(193_690_690), "193.6M");
    assert_eq!(format_usize(2_000_000_000), "2G");
    assert_eq!(format_usize(usize::MAX), "18.4E");
}

#[test]
fn moves_grouped_by_type() {
    let board = Board::from_fen("r3k2r/p1ppqpb1/bn2pnp1/3PN3/1p2P3/2N2Q1p/PPPBBPPP/R3K2R w KQkq - ");
    let list = board.generate_all_moves();
    let moves: Vec<EncodedMove> = (0..list.len()).map(|i| list.get(i).mv).collect();
    let groups = group_moves_by_type(&moves);
    assert_eq!(groups.len(), 16);
    assert_eq!(groups[MoveType::Capture.code() as usize].len(), 8);
    assert_eq!(groups[MoveType::KingCastle.code() as usize].len(), 1);
    assert_eq!(groups[MoveType::QueenCastle.code() as usize].len(), 1);
    assert_eq!(groups.iter().map(|g| g.len()).sum::<usize>(), 48);
    for (c, g) in groups.iter().enumerate() {
        for m in g {
            assert_eq!(m.decode().mv_type.code() as usize, c);
        }
    }
}

#[test]
fn negamax_finds_the_back_rank_mate() {
    let board = Board::from_fen(BACK_RANK_MATE);
    let (best, score) = board.negamax(2, -i32::MAX, i32::MAX);
    assert_eq!(best, Some(a1a8()));
    assert_eq!(score, -(NEGAMAX_MATE_SCORE + 1));
}

#[test]
fn negamax_scores_a_mated_position() {
    let board = Board::from_fen("R5k1/5ppp/8/8/8/8/5PPP/6K1 b - - 1 1");
    assert_eq!(board.negamax(3, -i32::MAX, i32::MAX), (None, NEGAMAX_MATE_SCORE + 3));
    let (best, score) = board.negamax(0, -i32::MAX, i32::MAX);
    assert_eq!((best, score), (None, board.evaluate()));
}

#[test]
fn alpha_beta_scores_mate_and_stalemate() {
    let mut tt = TranspositionTable::new(1);
    let stop = stop_flag(false);
    let mut info = SearchInfo::new(stop.clone());
    let mut seldepth = 0;

    let mut mated = Board::from_fen("R5k1/5ppp/8/8/8/8/5PPP/6K1 b - - 1 1");
    let (line, score) =
        alpha_beta(&mut mated, 1, -i32::MAX, i32::MAX, &stop, &mut info, 3, &mut seldepth, true, &mut tt);
    assert!(line.is_empty());
    assert_eq!(score, -MATE_SCORE + 3);

    let mut stalemated = Board::from_fen("7k/5Q2/6K1/8/8/8/8/8 b - - 0 1");
    let (_, score) =
        alpha_beta(&mut stalemated, 2, -i32::MAX, i32::MAX, &stop, &mut info, 0, &mut seldepth, true, &mut tt);
    assert_eq!(score, 0);
    assert!(!info.timeout_occurred);
    assert!(seldepth >= 3);
}

#[test]
fn alpha_beta_finds_the_back_rank_mate() {
    let mut tt = TranspositionTable::new(1);
    let stop = stop_flag(false);
    let mut info = SearchInfo::new(stop.clone());
    let mut seldepth = 0;
    let mut board = Board::from_fen(BACK_RANK_MATE);
    let hash = board.hash();
    let (_, score) =
        alpha_beta(&mut board, 2, -i32::MAX, i32::MAX, &stop, &mut info, 0, &mut seldepth, true, &mut tt);
    assert_eq!(score, MATE_SCORE - 1);
    assert_eq!(board.hash(), hash, "the board is left as it was");
    assert!(info.total_alpha_beta_nodes > 1);
}

#[test]
fn a_set_stop_flag_ends_the_search() {
    let mut tt = TranspositionTable::new(1);
    let stop = stop_flag(true);
    let mut info = SearchInfo::new(stop.clone());
    let mut seldepth = 0;
    let mut board = Board::from_fen(BACK_RANK_MATE);
    let (_, score) =
        alpha_beta(&mut board, 3, -i32::MAX, i32::MAX, &stop, &mut info, 0, &mut seldepth, true, &mut tt);
    assert_eq!(score, 0);
    assert!(info.timeout_occurred);
}

#[test]
fn fifty_moves_without_progress_score_zero() {
    let mut tt = TranspositionTable::new(1);
    let stop = stop_flag(false);
    let mut info = SearchInfo::new(stop.clone());
    let mut seldepth = 0;
    let mut board = Board::from_fen("6k1/5ppp/8/8/8/8/5PPP/R5K1 w - - 100 80");
    let (_, score) =
        alpha_beta(&mut board, 2, -i32::MAX, i32::MAX, &stop, &mut info, 0, &mut seldepth, true, &mut tt);
    assert_eq!(score, 0);
    let qs = quiescence_search(&mut board, -i32::MAX, i32::MAX, 4, &stop, &mut info, 0, &mut seldepth, &mut tt);
    assert_eq!(qs, 0);
}

#[test]
fn quiescence_of_a_quiet_position_is_the_evaluation() {
    let mut tt = TranspositionTable::new(1);
    let stop = stop_flag(false);
    let mut info = SearchInfo::new(stop.clone());
    let mut seldepth = 0;
    let mut board = Board::from_fen("rnbqkbnr/pppppppp/8/8/8/8/PPPPPPPP/RNBQKBNR w KQkq - 0 1");
    let eval = board.evaluate();
    let qs = quiescence_search(&mut board, -i32::MAX, i32::MAX, 12, &stop, &mut info, 2, &mut seldepth, &mut tt);
    assert_eq!(qs, eval);
    assert_eq!(seldepth, 2);
    let horizon = quiescence_search(&mut board, -i32::MAX, i32::MAX, 0, &stop, &mut info, 0, &mut seldepth, &mut tt);
    assert_eq!(horizon, eval);
}

#[test]
fn quiescence_one_ply_takes_the_capture_value() {
    let fen = "4k3/8/8/3r4/8/8/3Q4/4K3 w - - 0 1";
    let mut tt = TranspositionTable::new(1);
    let stop = stop_flag(false);
    let mut info = SearchInfo::new(stop.clone());
    let mut seldepth = 0;
    let mut board = Board::from_fen(fen);
    let stand_pat = board.evaluate();
    let mut child = Board::from_fen(fen);
    child.make_move(&DecodedMove { from: Square(11), to: Square(35), mv_type: MoveType::Capture });
    let after_capture = child.evaluate();
    let qs = quiescence_search(&mut board, -i32::MAX, i32::MAX, 1, &stop, &mut info, 0, &mut seldepth, &mut tt);
    assert!(qs >= -after_capture);
    assert_eq!(qs, stand_pat.max(-after_capture));
    assert!(qs > stand_pat);
}

#[test]
fn iteration_finds_the_back_rank_mate() {
    let mut tt = TranspositionTable::new(1);
    let stop = stop_flag(false);
    let mut info = SearchInfo::new(stop.clone());
    let board = Board::from_fen(BACK_RANK_MATE);
    let results = search_root(&board, 2, &stop, &mut info, &mut tt);
    assert_eq!(results.len(), board.generate_all_moves().len());
    let moves = board.generate_all_moves();
    for (line, _, seldepth) in &results {
        assert!(!line.is_empty() && line.len() <= 2);
        let root = *line.last().unwrap();
        assert!((0..moves.len()).any(|i| moves.get(i).mv == root));
        assert!(*seldepth >= 1);
    }
    let iteration = search_iteration(&board, 2, &stop, &mut info, &mut tt);
    assert_eq!(iteration.best_line, vec![a1a8()]);
    assert_eq!(iteration.best_eval, MATE_SCORE - 1);
    assert!(!iteration.timeout_occurred);

    let mut best_line = vec![];
    let mut best_eval = i32::MIN;
    assert!(keep_best(&mut best_line, &mut best_eval, iteration));
    assert_eq!(best_line, vec![a1a8()]);
    assert_eq!(best_eval, MATE_SCORE - 1);

    let timed_out = IterationResult {
        best_line: vec![],
        best_eval: 5,
        seldepth: 1,
        timeout_occurred: true,
        alpha_beta_nodes: 0,
        qs_nodes: 0,
    };
    assert!(!keep_best(&mut best_line, &mut best_eval, timed_out));
    assert_eq!(best_line, vec![a1a8()]);
    assert_eq!(best_eval, MATE_SCORE - 1);
}

#[test]
fn best_result_takes_the_last_of_equal_scores() {
    let m = |i: u16| EncodedMove(i);
    let results = vec![(vec![m(1)], 5, 2), (vec![m(2)], 9, 3), (vec![m(3)], 9, 4), (vec![m(4)], -3, 1)];
    assert_eq!(best_result(&results), (vec![m(3)], 9, 4));
    assert_eq!(best_result(&vec![]), (vec![], 0, 0));
}

#[test]
fn rfp_margin_grows_with_depth() {
    assert_eq!(rfp_margin(0), 0);
    assert_eq!(rfp_margin(2), 200);
}

#[test]
fn feature_line() {
    assert_eq!(
        repr(),
        "Activated Features: AB=true QS=true TT-AB=true TT-QS=true MVV-LVA=true QS_CHECK_EVASION_LIMIT=2 \
         ORDER_TT_MV_FIRST=true TT_CUTTOFFS=true NMP=false RFP=true PVS=false, KILLERS=false"
    );
}

#[test]
fn xorshift_first_number() {
    let mut rng = RandomXorShiftGenerator::new();
    assert_eq!(rng.next(), 50034352);
    assert_eq!(rng.0, 50034352);
}

#[test]
fn start_position_evaluates_to_the_tempo_bonus() {
    let white = Board::from_fen("rnbqkbnr/pppppppp/8/8/8/8/PPPPPPPP/RNBQKBNR w KQkq - 0 1");
    let black = Board::from_fen("rnbqkbnr/pppppppp/8/8/8/8/PPPPPPPP/RNBQKBNR b KQkq - 0 1");
    assert_eq!(white.evaluate(), thunfisch::evaluation::INITIATIVE);
    assert_eq!(black.evaluate(), thunfisch::evaluation::INITIATIVE);
}

#[test]
fn an_extra_queen_is_worth_a_lot() {
    let white = Board::from_fen("4k3/8/8/8/8/8/8/3QK3 w - - 0 1");
    let black = Board::from_fen("4k3/8/8/8/8/8/8/3QK3 b - - 0 1");
    assert!(white.evaluate() > 500);
    assert!(black.evaluate() < -500);
}

#[test]
fn make_then_unmake_restores_the_position() {
    let mut board = Board::from_fen("r3k2r/p1ppqpb1/bn2pnp1/3PN3/1p2P3/2N2Q1p/PPPBBPPP/R3K2R w KQkq - ");
    let hash = board.hash();
    let list = board.generate_all_moves();
    for i in 0..list.len() {
        let mv = list.get(i).mv.decode();
        board.make_move(&mv);
        assert_eq!(board.hash(), board.generate_hash(), "incremental hash after {}", mv.to_coords());
        board.unmake_move();
        assert_eq!(board.hash(), hash, "hash after taking back {}", mv.to_coords());
        assert_eq!(board.generate_all_moves().len(), 48);
    }
}

#[test]
fn negamax_window_bounds_the_value() {
    let board = Board::from_fen("r3k2r/p1ppqpb1/bn2pnp1/3PN3/1p2P3/2N2Q1p/PPPBBPPP/R3K2R w KQkq - 0 1");
    let (_, value) = board.negamax(2, -i32::MAX, i32::MAX);
    let (_, inside) = board.negamax(2, value - 1, value + 1);
    assert_eq!(inside, value);
    let (_, low) = board.negamax(2, value + 10, value + 20);
    assert!(low <= value + 10 && value <= low);
    let (_, high) = board.negamax(2, value - 20, value - 10);
    assert!(high >= value - 10 && value >= high);
}

#[test]
fn alpha_beta_returns_the_line_backwards() {
    let mut tt = TranspositionTable::new(1);
    let stop = stop_flag(false);
    let mut info = SearchInfo::new(stop.clone());
    let mut seldepth = 0;
    let mut board = Board::from_fen(BACK_RANK_MATE);
    let (line, score) =
        alpha_beta(&mut board, 2, -i32::MAX, i32::MAX, &stop, &mut info, 0, &mut seldepth, true, &mut tt);
    assert_eq!(score, MATE_SCORE - 1);
    assert_eq!(line.last().copied(), Some(a1a8()));
}
