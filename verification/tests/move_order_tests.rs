use thunfisch::bitboard::Bitboard;
use thunfisch::board::Board;
use thunfisch::generator::{
    generate_bishop_moves, generate_castle_moves, generate_ep_moves, generate_king_move,
    generate_knight_moves, generate_pawn_moves, generate_queen_moves, generate_rook_moves,
};
use thunfisch::is_legal::MoveDirection;
use thunfisch::move_picker::{MoveList, MovePicker};
use thunfisch::move_scoring::{score_quiets, HistoryBoard};
use thunfisch::settings::HISTORIES;
use thunfisch::types::{Color, DecodedMove, MoveType, Piece, Square};

const FENS: [&str; 6] = [
    "rnbqkbnr/pppppppp/8/8/8/8/PPPPPPPP/RNBQKBNR w KQkq - 0 1",
    "r3k2r/p1ppqpb1/bn2pnp1/3PN3/1p2P3/2N2Q1p/PPPBBPPP/R3K2R w KQkq - ",
    "8/2p5/3p4/KP5r/1R3p1k/8/4P1P1/8 w - - 0 1 ",
    "r3k2r/Pppp1ppp/1b3nbN/nP6/BBP1P3/q4N2/Pp1P2PP/R2Q1RK1 w kq - 0 1",
    "rnbq1k1r/pp1Pbppp/2p5/8/2B5/8/PPP1NnPP/RNBQK2R w KQ - 1 8 ",
    "r4rk1/1pp1qppp/p1np1n2/2b1p1B1/2B1P1b1/P1NP1N2/1PP1QPPP/R4RK1 w - - 0 10 ",
];

const PERFT_RESULTS: [[usize; 5]; 6] = [
    [20, 400, 8_902, 197_281, 4_865_609],
    [48, 2_039, 97_862, 4_085_603, 193_690_690],
    [14, 191, 2_812, 43_238, 674_624],
    [6, 264, 9_467, 422_333, 15_833_292],
    [44, 1_486, 62_379, 2_103_487, 89_941_194],
    [46, 2_079, 89_890, 3_894_594, 164_075_551],
];

fn piece_at(board: &Board, mv: &thunfisch::types::DecodedMove) -> Piece {
    board.figures(mv.from).piece()
}

#[test]
fn test_knight_move_direction() {
    let fen = "7k/8/8/8/4N3/8/8/K7 w - - 0 1";
    let board = Board::from_fen(fen);
    let moves = board.generate_all_moves();

    for i in 0..moves.len() {
        let decoded = moves.get(i).mv.decode();
        let direction = decoded.move_direction();
        if piece_at(&board, &decoded) != Piece::Knight {
            continue;
        }
        assert_eq!(
            direction,
            MoveDirection::Knight,
            "Knight move {} should have Knight direction",
            decoded.to_coords()
        );
    }
}

#[test]
fn test_bishop_move_direction() {
    let fens = [
        ("7k/8/8/8/4B3/8/8/K7 w - - 0 1", "e4"),
        ("7k/8/8/8/8/8/3B4/K7 w - - 0 1", "d2"),
        ("7k/8/8/8/8/8/8/B6K w - - 0 1", "a1"),
        ("7k/8/8/8/8/8/8/K6B w - - 0 1", "h1"),
    ];

    for (fen, position) in fens {
        let board = Board::from_fen(fen);
        let moves = board.generate_all_moves();

        for i in 0..moves.len() {
            let decoded = moves.get(i).mv.decode();
            let direction = decoded.move_direction();
            if piece_at(&board, &decoded) != Piece::Bishop {
                continue;
            }
            assert_eq!(
                direction,
                MoveDirection::Diag,
                "Bishop at {} move {} should have Diagonal direction",
                position,
                decoded.to_coords()
            );
        }
    }
}

#[test]
fn test_rook_move_direction() {
    let fens = [
        ("7k/8/8/8/4R3/8/8/K7 w - - 0 1", "e4"),
        ("7k/8/8/8/8/8/6K1/R7 w - - 0 1", "a1"),
    ];

    for (fen, position) in fens {
        let board = Board::from_fen(fen);
        let moves = board.generate_all_moves();

        for i in 0..moves.len() {
            let decoded = moves.get(i).mv.decode();
            let direction = decoded.move_direction();
            if piece_at(&board, &decoded) != Piece::Rook {
                continue;
            }
            assert_eq!(
                direction,
                MoveDirection::HV,
                "Rook at {} move {} should have HV direction",
                position,
                decoded.to_coords()
            );
        }
    }
}

#[test]
fn test_pawn_quiet_move_direction() {
    let fen = "7k/8/8/8/4P3/8/8/K7 w - - 0 1";
    let board = Board::from_fen(fen);
    let moves = board.generate_all_moves();

    for i in 0..moves.len() {
        let decoded = moves.get(i).mv.decode();
        if piece_at(&board, &decoded) != Piece::Pawn {
            continue;
        }
        if !decoded.mv_type.is_capture() {
            let direction = decoded.move_direction();
            assert_eq!(
                direction,
                MoveDirection::HV,
                "Quiet pawn move {} should have HV direction",
                decoded.to_coords()
            );
        }
    }
}

#[test]
fn test_pawn_capture_move_direction() {
    let fen = "7k/8/8/3p1p2/4P3/8/8/K7 w - - 0 1";
    let board = Board::from_fen(fen);
    let moves = board.generate_all_moves();

    for i in 0..moves.len() {
        let decoded = moves.get(i).mv.decode();
        if piece_at(&board, &decoded) != Piece::Pawn {
            continue;
        }
        if decoded.mv_type.is_capture() {
            let direction = decoded.move_direction();
            assert_eq!(
                direction,
                MoveDirection::Diag,
                "Capturing pawn move {} should have Diagonal direction",
                decoded.to_coords()
            );
        }
    }
}

#[test]
fn test_king_move_direction() {
    let fen = "k7/8/8/8/4K3/8/8/8 w - - 0 1";
    let board = Board::from_fen(fen);
    let moves = board.generate_all_moves();

    for i in 0..moves.len() {
        let decoded = moves.get(i).mv.decode();
        let direction = decoded.move_direction();
        assert!(
            direction == MoveDirection::Diag || direction == MoveDirection::HV,
            "King move {} should have either Diagonal or HV direction, got {:?}",
            decoded.to_coords(),
            direction
        );
    }
}

/// The moves of the side to move with no pin and no check taken into account; king moves
/// still avoid attacked squares.
fn pseudo_legal_generate(board: &Board) -> MoveList {
    let mut moves = MoveList::new();
    let friendly = board.current_color();
    let empty = Bitboard(0);
    let full = Bitboard(u64::MAX);
    for quiets in [false, true] {
        generate_pawn_moves(&mut moves, quiets, board, friendly, empty, empty, full);
        generate_knight_moves(&mut moves, quiets, empty, friendly, board, full);
        generate_bishop_moves(&mut moves, quiets, empty, empty, friendly, board, full);
        generate_rook_moves(&mut moves, quiets, empty, empty, friendly, board, full);
        generate_queen_moves(&mut moves, quiets, empty, empty, friendly, board, full);
        generate_king_move(&mut moves, quiets, friendly, board);
        if quiets {
            generate_castle_moves(&mut moves, 0, friendly, board);
        } else {
            generate_ep_moves(board, &mut moves, friendly, empty, empty);
        }
    }
    moves
}

fn is_legal_r_perft(board: &Board, depth: usize) -> usize {
    if depth == 0 {
        return 1;
    }
    let mut nodes = 0;
    let moves = pseudo_legal_generate(board);
    let correct_moves = board.generate_all_moves();

    assert!(moves.len() >= correct_moves.len());

    for i in 0..moves.len() {
        let mv = moves.get(i).mv.decode();
        if board.is_legal(&mv) {
            let mut b2 = board.clone_board();
            b2.make_move(&mv);
            nodes += is_legal_r_perft(&b2, depth - 1);
        }
    }
    nodes
}

#[test]
fn test_islegal_perft() {
    let order = [1, 0, 2, 3, 4, 5];
    for (fen_idx, &k) in order.iter().enumerate() {
        for (depth_idx, correct_node_count) in PERFT_RESULTS[k].iter().take(4).enumerate() {
            let board = Board::from_fen(FENS[k]);
            let calculated_node_count = is_legal_r_perft(&board, depth_idx + 1);
            assert_eq!(
                *correct_node_count,
                calculated_node_count,
                "Testing node count Fen: {} Depth: {}",
                fen_idx + 1,
                depth_idx + 1
            );
        }
    }
}

fn move_picker_r_perft(board: &mut Board, depth: usize) -> usize {
    if depth == 0 {
        return 1;
    }
    let mut nodes = 0;
    let mut mvp = MovePicker::new(None, None, false);
    while let Some(mv) = mvp.next(board) {
        board.make_move(&mv.decode());
        nodes += move_picker_r_perft(board, depth - 1);
        board.unmake_move();
    }
    nodes
}

#[test]
fn test_move_picker_perft() {
    for (fen_idx, fen) in FENS.iter().enumerate() {
        for (depth_idx, correct_node_count) in PERFT_RESULTS[fen_idx].iter().take(4).enumerate() {
            let mut board = Board::from_fen(fen);
            let calculated_node_count = move_picker_r_perft(&mut board, depth_idx + 1);
            assert_eq!(
                *correct_node_count,
                calculated_node_count,
                "Testing node count Fen: {} Depth: {}",
                fen_idx + 1,
                depth_idx + 1
            );
        }
    }
}

fn check_mvv_lva_captures() {
    // White has two captures of the queen on e4: the pawn on d3 (PxQ) before the rook on
    // e2 (RxQ).
    let board = Board::from_fen("4k3/8/8/8/4q3/3P4/4R3/4K3 w - - 0 1");
    let mut move_picker = MovePicker::new(None, None, false);
    let best_move = move_picker.next(&board).unwrap().decode();
    let second_best = move_picker.next(&board).unwrap().decode();

    assert_eq!(best_move.mv_type, MoveType::Capture);

    let attacker_best = board.figures(best_move.from);
    let attacker_second = board.figures(second_best.from);

    assert_eq!(attacker_best.piece(), Piece::Pawn);

    assert_eq!(second_best.mv_type, MoveType::Capture);
    assert_eq!(attacker_second.piece(), Piece::Rook);
}

#[test]
fn move_scoring_test_mvv_lva_captures() {
    check_mvv_lva_captures();
}

#[test]
fn move_ordering_test_mvv_lva_captures() {
    check_mvv_lva_captures();
}

#[test]
fn picker_hands_out_the_table_move_first() {
    let board = Board::from_fen(FENS[0]);
    let all = board.generate_all_moves();
    let quiet = all.get(all.len() - 1).mv;
    let mut picker = MovePicker::new(Some(quiet), None, false);
    assert_eq!(picker.next(&board), Some(quiet));
    let mut count = 1;
    while let Some(mv) = picker.next(&board) {
        assert_ne!(mv, quiet, "the table move comes only once");
        count += 1;
    }
    assert_eq!(count, 20);
}

#[test]
fn picker_without_quiets_gives_only_captures() {
    let board = Board::from_fen(FENS[1]);
    let mut picker = MovePicker::new(None, None, true);
    let mut count = 0;
    while let Some(mv) = picker.next(&board) {
        let d = mv.decode();
        assert!(d.mv_type.is_capture() || d.mv_type.is_promotion());
        count += 1;
    }
    assert_eq!(count, 8);
    assert!(picker.next(&board).is_none());
}

#[test]
fn every_generated_move_passes_is_legal() {
    for fen in FENS {
        let board = Board::from_fen(fen);
        let moves = board.generate_all_moves();
        for i in 0..moves.len() {
            let mv = moves.get(i).mv.decode();
            assert!(board.is_legal(&mv), "{} should be legal in {}", mv.to_coords(), fen);
        }
    }
}

#[test]
fn score_quiets_follows_the_history_setting() {
    let board = Board::from_fen(FENS[0]);
    let mut quiets = MoveList::new();
    board.generate_moves(true, &mut quiets);
    let before: Vec<(u16, i32)> = (0..quiets.len()).map(|i| (quiets.get(i).mv.0, quiets.get(i).score)).collect();
    let mut histories = HistoryBoard::new();
    let first = quiets.get(0).mv.decode();
    histories.update_history(board.current_color, first, 500);
    score_quiets(&mut quiets, &board, &histories);
    assert_eq!(quiets.len(), before.len());
    for i in 0..quiets.len() {
        assert_eq!(quiets.get(i).mv.0, before[i].0);
        let want = if HISTORIES { histories.get_score(quiets.get(i).mv.decode(), board.current_color) } else { before[i].1 };
        assert_eq!(quiets.get(i).score, want);
    }
}

#[test]
fn history_updates_the_colour_given() {
    let mut h = HistoryBoard::new();
    let mv = DecodedMove { from: Square(12), to: Square(28), mv_type: MoveType::DoubleMove };
    h.update_history(Color::White, mv, 1000);
    h.update_history(Color::Black, mv, 1000);
    assert_eq!(h.get_score(mv, Color::Black), 1000);
    assert_eq!(h.get_score(mv, Color::White), 1000);
}
