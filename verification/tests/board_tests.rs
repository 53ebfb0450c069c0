use thunfisch::bitboard::Bitboard;
use thunfisch::board::Board;
use thunfisch::masks::calculate_attackmask;
use thunfisch::is_legal::MoveDirection;
use thunfisch::perft::{hash_test_perft, perft_divide, r_perft, r_perft_rayon};
use thunfisch::types::{Color, DecodedMove, Figure, MoveType, Square};

const FENS: [&str; 6] = [
    "rnbqkbnr/pppppppp/8/8/8/8/PPPPPPPP/RNBQKBNR w KQkq - 0 1",
    "r3k2r/p1ppqpb1/bn2pnp1/3PN3/1p2P3/2N2Q1p/PPPBBPPP/R3K2R w KQkq - ",
    "8/2p5/3p4/KP5r/1R3p1k/8/4P1P1/8 w - - 0 1 ",
    "r3k2r/Pppp1ppp/1b3nbN/nP6/BBP1P3/q4N2/Pp1P2PP/R2Q1RK1 w kq - 0 1",
    "rnbq1k1r/pp1Pbppp/2p5/8/2B5/8/PPP1NnPP/RNBQK2R w KQ - 1 8 ",
    "r4rk1/1pp1qppp/p1np1n2/2b1p1B1/2B1P1b1/P1NP1N2/1PP1QPPP/R4RK1 w - - 0 10 ",
];

const PERFT_RESULTS: [[usize; 5]; 6] = [
    [20, 400, 8_902, 197_281, 4_865_609],
    [48, 2_039, 97_862, 4_085_603, 193_690_690],
    [14, 191, 2_812, 43_238, 674_624],
    [6, 264, 9_467, 422_333, 15_833_292],
    [44, 1_486, 62_379, 2_103_487, 89_941_194],
    [46, 2_079, 89_890, 3_894_594, 164_075_551],
];

#[test]
fn test_move_generation() {
    for (fen_idx, fen) in FENS.iter().enumerate() {
        for (depth_idx, correct_node_count) in PERFT_RESULTS[fen_idx].iter().take(6).enumerate() {
            let mut board = Board::from_fen(fen);
            let calculated_node_count = hash_test_perft(&mut board, depth_idx + 1);
            assert_eq!(
                *correct_node_count,
                calculated_node_count,
                "Testing node count Fen: {} Depth: {}",
                fen_idx + 1,
                depth_idx + 1
            );
        }
    }
}

#[test]
fn test_legal_move_generation() {
    const MAX_DEPTH: usize = 6;
    for (fen_idx, fen) in FENS.iter().enumerate() {
        for (depth_idx, correct_node_count) in PERFT_RESULTS[fen_idx].iter().enumerate() {
            let depth = depth_idx + 1;
            if depth >= MAX_DEPTH {
                break;
            }
            let mut board = Board::from_fen(fen);
            let calculated_node_count = r_perft_rayon(&mut board, depth);
            assert_eq!(
                *correct_node_count,
                calculated_node_count,
                "Testing node count Fen: {} Depth: {}",
                fen_idx + 1,
                depth
            );
        }
    }
}

#[test]
fn perft_shallow_counts() {
    for (fen_idx, fen) in FENS.iter().enumerate() {
        for depth in 1..=3 {
            let mut board = Board::from_fen(fen);
            assert_eq!(
                r_perft(&mut board, depth),
                PERFT_RESULTS[fen_idx][depth - 1],
                "Fen {} depth {}",
                fen_idx + 1,
                depth
            );
        }
    }
}

#[test]
fn test_teleportation_move_direction() {
    let test_cases = vec![
        (Square(0), Square(11)),
        (Square(0), Square(13)),
        (Square(0), Square(14)),
        (Square(0), Square(25)),
        (Square(0), Square(20)),
        (Square(0), Square(30)),
        (Square(7), Square(8)),
        (Square(32), Square(5)),
        (Square(10), Square(32)),
        (Square(5), Square(50)),
    ];

    for (from, to) in test_cases {
        let mv = DecodedMove {
            from,
            to,
            mv_type: MoveType::Quiet,
        };
        let direction = mv.move_direction();
        assert_eq!(
            direction,
            MoveDirection::Teleport,
            "Move from {} to {} (distance {}) should be Teleport",
            from.to_bit().0,
            to.to_bit().0,
            (to.0 as isize - from.0 as isize).abs()
        );
    }
}

#[test]
fn test_move_encoding_decoding() {
    let moves = [
        "e5f7", "e5d7", "e5g6", "e5c6", "e5g4", "e5c4", "e5d3", "f3f6", "f3h5", "f3f5", "f3g4",
        "f3f4", "f3h3", "f3g3", "f3e3", "f3d3", "f3g2", "c3d5", "c3b5", "c3a4", "c3d1", "c3b1",
        "e2a6", "e2b5", "e2c4", "e2d3", "e2f1", "e2d1", "d2h6", "d2g5", "d2f4", "d2e3", "d2c1",
        "h1g1", "h1f1", "e1d1", "a1d1", "a1c1", "a1b1", "e1c1", "c7c8q", "c7c8r", "c7c8b",
        "c7c8n", "h2h3", "b2b3", "a2a3", "h2h4", "a2a4",
    ];

    let fen = "r3k2r/p1Ppqpb1/bn2pnp1/4N3/1p2P3/2N2Q2/PPPBBPpP/R3K2R w KQkq - 0 1";

    let board = Board::from_fen(fen);

    for mv_ref in moves.iter() {
        let mv = *mv_ref;
        let decoded = DecodedMove::from_coords(mv.to_string(), &board);
        assert_eq!(mv, decoded.to_coords(), "Str -> Decoded -> Str");

        let encoded = decoded.encode();
        let decoded2 = encoded.decode();
        assert_eq!(
            mv,
            decoded2.to_coords(),
            "Str -> Decoded -> Encoded -> Decoded -> Str"
        );
    }
}

#[test]
fn test_checkmate_detection() {
    let mut board =
        Board::from_fen("rnbqkbnr/pppp1ppp/8/4p3/6P1/5P2/PPPPP2P/RNBQKBNR b KQkq - 0 2");
    let mv = DecodedMove::from_coords("d8h4".to_string(), &board);
    board.make_move(&mv);

    assert!(board.is_in_check(), "Checkmate Test: White should be in check");
    let white_moves = board.generate_all_moves();
    assert!(
        white_moves.len() == 0,
        "Checkmate Test: White should have no legal moves"
    );
}

#[test]
fn test_en_passant_execution() {
    let mut board =
        Board::from_fen("rnbqkbnr/ppp1pppp/8/3pP3/8/8/PPPP1PPP/RNBQKBNR w KQkq d6 0 2");
    let ep_move = DecodedMove {
        from: Square::from_coords("e5").unwrap(),
        to: Square::from_coords("d6").unwrap(),
        mv_type: MoveType::EpCapture,
    };
    board.make_move(&ep_move);

    assert_eq!(
        board.pieces[Square::from_coords("d6").unwrap().0],
        Figure::WhitePawn,
        "EP Test: White pawn should be on d6"
    );
    assert_eq!(
        board.pieces[Square::from_coords("d5").unwrap().0],
        Figure::Empty,
        "EP Test: Black captured pawn on d5 should be empty"
    );
    assert_eq!(
        board.pieces[Square::from_coords("e5").unwrap().0],
        Figure::Empty,
        "EP Test: White pawn's original square e5 should be empty"
    );
    assert_eq!(
        board.current_color,
        Color::Black,
        "EP Test: Color to move should be Black"
    );
    assert_eq!(
        board.ep_target, None,
        "EP Test: En passant target should be cleared"
    );
}

#[test]
fn every_generated_move_is_legal_in_position_two() {
    let board = Board::from_fen(FENS[1]);
    let moves = board.generate_all_moves();
    assert_eq!(moves.len(), 48);
    for i in 0..moves.len() {
        let mv = moves.get(i).mv.decode();
        assert!(board.is_legal(&mv), "{} should be legal", mv.to_coords());
    }
}

#[test]
fn illegal_moves_are_refused() {
    let board = Board::from_fen(FENS[0]);
    let knight_jump = DecodedMove::from_coords("g1f3".to_string(), &board);
    assert!(board.is_legal(&knight_jump));
    let blocked_rook = DecodedMove::from_coords("a1a3".to_string(), &board);
    assert!(!board.is_legal(&blocked_rook));
    let not_our_piece = DecodedMove::from_coords("e7e5".to_string(), &board);
    assert!(!board.is_pseudo_legal(&not_our_piece));
    let teleport = DecodedMove::from_coords("b1b5".to_string(), &board);
    assert!(!board.is_legal(&teleport));
}

#[test]
fn generated_moves_never_repeat() {
    for fen in FENS.iter() {
        let board = Board::from_fen(fen);
        let moves = board.generate_all_moves();
        for i in 0..moves.len() {
            for j in (i + 1)..moves.len() {
                assert_ne!(moves.get(i).mv, moves.get(j).mv, "{} repeats a move", fen);
            }
        }
    }
}

#[test]
fn perft_divide_lists_each_root_move_once() {
    let mut board = Board::from_fen(FENS[1]);
    let divided = perft_divide(&mut board, 2);
    assert_eq!(divided.len(), 48);
    let total: usize = divided.iter().map(|(_, n)| *n).sum();
    assert_eq!(total, 2_039);
    for i in 0..divided.len() {
        for j in (i + 1)..divided.len() {
            assert_ne!(divided[i].0, divided[j].0);
        }
    }
}

#[test]
fn generate_fen_writes_the_start_position() {
    let board = Board::from_fen(FENS[0]);
    assert_eq!(board.generate_fen(), FENS[0]);
}

#[test]
fn generate_fen_reads_back() {
    let expected = [
        "rnbqkbnr/pppppppp/8/8/8/8/PPPPPPPP/RNBQKBNR w KQkq - 0 1",
        "r3k2r/p1ppqpb1/bn2pnp1/3PN3/1p2P3/2N2Q1p/PPPBBPPP/R3K2R w KQkq - 0 1",
        "8/2p5/3p4/KP5r/1R3p1k/8/4P1P1/8 w - - 0 1",
        "r3k2r/Pppp1ppp/1b3nbN/nP6/BBP1P3/q4N2/Pp1P2PP/R2Q1RK1 w kq - 0 1",
        "rnbq1k1r/pp1Pbppp/2p5/8/2B5/8/PPP1NnPP/RNBQK2R w KQ - 1 8",
        "r4rk1/1pp1qppp/p1np1n2/2b1p1B1/2B1P1b1/P1NP1N2/1PP1QPPP/R4RK1 w - - 0 10",
    ];
    for (fen, want) in FENS.iter().zip(expected.iter()) {
        let board = Board::from_fen(fen);
        let written = board.generate_fen();
        assert_eq!(&written, want);
        let again = Board::from_fen(&written);
        assert_eq!(again.pieces, board.pieces);
        assert_eq!(again.generate_fen(), written);
    }
}

#[test]
fn generate_fen_writes_en_passant_and_clocks() {
    let fen = "rnbqkbnr/ppp1pppp/8/3pP3/8/8/PPPP1PPP/RNBQKBNR w KQkq d6 0 2";
    let board = Board::from_fen(fen);
    assert_eq!(board.generate_fen(), fen);
    let black_king_side_only = Board::from_fen("4k2r/8/8/8/8/8/8/4K3 b k - 12 40");
    assert!(!black_king_side_only.black_queen_castle);
    assert!(black_king_side_only.black_king_castle);
    assert_eq!(black_king_side_only.generate_fen(), "4k2r/8/8/8/8/8/8/4K3 b k - 12 40");
    let mixed = Board::from_fen("r3k2r/8/8/8/8/8/8/R3K2R w Kq - 0 1");
    assert!(mixed.white_king_castle && !mixed.white_queen_castle);
    assert!(!mixed.black_king_castle && mixed.black_queen_castle);
}

#[test]
fn a_pawn_never_captures_backwards() {
    let board = Board::from_fen("4k3/8/8/8/4P3/3p4/8/4K3 w - - 0 1");
    let backwards = DecodedMove { from: Square(28), to: Square(19), mv_type: MoveType::Capture };
    assert!(!board.is_legal(&backwards));
}

#[test]
fn removing_a_pawn_only_takes_attacks_away() {
    let board = Board::from_fen(FENS[1]);
    let occ = Bitboard(board.occupied);
    let full = calculate_attackmask(&board, occ, Color::White, None);
    for sq in 0..64usize {
        if board.pieces[sq] == Figure::WhitePawn {
            let without = calculate_attackmask(&board, occ, Color::White, Some(Bitboard(1u64 << sq)));
            assert_eq!(without.0 & !full.0, 0);
        }
    }
}
