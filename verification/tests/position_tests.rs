use thunfisch::board::Board;
use thunfisch::perft::{perft_divide, r_detailed_perft, PerftLogs};
use thunfisch::position::{set_position, PositionError, START_POS};
use thunfisch::types::{Color, Figure, MoveType, Square};

const KIWIPETE: &str = "r3k2r/p1ppqpb1/bn2pnp1/3PN3/1p2P3/2N2Q1p/PPPBBPPP/R3K2R w KQkq - ";

#[test]
fn startpos_with_moves() {
    let mut board = Board::from_fen(KIWIPETE);
    assert_eq!(set_position(&mut board, "startpos moves e2e4 e7e5 g1f3"), Ok(()));
    assert_eq!(board.figures(Square(28)), Figure::WhitePawn);
    assert_eq!(board.figures(Square(36)), Figure::BlackPawn);
    assert_eq!(board.figures(Square(21)), Figure::WhiteKnight);
    assert_eq!(board.figures(Square(6)), Figure::Empty);
    assert_eq!(board.current_color(), Color::Black);
    assert_eq!(board.history.len(), 3);
}

#[test]
fn fen_position() {
    let mut board = Board::from_fen(START_POS);
    assert_eq!(set_position(&mut board, &format!("fen {KIWIPETE}")), Ok(()));
    assert_eq!(board.hash(), Board::from_fen(KIWIPETE).hash());
    assert_eq!(board.generate_all_moves().len(), 48);
}

#[test]
fn fen_position_with_moves() {
    let mut board = Board::from_fen(START_POS);
    assert_eq!(set_position(&mut board, &format!("fen {KIWIPETE} moves e1g1")), Ok(()));
    assert_eq!(board.figures(Square(6)), Figure::WhiteKing);
    assert_eq!(board.figures(Square(5)), Figure::WhiteRook);
    assert_eq!(board.current_color(), Color::Black);
}

#[test]
fn unreadable_fen_leaves_the_board() {
    let mut board = Board::from_fen(KIWIPETE);
    let hash = board.hash();
    assert_eq!(set_position(&mut board, "fen not a fen moves e2e4"), Err(PositionError::Fen));
    assert_eq!(board.hash(), hash);
    assert_eq!(board.history.len(), 0);
}

#[test]
fn test_positions_by_index() {
    let mut board = Board::from_fen(START_POS);
    assert_eq!(set_position(&mut board, "index 2"), Ok(()));
    assert_eq!(board.hash(), Board::from_fen(KIWIPETE).hash());
    let hash = board.hash();
    assert_eq!(set_position(&mut board, "index 12"), Err(PositionError::Index));
    assert_eq!(board.hash(), hash);
    assert_eq!(set_position(&mut board, "index x moves e1g1"), Err(PositionError::Index));
    assert_eq!(board.figures(Square(6)), Figure::WhiteKing);
    for n in 0..12 {
        assert_eq!(set_position(&mut board, &format!("index {n}")), Ok(()), "index {n}");
    }
}

#[test]
fn moves_alone_are_played_on_the_current_board() {
    let mut board = Board::from_fen(START_POS);
    assert_eq!(set_position(&mut board, "moves d2d4"), Ok(()));
    assert_eq!(board.figures(Square(27)), Figure::WhitePawn);
    assert_eq!(set_position(&mut board, "bogus"), Ok(()));
    assert_eq!(board.history.len(), 1);
}

#[test]
fn unreadable_moves_stop_the_list() {
    let mut board = Board::from_fen(START_POS);
    assert_eq!(set_position(&mut board, "startpos moves e2e4 zz e7e5"), Ok(()));
    assert_eq!(board.history.len(), 1);
    assert_eq!(board.current_color(), Color::Black);
}

#[test]
fn perft_divide_of_the_start_position() {
    let mut board = Board::from_fen(START_POS);
    let divide = perft_divide(&mut board, 2);
    assert_eq!(divide.len(), 20);
    assert!(divide.iter().all(|&(_, n)| n == 20));
    assert_eq!(divide.iter().map(|&(_, n)| n).sum::<usize>(), 400);
}

#[test]
fn detailed_perft_counts_move_kinds() {
    let mut board = Board::from_fen(KIWIPETE);
    let mut logs = PerftLogs::new();
    assert_eq!(r_detailed_perft(&mut board, 1, &mut logs), 48);
    assert_eq!(logs.captures, 8);
    assert_eq!(logs.king_castles, 1);
    assert_eq!(logs.queen_castles, 1);
    assert_eq!(logs.ep_captures, 0);
    assert_eq!(logs.double_moves, 2);
    let mut logs = PerftLogs::new();
    assert_eq!(r_detailed_perft(&mut board, 0, &mut logs), 1);
    assert_eq!(logs.captures, 0);
    let mut logs = PerftLogs::new();
    logs.record(MoveType::QueenPromoCapture);
    logs.record(MoveType::EpCapture);
    assert_eq!((logs.captures, logs.capture_promotions, logs.ep_captures), (1, 1, 1));
}

#[test]
fn play_moves_stops_at_the_first_unplayable_word() {
    let mut board = Board::from_fen(START_POS);
    let words: Vec<Vec<char>> = ["e2e4", "e7e5", "zz99", "g1f3"].iter().map(|w| w.chars().collect()).collect();
    assert_eq!(thunfisch::position::play_moves(&mut board, &words, 0), 2);
    assert_eq!(board.figures(Square(28)), Figure::WhitePawn);
    assert_eq!(board.figures(Square(36)), Figure::BlackPawn);
    assert_eq!(board.current_color, Color::White);
    let mut fresh = Board::from_fen(START_POS);
    assert_eq!(thunfisch::position::play_moves(&mut fresh, &words, 4), 0);
    assert_eq!(fresh.figures(Square(12)), Figure::WhitePawn);
}

#[test]
fn detailed_perft_three_plies_from_the_start() {
    let mut board = Board::from_fen(START_POS);
    let mut logs = PerftLogs::new();
    assert_eq!(r_detailed_perft(&mut board, 3, &mut logs), 8_902);
    assert_eq!(logs.captures, 34);
    assert_eq!(logs.ep_captures, 0);
    assert_eq!(logs.king_castles, 0);
    assert_eq!(logs.normal_promotions, 0);
}
