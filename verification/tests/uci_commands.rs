use pun::board::play::{uci_move_promotion, uci_move_squares};
use pun::uci::{play_uci_move, read_command, replay_moves, Command, DEFAULT_SEARCH_DEPTH};
use pun::board::Board;

fn words_of(line: &str) -> Vec<String> {
    let (_, spans) = read_command(line);
    spans.iter().map(|&(lo, hi)| line[lo..hi].to_string()).collect()
}

#[test]
fn simple_commands() {
    assert!(matches!(read_command("uci").0, Command::Identify));
    assert!(matches!(read_command("isready").0, Command::Ready));
    assert!(matches!(read_command("ucinewgame").0, Command::NewGame));
    assert!(matches!(read_command("stop").0, Command::Stop));
    assert!(matches!(read_command("quit").0, Command::Quit));
    assert!(matches!(read_command("").0, Command::Nothing));
    assert!(matches!(read_command("   ").0, Command::Nothing));
    assert!(matches!(read_command("setoption name Hash value 16").0, Command::Nothing));
    assert!(matches!(read_command("ucix").0, Command::Nothing));
}

#[test]
fn position_commands() {
    let line = "position startpos moves e2e4 e7e5";
    match read_command(line).0 {
        Command::Position(Some(setup)) => {
            assert_eq!(setup.fen, None);
            assert_eq!(setup.moves, Some(3));
        }
        other => panic!("unexpected {:?}", other),
    }
    assert_eq!(words_of(line), ["position", "startpos", "moves", "e2e4", "e7e5"]);

    let line = "position fen 8/8/8/8/8/8/8/4K2k w - - 0 1 moves e1d1";
    match read_command(line).0 {
        Command::Position(Some(setup)) => {
            assert_eq!(setup.fen, Some((2, 8)));
            assert_eq!(setup.moves, Some(9));
            assert_eq!(words_of(line)[2..8].join(" "), "8/8/8/8/8/8/8/4K2k w - - 0 1");
        }
        other => panic!("unexpected {:?}", other),
    }

    match read_command("position fen 8/8/8/8/8/8/8/4K2k w - - 0 1").0 {
        Command::Position(Some(setup)) => {
            assert_eq!(setup.fen, Some((2, 8)));
            assert_eq!(setup.moves, None);
        }
        other => panic!("unexpected {:?}", other),
    }
    match read_command("position startpos").0 {
        Command::Position(Some(setup)) => {
            assert_eq!(setup.fen, None);
            assert_eq!(setup.moves, None);
        }
        other => panic!("unexpected {:?}", other),
    }
    assert!(matches!(read_command("position").0, Command::Position(None)));
    assert!(matches!(read_command("position moves e2e4").0, Command::Position(None)));
}

#[test]
fn go_depths() {
    assert!(matches!(read_command("go depth 6").0, Command::Go(6)));
    assert!(matches!(read_command("go wtime 1000 depth +7").0, Command::Go(7)));
    assert!(matches!(read_command("go").0, Command::Go(d) if d == DEFAULT_SEARCH_DEPTH));
    assert!(matches!(read_command("go depth").0, Command::Go(d) if d == DEFAULT_SEARCH_DEPTH));
    assert!(matches!(read_command("go depth x").0, Command::Go(d) if d == DEFAULT_SEARCH_DEPTH));
    assert!(matches!(read_command("go depth -3").0, Command::Go(d) if d == DEFAULT_SEARCH_DEPTH));
    assert!(matches!(read_command("go depth 4294967295").0, Command::Go(4294967295)));
    assert!(matches!(read_command("go depth 4294967296").0, Command::Go(d) if d == DEFAULT_SEARCH_DEPTH));
}

#[test]
fn words_split_at_any_whitespace() {
    let line = "  go\u{3000}depth\t 2\u{a0}";
    assert!(matches!(read_command(line).0, Command::Go(2)));
    assert_eq!(words_of(line), ["go", "depth", "2"]);
}

#[test]
fn uci_move_squares_and_promotions() {
    assert_eq!(uci_move_squares("e2e4"), Some((12, 28)));
    assert_eq!(uci_move_squares("a1h8q"), Some((0, 63)));
    assert_eq!(uci_move_squares("e2e"), None);
    assert_eq!(uci_move_squares("h9a1"), None);
    assert_eq!(uci_move_squares("e9e4"), None);
    assert_eq!(uci_move_squares("E2e4"), None);
    assert_eq!(uci_move_promotion("e7e8q"), Some('q'));
    assert_eq!(uci_move_promotion("e2e4"), None);
}

fn start_board() -> Board {
    Board::initialize_from_fen("rnbqkbnr/pppppppp/8/8/8/8/PPPPPPPP/RNBQKBNR w KQkq - 0 1")
}

#[test]
fn position_moves_are_played() {
    let mut board = start_board();
    assert!(play_uci_move(&mut board, "e2e4"));
    assert!(play_uci_move(&mut board, "e7e5"));
    assert_eq!(board.piece_at(28), Some(pun::board::Piece::WhitePawn));
    assert_eq!(board.piece_at(36), Some(pun::board::Piece::BlackPawn));
    assert_eq!(board.piece_at(12), None);
}

#[test]
fn position_moves_that_cannot_be_played_leave_the_board() {
    let mut board = start_board();
    let before = board.pieces;
    assert!(!play_uci_move(&mut board, "e3e4"));
    assert!(!play_uci_move(&mut board, "zz"));
    assert!(!play_uci_move(&mut board, "e2e9"));
    assert_eq!(board.pieces, before);
}

#[test]
fn position_moves_are_replayed_in_turn() {
    let mut board = start_board();
    assert_eq!(replay_moves(&mut board, &["e2e4", "e7e5", "g1f3"]), None);
    assert_eq!(board.piece_at(21), Some(pun::board::Piece::WhiteKnight));
    assert_eq!(board.piece_at(36), Some(pun::board::Piece::BlackPawn));
    assert_eq!(board.side_to_move, pun::board::Color::Black);
}

#[test]
fn position_replay_reports_the_first_bad_move() {
    let mut board = start_board();
    assert_eq!(replay_moves(&mut board, &["e2e4", "e2e4", "d7d5"]), Some(1));
    assert_eq!(board.piece_at(28), Some(pun::board::Piece::WhitePawn));
    assert_eq!(board.piece_at(51), Some(pun::board::Piece::BlackPawn));
    assert_eq!(board.side_to_move, pun::board::Color::Black);
}
