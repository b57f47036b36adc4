#![allow(unused_imports)]
use pun::board::{Board, Color, Piece, PieceType};
use pun::board::fen::FenData;
use pun::board::moves::{Move, MoveGenerator};
use pun::perft::perft;

#[test]
fn starting_position_depth_1() {
    let board =
        Board::initialize_from_fen("rnbqkbnr/pppppppp/8/8/8/8/PPPPPPPP/RNBQKBNR w KQkq - 0 1");
    assert_eq!(perft(&board, 1), 20);
}

#[test]
fn starting_position_depth_2() {
    let board =
        Board::initialize_from_fen("rnbqkbnr/pppppppp/8/8/8/8/PPPPPPPP/RNBQKBNR w KQkq - 0 1");
    assert_eq!(perft(&board, 2), 400);
}

#[test]
fn starting_position_depth_3() {
    let board =
        Board::initialize_from_fen("rnbqkbnr/pppppppp/8/8/8/8/PPPPPPPP/RNBQKBNR w KQkq - 0 1");
    assert_eq!(perft(&board, 3), 8902);
}

#[test]
fn starting_position_depth_4() {
    let board =
        Board::initialize_from_fen("rnbqkbnr/pppppppp/8/8/8/8/PPPPPPPP/RNBQKBNR w KQkq - 0 1");
    assert_eq!(perft(&board, 4), 197281);
}

#[test]
fn starting_position_depth_5() {
    let board =
        Board::initialize_from_fen("rnbqkbnr/pppppppp/8/8/8/8/PPPPPPPP/RNBQKBNR w KQkq - 0 1");
    assert_eq!(perft(&board, 5), 4865609);
}

#[test]
fn kiwipete_depth_1() {
    let board = Board::initialize_from_fen(
        "r3k2r/p1ppqpb1/bn2pnp1/3PN3/1p2P3/2N2Q1p/PPPBBPPP/R3K2R w KQkq - 0 1",
    );
    assert_eq!(perft(&board, 1), 48);
}

#[test]
fn kiwipete_depth_2() {
    let board = Board::initialize_from_fen(
        "r3k2r/p1ppqpb1/bn2pnp1/3PN3/1p2P3/2N2Q1p/PPPBBPPP/R3K2R w KQkq - 0 1",
    );
    assert_eq!(perft(&board, 2), 2039);
}

#[test]
fn kiwipete_depth_3() {
    let board = Board::initialize_from_fen(
        "r3k2r/p1ppqpb1/bn2pnp1/3PN3/1p2P3/2N2Q1p/PPPBBPPP/R3K2R w KQkq - 0 1",
    );
    assert_eq!(perft(&board, 3), 97862);
}

#[test]
fn kiwipete_depth_4() {
    let board = Board::initialize_from_fen(
        "r3k2r/p1ppqpb1/bn2pnp1/3PN3/1p2P3/2N2Q1p/PPPBBPPP/R3K2R w KQkq - 0 1",
    );
    assert_eq!(perft(&board, 4), 4085603);
}
