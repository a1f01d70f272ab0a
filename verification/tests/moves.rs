//! Tests of board validity and the knight move generator.

use knight_bfs::graph::{ChessBoard, ChessPos};

#[test]
fn validity_bounds() {
    let board = ChessBoard::new(8, 9);
    assert!(board.is_valid(&(1, 1)));
    assert!(board.is_valid(&(8, 9)));
    assert!(board.is_valid(&(4, 5)));
    assert!(!board.is_valid(&(0, 1)));
    assert!(!board.is_valid(&(1, 0)));
    assert!(!board.is_valid(&(9, 9)));
    assert!(!board.is_valid(&(8, 10)));
    assert!(!board.is_valid(&(-1, 5)));
}

#[test]
fn nonpositive_board_rejects_everything() {
    let board = ChessBoard::new(0, 9);
    assert!(!board.is_valid(&(1, 1)));
    let board = ChessBoard::new(5, -2);
    assert!(!board.is_valid(&(1, 1)));
}

#[test]
fn center_square_has_all_eight_moves_in_order() {
    let board = ChessBoard::new(8, 9);
    let moves = board.next_moves((4, 4));
    // The eight candidate offsets in their fixed order, all in bounds.
    assert_eq!(
        moves,
        vec![(3, 2), (3, 6), (5, 2), (5, 6), (2, 3), (2, 5), (6, 3), (6, 5)]
    );
}

#[test]
fn corner_square_keeps_only_in_bounds_moves() {
    let board = ChessBoard::new(8, 9);
    assert_eq!(board.next_moves((1, 1)), vec![(2, 3), (3, 2)]);
    assert_eq!(board.next_moves((8, 9)), vec![(7, 7), (6, 8)]);
}

#[test]
fn cramped_board_has_no_moves() {
    let board = ChessBoard::new(2, 2);
    for x in 1..=2 {
        for y in 1..=2 {
            assert_eq!(board.next_moves((x, y)), vec![]);
        }
    }
}

#[test]
fn generated_moves_are_exactly_the_in_bounds_offsets() {
    // For every square of a small board: each generated neighbour is
    // valid and one knight offset away, there are no duplicates, and
    // no in-bounds offset is missing.
    let offsets: [(isize, isize); 8] =
        [(-1, -2), (-1, 2), (1, -2), (1, 2), (-2, -1), (-2, 1), (2, -1), (2, 1)];
    let board = ChessBoard::new(5, 4);
    for x in 1..=5 {
        for y in 1..=4 {
            let pos: ChessPos = (x, y);
            let moves = board.next_moves(pos);
            let expected: Vec<ChessPos> = offsets
                .iter()
                .map(|(dx, dy)| (x + dx, y + dy))
                .filter(|q| board.is_valid(q))
                .collect();
            assert_eq!(moves, expected, "from {:?}", pos);
            for i in 0..moves.len() {
                assert!(board.is_valid(&moves[i]));
                for j in 0..i {
                    assert_ne!(moves[j], moves[i]);
                }
            }
        }
    }
}
