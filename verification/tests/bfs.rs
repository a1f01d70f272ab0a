//! End-to-end tests of the knight search through the public API.

use knight_bfs::graph::{BfsOutcome, ChessBoard, ChessPos};

/// True when `a` and `b` are one knight move apart.
fn is_knight_step(a: ChessPos, b: ChessPos) -> bool {
    let dx = (b.0 - a.0).abs();
    let dy = (b.1 - a.1).abs();
    (dx == 1 && dy == 2) || (dx == 2 && dy == 1)
}

/// An independent breadth-first search used as a cross-check: returns
/// the shortest number of knight moves, or `None` when unreachable.
fn brute_distance(width: isize, height: isize, start: ChessPos, dest: ChessPos) -> Option<usize> {
    let w = width as usize;
    let h = height as usize;
    let idx = |p: ChessPos| -> usize { (p.1 as usize - 1) * w + (p.0 as usize - 1) };
    let in_bounds = |p: ChessPos| p.0 >= 1 && p.0 <= width && p.1 >= 1 && p.1 <= height;
    assert!(in_bounds(start) && in_bounds(dest));
    let mut dist: Vec<Option<usize>> = vec![None; w * h];
    dist[idx(start)] = Some(0);
    let mut queue: Vec<ChessPos> = vec![start];
    let mut at = 0;
    while at < queue.len() {
        let p = queue[at];
        at += 1;
        let d = dist[idx(p)].unwrap();
        for (dx, dy) in [(-1, -2), (-1, 2), (1, -2), (1, 2), (-2, -1), (-2, 1), (2, -1), (2, 1)] {
            let q = (p.0 + dx, p.1 + dy);
            if in_bounds(q) && dist[idx(q)].is_none() {
                dist[idx(q)] = Some(d + 1);
                queue.push(q);
            }
        }
    }
    dist[idx(dest)]
}

/// A `Found` outcome must carry a well-formed path: start and end
/// right, one knight move per step, and one more square than moves.
fn assert_found_path(board: &ChessBoard, start: ChessPos, dest: ChessPos) -> usize {
    match board.bfs(start, dest) {
        BfsOutcome::Found { distance, path } => {
            assert_eq!(path.len(), distance + 1);
            assert_eq!(path[0], start);
            assert_eq!(path[path.len() - 1], dest);
            for i in 0..path.len() - 1 {
                assert!(is_knight_step(path[i], path[i + 1]), "bad step in {:?}", path);
                assert!(board.is_valid(&path[i]));
            }
            assert!(board.is_valid(&path[path.len() - 1]));
            distance
        }
        other => panic!("expected a path from {:?} to {:?}, got {:?}", start, dest, other),
    }
}

#[test]
fn new_stores_dimensions() {
    let board = ChessBoard::new(8, 9);
    assert_eq!(board.width, 8);
    assert_eq!(board.height, 9);
}

#[test]
fn classic_board_two_moves() {
    // Board 8 wide and 9 high; (4,4) to (5,5) takes exactly 2 moves.
    let board = ChessBoard::new(8, 9);
    let distance = assert_found_path(&board, (4, 4), (5, 5));
    assert_eq!(distance, 2);
}

#[test]
fn same_square_distance_zero() {
    let board = ChessBoard::new(8, 9);
    match board.bfs((3, 3), (3, 3)) {
        BfsOutcome::Found { distance, path } => {
            assert_eq!(distance, 0);
            assert_eq!(path, vec![(3, 3)]);
        }
        other => panic!("expected distance 0, got {:?}", other),
    }
}

#[test]
fn tiny_board_corner_to_corner() {
    // On a 3 by 3 board the corners sit on one knight cycle; the
    // distance from (1,1) to (3,3) is checked against an independent
    // search.
    let board = ChessBoard::new(3, 3);
    let distance = assert_found_path(&board, (1, 1), (3, 3));
    assert_eq!(Some(distance), brute_distance(3, 3, (1, 1), (3, 3)));
    assert_eq!(distance, 4);
}

#[test]
fn tiny_board_center_unreachable() {
    // The center of a 3 by 3 board has no knight move in or out.
    let board = ChessBoard::new(3, 3);
    assert_eq!(board.bfs((1, 1), (2, 2)), BfsOutcome::Unreachable);
    assert_eq!(board.bfs((2, 2), (1, 1)), BfsOutcome::Unreachable);
}

#[test]
fn degenerate_board_unreachable() {
    // No knight move fits on a 2 by 2 board at all.
    let board = ChessBoard::new(2, 2);
    assert_eq!(board.bfs((1, 1), (2, 2)), BfsOutcome::Unreachable);
    assert_eq!(board.bfs((1, 2), (2, 1)), BfsOutcome::Unreachable);
}

#[test]
fn one_square_board() {
    let board = ChessBoard::new(1, 1);
    match board.bfs((1, 1), (1, 1)) {
        BfsOutcome::Found { distance, path } => {
            assert_eq!(distance, 0);
            assert_eq!(path, vec![(1, 1)]);
        }
        other => panic!("expected distance 0, got {:?}", other),
    }
    // Any second square is off this board.
    assert_eq!(board.bfs((1, 1), (2, 2)), BfsOutcome::InvalidSquare);
}

#[test]
fn off_board_endpoints_rejected() {
    let board = ChessBoard::new(8, 9);
    assert_eq!(board.bfs((0, 0), (5, 5)), BfsOutcome::InvalidSquare);
    assert_eq!(board.bfs((4, 4), (9, 10)), BfsOutcome::InvalidSquare);
    assert_eq!(board.bfs((-1, 4), (5, 5)), BfsOutcome::InvalidSquare);
    assert_eq!(board.bfs((4, 4), (8, 10)), BfsOutcome::InvalidSquare);
}

#[test]
fn nonpositive_dimensions_have_no_valid_squares() {
    let board = ChessBoard::new(-3, 5);
    assert_eq!(board.bfs((1, 1), (1, 1)), BfsOutcome::InvalidSquare);
    let board = ChessBoard::new(0, 0);
    assert_eq!(board.bfs((1, 1), (1, 1)), BfsOutcome::InvalidSquare);
}

#[test]
fn distance_is_symmetric() {
    let board = ChessBoard::new(8, 9);
    let pairs = [((1, 1), (8, 9)), ((2, 3), (7, 7)), ((4, 4), (5, 5)), ((1, 9), (8, 1))];
    for (a, b) in pairs {
        let d1 = assert_found_path(&board, a, b);
        let d2 = assert_found_path(&board, b, a);
        assert_eq!(d1, d2, "asymmetric between {:?} and {:?}", a, b);
    }
}

#[test]
fn distances_match_independent_search() {
    // Exhaustive cross-check of every pair of squares on small boards.
    for (w, h) in [(3isize, 3isize), (4, 4), (2, 5)] {
        let board = ChessBoard::new(w, h);
        for x1 in 1..=w {
            for y1 in 1..=h {
                for x2 in 1..=w {
                    for y2 in 1..=h {
                        let a = (x1, y1);
                        let b = (x2, y2);
                        let expected = brute_distance(w, h, a, b);
                        match board.bfs(a, b) {
                            BfsOutcome::Found { distance, .. } => {
                                assert_eq!(Some(distance), expected, "{:?} to {:?}", a, b);
                            }
                            BfsOutcome::Unreachable => {
                                assert_eq!(None, expected, "{:?} to {:?}", a, b);
                            }
                            BfsOutcome::InvalidSquare => {
                                panic!("valid squares rejected: {:?} to {:?}", a, b);
                            }
                        }
                    }
                }
            }
        }
    }
}
