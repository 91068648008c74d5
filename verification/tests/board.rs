use reversi::board::Board;
use reversi::{Color, Point};

fn counts(b: &Board) -> (u32, u32, u32) {
    (
        b.count_disc(&Color::Black),
        b.count_disc(&Color::White),
        b.count_disc(&Color::Empty),
    )
}

fn grid_of(b: &Board) -> Vec<Color> {
    let mut g = Vec::new();
    for x in 1..=8usize {
        for y in 1..=8usize {
            g.push(b.get_color(&Point::new(x, y)));
        }
    }
    g
}

#[test]
fn opening_position() {
    let b = Board::new();
    assert_eq!(counts(&b), (2, 2, 60));
    assert_eq!(b.get_color(&Point::new(4, 4)), Color::White);
    assert_eq!(b.get_color(&Point::new(5, 5)), Color::White);
    assert_eq!(b.get_color(&Point::new(4, 5)), Color::Black);
    assert_eq!(b.get_color(&Point::new(5, 4)), Color::Black);
    assert_eq!(b.get_color(&Point::new(1, 1)), Color::Empty);
    assert_eq!(b.get_color(&Point::new(0, 0)), Color::Wall);
    assert_eq!(b.get_color(&Point::new(9, 3)), Color::Wall);
    assert_eq!(b.get_current_color(), Color::Black);
    assert_eq!(b.get_turns(), 0);
}

#[test]
fn opening_legal_moves() {
    let b = Board::new();
    let moves = b.get_movable_positions();
    assert_eq!(moves.len(), 4);
    assert!(moves.contains(&Point::new(3, 4))); // c4
    assert!(moves.contains(&Point::new(4, 3))); // d3
    assert!(moves.contains(&Point::new(5, 6))); // e6
    assert!(moves.contains(&Point::new(6, 5))); // f5
}

#[test]
fn first_capture() {
    let mut b = Board::new();
    assert!(b.move_disc(&Point::new(4, 3))); // Black plays d3
    assert_eq!(counts(&b), (4, 1, 59));
    assert_eq!(b.get_turns(), 1);
    assert_eq!(b.get_current_color(), Color::White);
    assert_eq!(b.get_color(&Point::new(4, 3)), Color::Black);
    assert_eq!(b.get_color(&Point::new(4, 4)), Color::Black); // the one flip
    assert_eq!(b.get_color(&Point::new(4, 5)), Color::Black);
    assert_eq!(b.get_color(&Point::new(5, 5)), Color::White);
}

#[test]
fn rejected_moves_mutate_nothing() {
    let mut b = Board::new();
    let before_grid = grid_of(&b);
    let before_counts = counts(&b);
    assert!(!b.move_disc(&Point::new(4, 4))); // occupied cell
    assert!(!b.move_disc(&Point::new(1, 1))); // empty, no capturing direction
    assert!(!b.move_disc(&Point::new(0, 5))); // out of range
    assert!(!b.move_disc(&Point::new(9, 2))); // out of range
    assert!(!b.move_disc(&Point::new(12, 100))); // far out of range
    assert_eq!(grid_of(&b), before_grid);
    assert_eq!(counts(&b), before_counts);
    assert_eq!(b.get_turns(), 0);
    assert_eq!(b.get_current_color(), Color::Black);
    assert_eq!(b.get_movable_positions().len(), 4);
}

#[test]
fn move_undo_round_trip() {
    let mut b = Board::new();
    let before_grid = grid_of(&b);
    let before_counts = counts(&b);
    let before_moves = b.get_movable_positions().clone();
    assert!(b.move_disc(&Point::new(4, 3)));
    assert!(b.undo());
    assert_eq!(grid_of(&b), before_grid);
    assert_eq!(counts(&b), before_counts);
    assert_eq!(b.get_turns(), 0);
    assert_eq!(b.get_current_color(), Color::Black);
    assert_eq!(b.get_movable_positions(), &before_moves);
}

#[test]
fn undo_without_history_fails() {
    let mut b = Board::new();
    assert!(!b.undo());
    assert_eq!(counts(&b), (2, 2, 60));
    assert_eq!(b.get_turns(), 0);
    assert_eq!(b.get_current_color(), Color::Black);
}

#[test]
fn pass_with_moves_available_fails() {
    let mut b = Board::new();
    assert!(!b.pass());
    assert_eq!(b.get_current_color(), Color::Black);
    assert_eq!(b.get_turns(), 0);
}

#[test]
fn fresh_board_not_over() {
    let b = Board::new();
    assert!(!b.is_game_over());
}

#[test]
fn move_accepted_exactly_on_cached_legal_points() {
    // every cell: move_disc succeeds exactly when the legal-move list holds
    // the point, and a successful move undoes cleanly
    let mut b = Board::new();
    assert!(b.move_disc(&Point::new(4, 3)));
    assert!(b.move_disc(&Point::new(3, 3)));
    let before_grid = grid_of(&b);
    let before_counts = counts(&b);
    for x in 1..=8usize {
        for y in 1..=8usize {
            let p = Point::new(x, y);
            let listed = b.get_movable_positions().contains(&p);
            let r = b.move_disc(&p);
            assert_eq!(r, listed);
            if r {
                assert!(b.undo());
            }
            assert_eq!(grid_of(&b), before_grid);
            assert_eq!(counts(&b), before_counts);
        }
    }
}

#[test]
fn counts_always_sum_to_64() {
    // greedy playout: the three counters cover the board in every state
    let mut b = Board::new();
    let mut steps = 0;
    while !b.is_game_over() && steps < 200 {
        let (black, white, empty) = counts(&b);
        assert_eq!(black + white + empty, 64);
        if b.get_movable_positions().is_empty() {
            assert!(b.pass());
        } else {
            let p = b.get_movable_positions()[0];
            assert!(b.move_disc(&p));
        }
        steps += 1;
    }
    let (black, white, empty) = counts(&b);
    assert_eq!(black + white + empty, 64);
    assert!(b.is_game_over());
}

#[test]
fn forced_pass_guard() {
    // drive a game to a state where the side to act has no move while the
    // opponent still has one: the pass succeeds, and a second pass (now by
    // the side that does have moves, on the same grid) is refused
    let mut b = Board::new();
    let mut found = false;
    let mut steps = 0;
    while !b.is_game_over() && steps < 200 {
        if b.get_movable_positions().is_empty() {
            found = true;
            assert!(b.pass());
            assert!(!b.get_movable_positions().is_empty());
            assert!(!b.pass());
        } else {
            let p = b.get_movable_positions()[0];
            assert!(b.move_disc(&p));
        }
        steps += 1;
    }
    assert!(found, "playout never reached a forced pass");
}

#[test]
fn terminal_game_rejects_all_actions() {
    let mut b = Board::new();
    let mut steps = 0;
    while !b.is_game_over() && steps < 200 {
        if b.get_movable_positions().is_empty() {
            assert!(b.pass());
        } else {
            let p = b.get_movable_positions()[0];
            assert!(b.move_disc(&p));
        }
        steps += 1;
    }
    assert!(b.is_game_over());
    // at the end either sixty moves were played or nobody can move
    if b.get_turns() < 60 {
        assert!(b.get_movable_positions().is_empty());
        // a pass is refused: the game is over, not merely passable
        assert!(!b.pass());
    } else {
        assert_eq!(b.count_disc(&Color::Empty), 0);
    }
    for x in 1..=8usize {
        for y in 1..=8usize {
            assert!(!b.move_disc(&Point::new(x, y)));
        }
    }
}

#[test]
fn undo_through_passes_restores_history() {
    // run a game to the end, then undo every action back to the opening
    let mut b = Board::new();
    let mut actions = 0;
    let mut steps = 0;
    while !b.is_game_over() && steps < 200 {
        if b.get_movable_positions().is_empty() {
            assert!(b.pass());
        } else {
            let p = b.get_movable_positions()[0];
            assert!(b.move_disc(&p));
        }
        actions += 1;
        steps += 1;
    }
    for _ in 0..actions {
        assert!(b.undo());
    }
    assert!(!b.undo());
    assert_eq!(counts(&b), (2, 2, 60));
    assert_eq!(b.get_turns(), 0);
    assert_eq!(b.get_current_color(), Color::Black);
    assert_eq!(b.get_movable_positions().len(), 4);
}
