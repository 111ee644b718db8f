use chess_overlay::chess_logic::{recognize, Orientation, Position, Rect};
use chess_overlay::engine::EngineError;
use chess_overlay::overlay::{arrows_for, next_overlay, reaction_to, Arrow, Failure, Reaction};
use chess_overlay::yolo::Detection;

fn rect() -> Rect {
    Rect { x: 100_000, y: 100_000, w: 800_000, h: 800_000 }
}

fn arrow(x1: i64, y1: i64, x2: i64, y2: i64, white: bool) -> Arrow {
    Arrow { x1, y1, x2, y2, white }
}

fn det(class_id: usize, x: i32, y: i32, w: i32, h: i32, confidence: i32) -> Detection {
    Detection { x, y, w, h, class_id, confidence }
}

fn piece(class_id: usize, col: i32, row: i32) -> Detection {
    det(class_id, 150_000 + col * 100_000, 150_000 + row * 100_000, 80_000, 80_000, 900_000)
}

#[test]
fn arrows_skip_moves_that_name_no_squares() {
    let moves: Vec<String> =
        ["e2e4", "oops", "g8f6", "", "a7a8q"].iter().map(|s| s.to_string()).collect();
    assert_eq!(
        arrows_for(&moves, rect(), Orientation::WhiteBottom, true),
        vec![
            arrow(550_000, 750_000, 550_000, 550_000, true),
            arrow(750_000, 150_000, 650_000, 350_000, true),
            arrow(150_000, 250_000, 150_000, 150_000, true)
        ]
    );
    assert_eq!(
        arrows_for(&moves[..1].to_vec(), rect(), Orientation::BlackBottom, false),
        vec![arrow(450_000, 250_000, 450_000, 450_000, false)]
    );
    assert_eq!(arrows_for(&vec![], rect(), Orientation::BlackBottom, false), vec![]);
}

#[test]
fn failed_cycle_keeps_the_arrows() {
    let shown = vec![arrow(1, 2, 3, 4, true), arrow(5, 6, 7, 8, false)];
    for failure in [
        Failure::CaptureUnavailable,
        Failure::Inference,
        Failure::Validation,
        Failure::Engine(EngineError::StreamClosed),
        Failure::Engine(EngineError::RestartFailed),
    ] {
        assert_eq!(next_overlay(shown.clone(), Err(failure)), shown);
    }
    assert_eq!(next_overlay(vec![], Err(Failure::Validation)), vec![]);
}

#[test]
fn successful_cycle_replaces_the_arrows() {
    let shown = vec![arrow(1, 2, 3, 4, true), arrow(5, 6, 7, 8, false)];
    let fresh = vec![arrow(9, 9, 9, 9, true)];
    assert_eq!(next_overlay(shown.clone(), Ok(fresh.clone())), fresh);
    assert_eq!(next_overlay(shown, Ok(vec![])), vec![]);
}

#[test]
fn reactions_to_failures() {
    let quiet = Reaction { restart_engine: false, log_error: false };
    let logged = Reaction { restart_engine: false, log_error: true };
    let restart = Reaction { restart_engine: true, log_error: true };
    assert_eq!(reaction_to(Failure::Validation), quiet);
    assert_eq!(reaction_to(Failure::CaptureUnavailable), logged);
    assert_eq!(reaction_to(Failure::Inference), logged);
    assert_eq!(reaction_to(Failure::Engine(EngineError::RestartFailed)), logged);
    assert_eq!(reaction_to(Failure::Engine(EngineError::StreamClosed)), restart);
    assert_eq!(reaction_to(Failure::Engine(EngineError::HandshakeFailed)), restart);
    assert_eq!(reaction_to(Failure::Engine(EngineError::NotReady)), restart);
}

#[test]
fn recognize_gives_both_fens_of_a_valid_position() {
    let v = vec![
        det(0, 500_000, 500_000, 800_000, 800_000, 950_000),
        piece(7, 4, 0),
        piece(12, 0, 1),
        piece(6, 7, 6),
        piece(1, 4, 7),
        piece(13, 0, 7),
    ];
    assert_eq!(
        recognize(&v),
        Some(Position {
            orientation: Orientation::WhiteBottom,
            placement: "4k3/p7/8/8/8/8/7P/?3K3".to_string(),
            rect: rect(),
            white_fen: "4k3/p7/8/8/8/8/7P/?3K3 w - - 0 1".to_string(),
            black_fen: "4k3/p7/8/8/8/8/7P/?3K3 b - - 0 1".to_string(),
        })
    );
}

#[test]
fn recognize_skips_positions_without_one_king_each() {
    let board = det(0, 500_000, 500_000, 800_000, 800_000, 950_000);
    assert_eq!(recognize(&[board, piece(1, 4, 7)]), None);
    assert_eq!(recognize(&[board, piece(1, 4, 7), piece(1, 3, 1)]), None);
    assert_eq!(recognize(&[board, piece(7, 4, 7), piece(7, 3, 1), piece(1, 0, 0)]), None);
    assert_eq!(recognize(&[]), None);
}
