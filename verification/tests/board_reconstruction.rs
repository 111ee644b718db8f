use chess_overlay::chess_logic::{
    class_id_to_fen, detect_orientation, detections_to_fen, fen_for_side, has_one_king_each,
    locate_pieces, placement_text, reconstruct, Orientation, RawPiece, Rect, MIN_BOARD_SIZE,
};
use chess_overlay::yolo::Detection;

fn det(class_id: usize, x: i32, y: i32, w: i32, h: i32, confidence: i32) -> Detection {
    Detection { x, y, w, h, class_id, confidence }
}

/// The board of these tests: from 100_000 to 900_000 both ways, cells of 100_000.
fn board() -> Detection {
    det(0, 500_000, 500_000, 800_000, 800_000, 950_000)
}

fn board_rect() -> Rect {
    Rect { x: 100_000, y: 100_000, w: 800_000, h: 800_000 }
}

/// A piece whose centre is the middle of the cell in visual column `col`, row `row`.
fn piece(class_id: usize, col: i32, row: i32) -> Detection {
    det(class_id, 150_000 + col * 100_000, 150_000 + row * 100_000, 80_000, 80_000, 900_000)
}

fn start_position() -> Vec<Detection> {
    let mut v = vec![board()];
    let back = [3usize, 5, 4, 2, 1, 4, 5, 3];
    for col in 0..8 {
        v.push(piece(back[col] + 6, col as i32, 0));
        v.push(piece(12, col as i32, 1));
        v.push(piece(6, col as i32, 6));
        v.push(piece(back[col], col as i32, 7));
    }
    v
}

#[test]
fn class_letters() {
    let letters: Vec<char> = (0..15).map(class_id_to_fen).collect();
    assert_eq!(
        letters,
        vec!['?', 'K', 'Q', 'R', 'B', 'N', 'P', 'k', 'q', 'r', 'b', 'n', 'p', '?', '?']
    );
    assert_eq!(class_id_to_fen(usize::MAX), '?');
}

#[test]
fn no_board_gives_the_empty_placement_and_a_zero_rect() {
    let zero = Rect { x: 0, y: 0, w: 0, h: 0 };
    assert_eq!(
        detections_to_fen(&[], Orientation::WhiteBottom),
        ("8/8/8/8/8/8/8/8".to_string(), zero)
    );
    let pieces = vec![piece(1, 4, 7), piece(7, 4, 0)];
    assert_eq!(
        detections_to_fen(&pieces, Orientation::BlackBottom),
        ("8/8/8/8/8/8/8/8".to_string(), zero)
    );
}

#[test]
fn boards_that_are_too_small_do_not_count() {
    assert_eq!(MIN_BOARD_SIZE, 200_000);
    let zero = Rect { x: 0, y: 0, w: 0, h: 0 };
    let small = vec![det(0, 500_000, 500_000, 200_000, 800_000, 990_000), piece(1, 4, 4)];
    assert_eq!(detections_to_fen(&small, Orientation::WhiteBottom).1, zero);
    let flat = vec![det(0, 500_000, 500_000, 800_000, 200_000, 990_000), piece(1, 4, 4)];
    assert_eq!(detections_to_fen(&flat, Orientation::WhiteBottom).1, zero);
    let enough = vec![det(0, 500_000, 500_000, 200_001, 200_002, 990_000)];
    assert_eq!(
        detections_to_fen(&enough, Orientation::WhiteBottom).1,
        Rect { x: 400_000, y: 399_999, w: 200_001, h: 200_002 }
    );
}

#[test]
fn the_most_confident_board_is_taken_and_the_last_of_equals() {
    let weak = det(0, 400_000, 400_000, 600_000, 600_000, 500_000);
    let strong = board();
    let tiny = det(0, 500_000, 500_000, 100_000, 100_000, 999_000);
    let twin = det(0, 520_000, 520_000, 800_000, 800_000, 950_000);
    assert_eq!(detections_to_fen(&[weak, strong, tiny], Orientation::WhiteBottom).1, board_rect());
    assert_eq!(detections_to_fen(&[strong, weak, tiny], Orientation::WhiteBottom).1, board_rect());
    assert_eq!(
        detections_to_fen(&[strong, twin], Orientation::WhiteBottom).1,
        Rect { x: 120_000, y: 120_000, w: 800_000, h: 800_000 }
    );
    assert_eq!(detections_to_fen(&[twin, strong], Orientation::WhiteBottom).1, board_rect());
}

#[test]
fn start_position_white_bottom() {
    assert_eq!(
        detections_to_fen(&start_position(), Orientation::WhiteBottom),
        ("rnbqkbnr/pppppppp/8/8/8/8/PPPPPPPP/RNBQKBNR".to_string(), board_rect())
    );
}

#[test]
fn black_bottom_mirrors_both_axes() {
    assert_eq!(
        detections_to_fen(&start_position(), Orientation::BlackBottom),
        ("RNBKQBNR/PPPPPPPP/8/8/8/8/pppppppp/rnbkqbnr".to_string(), board_rect())
    );
    let v = vec![board(), piece(1, 0, 0), piece(7, 2, 1), piece(6, 7, 7)];
    assert_eq!(detections_to_fen(&v, Orientation::WhiteBottom).0, "K7/2k5/8/8/8/8/8/7P");
    assert_eq!(detections_to_fen(&v, Orientation::BlackBottom).0, "P7/8/8/8/8/8/5k2/7K");
}

#[test]
fn runs_of_empty_squares_are_counted() {
    let v = vec![board(), piece(2, 1, 3), piece(8, 3, 3), piece(9, 4, 3), piece(3, 7, 3)];
    assert_eq!(detections_to_fen(&v, Orientation::WhiteBottom).0, "8/8/8/1Q1qr2R/8/8/8/8");
}

#[test]
fn pieces_outside_the_board_are_discarded() {
    let v = vec![
        board(),
        det(1, 99_999, 150_000, 50_000, 50_000, 900_000),
        det(2, 150_000, 99_999, 50_000, 50_000, 900_000),
        det(3, 900_001, 150_000, 50_000, 50_000, 900_000),
        det(4, 150_000, 900_001, 50_000, 50_000, 900_000),
        det(5, 900_000, 150_000, 50_000, 50_000, 900_000),
        det(6, 150_000, 900_000, 50_000, 50_000, 900_000),
        det(7, 100_000, 100_000, 50_000, 50_000, 900_000),
        det(8, 899_999, 899_999, 50_000, 50_000, 900_000),
        det(9, 199_999, 200_000, 50_000, 50_000, 900_000),
    ];
    assert_eq!(detections_to_fen(&v, Orientation::WhiteBottom).0, "k7/r7/8/8/8/8/8/7q");
}

#[test]
fn cell_size_is_rounded_down() {
    let odd_board = det(0, 500_000, 500_000, 800_015, 800_015, 950_000);
    let rect = Rect { x: 99_993, y: 99_993, w: 800_015, h: 800_015 };
    let v = vec![
        odd_board,
        det(1, 99_993 + 100_001 * 8 - 1, 99_993, 10, 10, 900_000),
        det(2, 99_993 + 100_001 * 8, 99_993, 10, 10, 900_000),
        det(3, 99_993 + 100_001, 99_993 + 100_000, 10, 10, 900_000),
    ];
    assert_eq!(
        detections_to_fen(&v, Orientation::WhiteBottom),
        ("1R5K/8/8/8/8/8/8/8".to_string(), rect)
    );
}

#[test]
fn later_detection_replaces_earlier_one_on_the_same_square() {
    let v = vec![board(), piece(2, 3, 3), piece(11, 3, 3)];
    assert_eq!(detections_to_fen(&v, Orientation::WhiteBottom).0, "8/8/8/3n4/8/8/8/8");
    let v = vec![board(), piece(11, 3, 3), piece(2, 3, 3)];
    assert_eq!(detections_to_fen(&v, Orientation::WhiteBottom).0, "8/8/8/3Q4/8/8/8/8");
}

#[test]
fn unknown_class_is_a_question_mark() {
    let v = vec![board(), piece(13, 0, 0), piece(40, 7, 7)];
    assert_eq!(detections_to_fen(&v, Orientation::WhiteBottom).0, "?7/8/8/8/8/8/8/7?");
}

#[test]
fn second_white_king_near_the_eighth_rank_becomes_black() {
    let v = vec![board(), piece(1, 4, 6), piece(1, 3, 1), piece(6, 0, 5)];
    assert_eq!(detections_to_fen(&v, Orientation::WhiteBottom).0, "8/3k4/8/8/8/P7/4K3/8");
    let v = vec![board(), piece(1, 3, 1), piece(1, 4, 6)];
    assert_eq!(detections_to_fen(&v, Orientation::WhiteBottom).0, "8/3k4/8/8/8/8/4K3/8");
    assert_eq!(
        locate_pieces(&v),
        vec![
            RawPiece { row: 1, col: 3, class_id: 7 },
            RawPiece { row: 6, col: 4, class_id: 1 }
        ]
    );
}

#[test]
fn king_correction_goes_by_the_board_row_not_the_image_row() {
    let v = vec![board(), piece(1, 4, 6), piece(1, 3, 1)];
    assert_eq!(detections_to_fen(&v, Orientation::BlackBottom).0, "8/3k4/8/8/8/8/4K3/8");
}

#[test]
fn of_two_white_kings_on_one_row_the_first_becomes_black() {
    let v = vec![board(), piece(1, 6, 2), piece(1, 1, 2)];
    assert_eq!(detections_to_fen(&v, Orientation::WhiteBottom).0, "8/8/1K4k1/8/8/8/8/8");
}

#[test]
fn king_correction_needs_exactly_two_white_and_no_black_king() {
    let v = vec![board(), piece(1, 0, 0), piece(1, 1, 1), piece(1, 2, 2)];
    assert_eq!(detections_to_fen(&v, Orientation::WhiteBottom).0, "K7/1K6/2K5/8/8/8/8/8");
    let v = vec![board(), piece(1, 0, 0), piece(1, 1, 1), piece(7, 2, 2)];
    assert_eq!(detections_to_fen(&v, Orientation::WhiteBottom).0, "K7/1K6/2k5/8/8/8/8/8");
    let v = vec![board(), piece(1, 0, 0)];
    assert_eq!(detections_to_fen(&v, Orientation::WhiteBottom).0, "K7/8/8/8/8/8/8/8");
    let outside = det(1, 950_000, 950_000, 10, 10, 900_000);
    let v = vec![board(), piece(1, 0, 0), piece(1, 1, 1), outside];
    assert_eq!(detections_to_fen(&v, Orientation::WhiteBottom).0, "k7/1K6/8/8/8/8/8/8");
    let black_outside = det(7, 950_000, 950_000, 10, 10, 900_000);
    let v = vec![board(), piece(1, 0, 0), piece(1, 1, 1), black_outside];
    assert_eq!(detections_to_fen(&v, Orientation::WhiteBottom).0, "k7/1K6/8/8/8/8/8/8");
}

#[test]
fn orientation_follows_the_pawns() {
    let rect = board_rect();
    let white_low = vec![piece(6, 0, 6), piece(6, 1, 6), piece(12, 0, 1), piece(12, 5, 1)];
    assert_eq!(detect_orientation(&white_low, rect), Orientation::WhiteBottom);
    let white_high = vec![piece(6, 0, 1), piece(6, 1, 1), piece(12, 0, 6), piece(12, 5, 6)];
    assert_eq!(detect_orientation(&white_high, rect), Orientation::BlackBottom);
}

#[test]
fn orientation_without_pawns_of_one_colour_is_white_bottom() {
    let rect = board_rect();
    assert_eq!(detect_orientation(&[], rect), Orientation::WhiteBottom);
    assert_eq!(detect_orientation(&[piece(6, 0, 1)], rect), Orientation::WhiteBottom);
    assert_eq!(detect_orientation(&[piece(12, 0, 6)], rect), Orientation::WhiteBottom);
    assert_eq!(
        detect_orientation(&[piece(1, 0, 1), piece(12, 0, 6), piece(5, 2, 2)], rect),
        Orientation::WhiteBottom
    );
}

#[test]
fn orientation_compares_exact_averages() {
    let rect = board_rect();
    let y = |value: i32| det(0, 0, value, 10, 10, 0);
    let pawn = |class_id: usize, value: i32| Detection { class_id, ..y(value) };
    let equal = vec![pawn(6, 10), pawn(6, 20), pawn(12, 15)];
    assert_eq!(detect_orientation(&equal, rect), Orientation::BlackBottom);
    let above = vec![pawn(6, 10), pawn(6, 21), pawn(12, 15)];
    assert_eq!(detect_orientation(&above, rect), Orientation::WhiteBottom);
    let thirds = vec![pawn(6, 1), pawn(6, 0), pawn(6, 0), pawn(12, 1), pawn(12, 0)];
    assert_eq!(detect_orientation(&thirds, rect), Orientation::BlackBottom);
    let thirds = vec![pawn(12, 1), pawn(12, 0), pawn(12, 0), pawn(6, 1), pawn(6, 0)];
    assert_eq!(detect_orientation(&thirds, rect), Orientation::WhiteBottom);
    let negative = vec![pawn(6, -5), pawn(12, -6), pawn(12, -5)];
    assert_eq!(detect_orientation(&negative, rect), Orientation::WhiteBottom);
    let extreme = vec![pawn(6, i32::MIN), pawn(12, i32::MIN), pawn(12, i32::MIN + 1)];
    assert_eq!(detect_orientation(&extreme, rect), Orientation::BlackBottom);
    let extreme = vec![pawn(6, i32::MAX), pawn(12, i32::MAX), pawn(12, i32::MAX - 1)];
    assert_eq!(detect_orientation(&extreme, rect), Orientation::WhiteBottom);
}

#[test]
fn reconstruct_infers_the_orientation_and_uses_it() {
    let (orientation, placement, rect) = reconstruct(&start_position());
    assert_eq!(orientation, Orientation::WhiteBottom);
    assert_eq!(placement, "rnbqkbnr/pppppppp/8/8/8/8/PPPPPPPP/RNBQKBNR");
    assert_eq!(rect, board_rect());

    let mut flipped = vec![board()];
    let back = [3usize, 5, 4, 1, 2, 4, 5, 3];
    for col in 0..8 {
        flipped.push(piece(back[col], col as i32, 0));
        flipped.push(piece(6, col as i32, 1));
        flipped.push(piece(12, col as i32, 6));
        flipped.push(piece(back[col] + 6, col as i32, 7));
    }
    let (orientation, placement, rect) = reconstruct(&flipped);
    assert_eq!(orientation, Orientation::BlackBottom);
    assert_eq!(placement, "rnbqkbnr/pppppppp/8/8/8/8/PPPPPPPP/RNBQKBNR");
    assert_eq!(rect, board_rect());
}

#[test]
fn fen_for_each_side() {
    assert_eq!(fen_for_side("8/8/8/8/8/8/8/8", true), "8/8/8/8/8/8/8/8 w - - 0 1");
    assert_eq!(fen_for_side("k7/8/8/8/8/8/8/7K", false), "k7/8/8/8/8/8/8/7K b - - 0 1");
}

#[test]
fn king_counts_are_validated() {
    assert!(has_one_king_each(&[piece(1, 0, 0), piece(7, 1, 1)]));
    assert!(has_one_king_each(&[board(), piece(7, 1, 1), piece(6, 3, 3), piece(1, 0, 0)]));
    assert!(!has_one_king_each(&[]));
    assert!(!has_one_king_each(&[piece(1, 0, 0)]));
    assert!(!has_one_king_each(&[piece(7, 0, 0)]));
    assert!(!has_one_king_each(&[piece(1, 0, 0), piece(1, 1, 1)]));
    assert!(!has_one_king_each(&[piece(1, 0, 0), piece(7, 1, 1), piece(7, 2, 2)]));
    assert!(!has_one_king_each(&[piece(1, 0, 0), piece(1, 3, 3), piece(7, 1, 1)]));
}

#[test]
fn placement_text_of_a_grid() {
    let mut grid: Vec<Option<char>> = vec![None; 64];
    assert_eq!(placement_text(&grid), "8/8/8/8/8/8/8/8");
    grid[0] = Some('r');
    grid[7] = Some('?');
    grid[8 + 3] = Some('p');
    grid[63] = Some('K');
    grid[56] = Some('Q');
    grid[60] = Some('N');
    assert_eq!(placement_text(&grid), "r6?/3p4/8/8/8/8/8/Q3N2K");
    let full: Vec<Option<char>> = vec![Some('p'); 64];
    let text = placement_text(&full);
    assert_eq!(text.len(), 71);
    assert_eq!(text, ["pppppppp"; 8].join("/"));
}

#[test]
fn placement_has_eight_ranks_of_eight_squares() {
    let mut v = start_position();
    v.push(piece(13, 3, 3));
    v.push(piece(2, 5, 4));
    for orientation in [Orientation::WhiteBottom, Orientation::BlackBottom] {
        let (text, _) = detections_to_fen(&v, orientation);
        assert!(text.len() >= 15 && text.len() <= 71);
        let ranks: Vec<&str> = text.split('/').collect();
        assert_eq!(ranks.len(), 8);
        for rank in ranks {
            let squares: u32 = rank.chars().map(|c| c.to_digit(10).unwrap_or(1)).sum();
            assert_eq!(squares, 8);
        }
    }
}
