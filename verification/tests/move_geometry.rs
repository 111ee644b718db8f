use chess_overlay::chess_logic::{
    move_to_rect, point_to_square, square_to_point, Orientation, Rect,
};

fn rect() -> Rect {
    Rect { x: 100_000, y: 100_000, w: 800_000, h: 800_000 }
}

#[test]
fn move_becomes_a_segment_between_square_centres() {
    assert_eq!(
        move_to_rect("e2e4", rect(), Orientation::WhiteBottom),
        Some((550_000, 750_000, 550_000, 550_000))
    );
    assert_eq!(
        move_to_rect("e2e4", rect(), Orientation::BlackBottom),
        Some((450_000, 250_000, 450_000, 450_000))
    );
    assert_eq!(
        move_to_rect("a1h8", rect(), Orientation::WhiteBottom),
        Some((150_000, 850_000, 850_000, 150_000))
    );
    assert_eq!(
        move_to_rect("a1h8", rect(), Orientation::BlackBottom),
        Some((850_000, 150_000, 150_000, 850_000))
    );
}

#[test]
fn promotion_suffix_is_ignored() {
    assert_eq!(
        move_to_rect("e7e8q", rect(), Orientation::WhiteBottom),
        Some((550_000, 250_000, 550_000, 150_000))
    );
}

#[test]
fn malformed_moves_give_nothing() {
    for code in [
        "", "e", "e2", "e2e", "i2e4", "e9e4", "e0e4", "e2i4", "e2e9", "e2e0", "E2E4", "2e4e",
        "`1a1", "a1`1", "\u{161}1a1", "a\u{661}a1", "e2-e4", "\u{e9}\u{e9}", " e2e4",
    ] {
        assert_eq!(move_to_rect(code, rect(), Orientation::WhiteBottom), None, "{:?}", code);
        assert_eq!(move_to_rect(code, rect(), Orientation::BlackBottom), None, "{:?}", code);
    }
}

#[test]
fn cell_size_is_rounded_down_in_points() {
    let r = Rect { x: -7, y: 3, w: 23, h: 8 };
    assert_eq!(square_to_point(0, 0, r, Orientation::WhiteBottom), (-6, 3));
    assert_eq!(square_to_point(7, 7, r, Orientation::WhiteBottom), (8, 10));
    assert_eq!(square_to_point(7, 7, r, Orientation::BlackBottom), (-6, 3));
    let zero = Rect { x: 0, y: 0, w: 0, h: 0 };
    assert_eq!(move_to_rect("e2e4", zero, Orientation::WhiteBottom), Some((0, 0, 0, 0)));
    let edge = Rect { x: i64::MAX - 80, y: i64::MIN, w: 80, h: i64::MAX };
    assert_eq!(
        square_to_point(7, 7, edge, Orientation::WhiteBottom),
        (i64::MAX - 5, i64::MIN + 7 * (i64::MAX / 8) + (i64::MAX / 8) / 2)
    );
}

#[test]
fn point_maps_to_the_square_that_holds_it() {
    let r = rect();
    assert_eq!(point_to_square(100_000, 100_000, r, Orientation::WhiteBottom), Some((0, 0)));
    assert_eq!(point_to_square(199_999, 200_000, r, Orientation::WhiteBottom), Some((0, 1)));
    assert_eq!(point_to_square(899_999, 899_999, r, Orientation::WhiteBottom), Some((7, 7)));
    assert_eq!(point_to_square(899_999, 899_999, r, Orientation::BlackBottom), Some((0, 0)));
    assert_eq!(point_to_square(550_000, 750_000, r, Orientation::BlackBottom), Some((3, 1)));
    assert_eq!(point_to_square(900_000, 500_000, r, Orientation::WhiteBottom), None);
    assert_eq!(point_to_square(500_000, 900_000, r, Orientation::WhiteBottom), None);
    assert_eq!(point_to_square(99_999, 500_000, r, Orientation::WhiteBottom), None);
    assert_eq!(point_to_square(500_000, 900_001, r, Orientation::WhiteBottom), None);
    let tiny = Rect { x: 0, y: 0, w: 7, h: 800 };
    assert_eq!(point_to_square(0, 0, tiny, Orientation::WhiteBottom), None);
    let wide = Rect { x: i64::MIN, y: i64::MIN, w: i64::MAX, h: i64::MAX };
    assert_eq!(point_to_square(i64::MIN, -9, wide, Orientation::WhiteBottom), Some((0, 7)));
    assert_eq!(point_to_square(i64::MIN, -8, wide, Orientation::WhiteBottom), None);
    assert_eq!(point_to_square(-1, -1, wide, Orientation::WhiteBottom), None);
}

#[test]
fn square_to_point_and_back_is_the_identity() {
    let rects = [
        rect(),
        Rect { x: -7, y: 3, w: 23, h: 8 },
        Rect { x: 0, y: 0, w: 8, h: 15 },
        Rect { x: i64::MIN, y: i64::MAX - 1000, w: i64::MAX, h: 1000 },
    ];
    for r in rects {
        for orientation in [Orientation::WhiteBottom, Orientation::BlackBottom] {
            for col in 0..8 {
                for row in 0..8 {
                    let (x, y) = square_to_point(col, row, r, orientation);
                    assert_eq!(point_to_square(x, y, r, orientation), Some((col, row)));
                }
            }
        }
    }
}
