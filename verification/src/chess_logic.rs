//! Reconstruction of a board position from detections, and the geometry that
//! maps squares to points of the analysed frame and back.
use crate::yolo::Detection;
use vstd::prelude::*;

verus! {

/// Which side of the captured image holds the first rank.
#[derive(Clone, Copy, Debug, PartialEq, Eq, Structural)]
pub enum Orientation {
    WhiteBottom,
    BlackBottom,
}

/// A rectangle of the analysed frame: the board's bounding box.
#[derive(Clone, Copy, Debug, PartialEq, Eq, Structural)]
pub struct Rect {
    pub x: i64,
    pub y: i64,
    pub w: i64,
    pub h: i64,
}

impl Rect {
    /// Whether the rectangle has a size that is not negative and ends within
    /// the range of its coordinates.
    pub open spec fn wf(self) -> bool {
        &&& self.w >= 0
        &&& self.h >= 0
        &&& self.x + self.w <= i64::MAX
        &&& self.y + self.h <= i64::MAX
    }

    /// Width of one of the eight columns, rounded down.
    pub open spec fn cell_w(self) -> int {
        self.w as int / 8
    }

    /// Height of one of the eight rows, rounded down.
    pub open spec fn cell_h(self) -> int {
        self.h as int / 8
    }

    /// Whether the rectangle is well formed and its cells have a size.
    pub open spec fn has_cells(self) -> bool {
        self.wf() && self.cell_w() > 0 && self.cell_h() > 0
    }

    pub fn is_wf(&self) -> (r: bool)
        ensures
            r == self.wf(),
    {
        self.w >= 0 && self.h >= 0 && self.x <= i64::MAX - self.w && self.y <= i64::MAX - self.h
    }
}

/// The class of the board itself. The classes 1 to 6 are the white king,
/// queen, rook, bishop, knight and pawn, the classes 7 to 12 the black ones.
pub const BOARD: usize = 0;

pub const WHITE_KING: usize = 1;

pub const WHITE_PAWN: usize = 6;

pub const BLACK_KING: usize = 7;

pub const BLACK_PAWN: usize = 12;

/// The letter of a piece class: upper case for white, lower case for black,
/// `?` for a class that names no piece.
pub open spec fn piece_letter(id: int) -> char {
    if id == 1 {
        'K'
    } else if id == 2 {
        'Q'
    } else if id == 3 {
        'R'
    } else if id == 4 {
        'B'
    } else if id == 5 {
        'N'
    } else if id == 6 {
        'P'
    } else if id == 7 {
        'k'
    } else if id == 8 {
        'q'
    } else if id == 9 {
        'r'
    } else if id == 10 {
        'b'
    } else if id == 11 {
        'n'
    } else if id == 12 {
        'p'
    } else {
        '?'
    }
}

pub fn class_id_to_fen(id: usize) -> (letter: char)
    ensures
        letter == piece_letter(id as int),
{
    match id {
        1 => 'K',
        2 => 'Q',
        3 => 'R',
        4 => 'B',
        5 => 'N',
        6 => 'P',
        7 => 'k',
        8 => 'q',
        9 => 'r',
        10 => 'b',
        11 => 'n',
        12 => 'p',
        _ => '?',
    }
}

/// A column or row index as the image shows it, for one as the board counts
/// it, and back: unchanged with white at the bottom, counted from the other
/// end with black at the bottom.
pub open spec fn mirrored(orientation: Orientation, index: int) -> int {
    match orientation {
        Orientation::WhiteBottom => index,
        Orientation::BlackBottom => 7 - index,
    }
}

/// The middle of cell `index` along one axis of a board that starts at
/// `origin` and is `size` long.
pub open spec fn cell_center(origin: int, size: int, index: int) -> int {
    origin + index * (size / 8) + (size / 8) / 2
}

/// The cell along one axis that holds the coordinate `p`.
pub open spec fn cell_of(origin: int, size: int, p: int) -> int {
    (p - origin) / (size / 8)
}

/// The point at the middle of the square in column `col` and row `row` of the
/// board, row 0 being the eighth rank.
pub open spec fn square_point(col: int, row: int, rect: Rect, orientation: Orientation) -> (
    int,
    int,
) {
    (
        cell_center(rect.x as int, rect.w as int, mirrored(orientation, col)),
        cell_center(rect.y as int, rect.h as int, mirrored(orientation, row)),
    )
}

/// The square, as `(col, row)`, that holds the point `(x, y)`: none where the
/// board has no cells or the point lies outside it.
pub open spec fn point_square(x: int, y: int, rect: Rect, orientation: Orientation) -> Option<
    (int, int),
> {
    if rect.cell_w() > 0 && rect.cell_h() > 0 && rect.x <= x <= rect.x + rect.w && rect.y <= y
        <= rect.y + rect.h && cell_of(rect.x as int, rect.w as int, x) < 8 && cell_of(
        rect.y as int,
        rect.h as int,
        y,
    ) < 8 {
        Some(
            (
                mirrored(orientation, cell_of(rect.x as int, rect.w as int, x)),
                mirrored(orientation, cell_of(rect.y as int, rect.h as int, y)),
            ),
        )
    } else {
        None
    }
}

proof fn lemma_cell_center(origin: int, size: int, index: int)
    requires
        0 <= index < 8,
        size >= 0,
    ensures
        origin <= cell_center(origin, size, index) <= origin + size,
        0 <= index * (size / 8) <= 7 * (size / 8),
        size / 8 > 0 ==> cell_of(origin, size, cell_center(origin, size, index)) == index,
{
    let cell = size / 8;
    assert(0 <= index * cell <= 7 * cell) by (nonlinear_arith)
        requires
            0 <= index < 8,
            cell >= 0,
    ;
    if cell > 0 {
        vstd::arithmetic::div_mod::lemma_div_multiples_vanish_fancy(index, cell / 2, cell);
        assert(cell * index == index * cell) by (nonlinear_arith);
    }
}

/// Mapping a square to its point and the point back to its square gives the
/// square again, for every square of a board that has cells, in either
/// orientation.
pub proof fn lemma_square_round_trip(col: int, row: int, rect: Rect, orientation: Orientation)
    requires
        0 <= col < 8,
        0 <= row < 8,
        rect.has_cells(),
    ensures
        point_square(
            square_point(col, row, rect, orientation).0,
            square_point(col, row, rect, orientation).1,
            rect,
            orientation,
        ) == Some((col, row)),
{
    lemma_cell_center(rect.x as int, rect.w as int, mirrored(orientation, col));
    lemma_cell_center(rect.y as int, rect.h as int, mirrored(orientation, row));
}

fn mirror(orientation: Orientation, index: usize) -> (r: usize)
    requires
        index < 8,
    ensures
        r == mirrored(orientation, index as int),
        r < 8,
{
    match orientation {
        Orientation::WhiteBottom => index,
        Orientation::BlackBottom => 7 - index,
    }
}

fn center(origin: i64, size: i64, index: usize) -> (r: i64)
    requires
        index < 8,
        size >= 0,
        origin + size <= i64::MAX,
    ensures
        r == cell_center(origin as int, size as int, index as int),
{
    proof {
        lemma_cell_center(origin as int, size as int, index as int);
    }
    let cell: i64 = size / 8;
    origin + (index as i64) * cell + cell / 2
}

/// The middle of a square, in the coordinates of the frame.
pub fn square_to_point(col: usize, row: usize, rect: Rect, orientation: Orientation) -> (p: (
    i64,
    i64,
))
    requires
        col < 8,
        row < 8,
        rect.wf(),
    ensures
        (p.0 as int, p.1 as int) == square_point(col as int, row as int, rect, orientation),
{
    (
        center(rect.x, rect.w, mirror(orientation, col)),
        center(rect.y, rect.h, mirror(orientation, row)),
    )
}

/// The square that holds a point of the frame, as `(col, row)`.
pub fn point_to_square(x: i64, y: i64, rect: Rect, orientation: Orientation) -> (square: Option<
    (usize, usize),
>)
    requires
        rect.wf(),
    ensures
        match square {
            Some((col, row)) => point_square(x as int, y as int, rect, orientation) == Some(
                (col as int, row as int),
            ) && col < 8 && row < 8,
            None => point_square(x as int, y as int, rect, orientation) is None,
        },
{
    let cell_w: i64 = rect.w / 8;
    let cell_h: i64 = rect.h / 8;
    if cell_w <= 0 || cell_h <= 0 {
        return None;
    }
    if x < rect.x || x > rect.x + rect.w || y < rect.y || y > rect.y + rect.h {
        return None;
    }
    let dx: i128 = x as i128 - rect.x as i128;
    let dy: i128 = y as i128 - rect.y as i128;
    let v_col: i128 = dx / (cell_w as i128);
    let v_row: i128 = dy / (cell_h as i128);
    if v_col < 8 && v_row < 8 {
        proof {
            vstd::arithmetic::div_mod::lemma_div_pos_is_pos(dx as int, cell_w as int);
            vstd::arithmetic::div_mod::lemma_div_pos_is_pos(dy as int, cell_h as int);
        }
        Some((mirror(orientation, v_col as usize), mirror(orientation, v_row as usize)))
    } else {
        None
    }
}

/// The column that a file letter names: `a` is column 0, `h` column 7.
pub open spec fn file_column(c: char) -> Option<int> {
    if 'a' <= c <= 'h' {
        Some(c as u32 - 0x61)
    } else {
        None
    }
}

/// The row that a rank digit names: `8` is row 0, `1` row 7.
pub open spec fn rank_row(c: char) -> Option<int> {
    if '1' <= c <= '8' {
        Some(0x38 - c as u32)
    } else {
        None
    }
}

/// The segment that a move code stands for, from the middle of its first
/// square to the middle of its second, as `(x1, y1, x2, y2)`: none where the
/// code has fewer than four characters or names no square.
pub open spec fn move_segment(code: Seq<char>, rect: Rect, orientation: Orientation) -> Option<
    (int, int, int, int),
> {
    if code.len() >= 4 && file_column(code[0]) is Some && rank_row(code[1]) is Some && file_column(
        code[2],
    ) is Some && rank_row(code[3]) is Some {
        let from = square_point(
            file_column(code[0])->Some_0,
            rank_row(code[1])->Some_0,
            rect,
            orientation,
        );
        let to = square_point(
            file_column(code[2])->Some_0,
            rank_row(code[3])->Some_0,
            rect,
            orientation,
        );
        Some((from.0, from.1, to.0, to.1))
    } else {
        None
    }
}

fn column_of(c: char) -> (r: Option<usize>)
    ensures
        match r {
            Some(col) => file_column(c) == Some(col as int) && col < 8,
            None => file_column(c) is None,
        },
{
    if 'a' <= c && c <= 'h' {
        Some((c as u32 - 0x61) as usize)
    } else {
        None
    }
}

fn row_of(c: char) -> (r: Option<usize>)
    ensures
        match r {
            Some(row) => rank_row(c) == Some(row as int) && row < 8,
            None => rank_row(c) is None,
        },
{
    if '1' <= c && c <= '8' {
        Some((0x38 - c as u32) as usize)
    } else {
        None
    }
}

/// The end points of the arrow for a move such as `e2e4`.
pub fn move_to_rect(move_str: &str, board_rect: Rect, orientation: Orientation) -> (segment:
    Option<(i64, i64, i64, i64)>)
    requires
        board_rect.wf(),
    ensures
        match segment {
            Some(s) => move_segment(move_str@, board_rect, orientation) == Some(
                (s.0 as int, s.1 as int, s.2 as int, s.3 as int),
            ),
            None => move_segment(move_str@, board_rect, orientation) is None,
        },
{
    if move_str.unicode_len() < 4 {
        return None;
    }
    let start_col: usize = match column_of(move_str.get_char(0)) {
        Some(v) => v,
        None => {
            return None;
        },
    };
    let start_row: usize = match row_of(move_str.get_char(1)) {
        Some(v) => v,
        None => {
            return None;
        },
    };
    let end_col: usize = match column_of(move_str.get_char(2)) {
        Some(v) => v,
        None => {
            return None;
        },
    };
    let end_row: usize = match row_of(move_str.get_char(3)) {
        Some(v) => v,
        None => {
            return None;
        },
    };
    let (x1, y1) = square_to_point(start_col, start_row, board_rect, orientation);
    let (x2, y2) = square_to_point(end_col, end_row, board_rect, orientation);
    Some((x1, y1, x2, y2))
}

/// How many of `s` are of class `class_id`.
pub open spec fn count_class(s: Seq<Detection>, class_id: int) -> nat
    decreases s.len(),
{
    if s.len() == 0 {
        0
    } else {
        count_class(s.drop_last(), class_id) + if s.last().class_id == class_id {
            1nat
        } else {
            0nat
        }
    }
}

/// The sum of the vertical centres of those of `s` that are of class
/// `class_id`.
pub open spec fn sum_y(s: Seq<Detection>, class_id: int) -> int
    decreases s.len(),
{
    if s.len() == 0 {
        0
    } else {
        sum_y(s.drop_last(), class_id) + if s.last().class_id == class_id {
            s.last().y as int
        } else {
            0
        }
    }
}

/// The orientation that the pawns show. White is at the bottom unless both
/// colours have pawns and the white ones do not lie lower in the image, on
/// average, than the black ones.
pub open spec fn orientation_of(s: Seq<Detection>) -> Orientation {
    let white = count_class(s, WHITE_PAWN as int);
    let black = count_class(s, BLACK_PAWN as int);
    if white == 0 || black == 0 || sum_y(s, WHITE_PAWN as int) * black > sum_y(
        s,
        BLACK_PAWN as int,
    ) * white {
        Orientation::WhiteBottom
    } else {
        Orientation::BlackBottom
    }
}

proof fn lemma_sum_bounds(s: Seq<Detection>, class_id: int)
    ensures
        count_class(s, class_id) <= s.len(),
        -0x8000_0000 * count_class(s, class_id) <= sum_y(s, class_id) <= 0x8000_0000 * count_class(
            s,
            class_id,
        ),
    decreases s.len(),
{
    if s.len() > 0 {
        lemma_sum_bounds(s.drop_last(), class_id);
    }
}

/// Comparing two averages by quotient and remainder: with positive counts
/// and sums that are not negative, `a / m > b / n` as fractions exactly when
/// the whole quotients differ that way, or are equal and the remainders
/// compare so.
proof fn lemma_compare_averages(a: int, m: int, b: int, n: int)
    requires
        a >= 0,
        b >= 0,
        m > 0,
        n > 0,
    ensures
        a * n > b * m <==> (a / m > b / n || (a / m == b / n && (a % m) * n > (b % n) * m)),
        0 <= (a % m) * n < m * n,
        0 <= (b % n) * m < m * n,
{
    let qa = a / m;
    let ra = a % m;
    let qb = b / n;
    let rb = b % n;
    vstd::arithmetic::div_mod::lemma_fundamental_div_mod(a, m);
    vstd::arithmetic::div_mod::lemma_fundamental_div_mod(b, n);
    assert(0 <= ra * n < m * n && 0 <= rb * m < m * n) by (nonlinear_arith)
        requires
            0 <= ra < m,
            0 <= rb < n,
            m > 0,
            n > 0,
    ;
    assert(a * n == qa * (m * n) + ra * n) by (nonlinear_arith)
        requires
            a == m * qa + ra,
    ;
    assert(b * m == qb * (m * n) + rb * m) by (nonlinear_arith)
        requires
            b == n * qb + rb,
    ;
    if qa > qb {
        assert(qa * (m * n) >= qb * (m * n) + m * n) by (nonlinear_arith)
            requires
                qa >= qb + 1,
                m * n > 0,
        ;
    } else if qa < qb {
        assert(qb * (m * n) >= qa * (m * n) + m * n) by (nonlinear_arith)
            requires
                qb >= qa + 1,
                m * n > 0,
        ;
    }
}

/// Infers the orientation from the pawns among `detections`.
pub fn detect_orientation(detections: &[Detection], _board_rect: Rect) -> (orientation: Orientation)
    ensures
        orientation == orientation_of(detections@),
{
    let n: usize = detections.len();
    let mut white_sum: u128 = 0;
    let mut white_count: u64 = 0;
    let mut black_sum: u128 = 0;
    let mut black_count: u64 = 0;
    let mut i: usize = 0;
    while i < n
        invariant
            n == detections@.len(),
            i <= n,
            white_count == count_class(detections@.take(i as int), WHITE_PAWN as int),
            black_count == count_class(detections@.take(i as int), BLACK_PAWN as int),
            white_sum == sum_y(detections@.take(i as int), WHITE_PAWN as int) + white_count
                * 0x8000_0000,
            black_sum == sum_y(detections@.take(i as int), BLACK_PAWN as int) + black_count
                * 0x8000_0000,
        decreases n - i,
    {
        proof {
            assert(detections@.take(i + 1).drop_last() =~= detections@.take(i as int));
            lemma_sum_bounds(detections@.take(i as int), WHITE_PAWN as int);
            lemma_sum_bounds(detections@.take(i as int), BLACK_PAWN as int);
        }
        let d: Detection = detections[i];
        let lifted: u128 = (d.y as i64 + 0x8000_0000) as u128;
        if d.class_id == WHITE_PAWN {
            white_sum = white_sum + lifted;
            white_count = white_count + 1;
        } else if d.class_id == BLACK_PAWN {
            black_sum = black_sum + lifted;
            black_count = black_count + 1;
        }
        i = i + 1;
    }
    if white_count == 0 || black_count == 0 {
        proof {
            assert(detections@.take(n as int) =~= detections@);
        }
        return Orientation::WhiteBottom;
    }
    let white: u128 = white_count as u128;
    let black: u128 = black_count as u128;
    proof {
        assert(detections@.take(n as int) =~= detections@);
        lemma_compare_averages(white_sum as int, white as int, black_sum as int, black as int);
        let sw = sum_y(detections@, WHITE_PAWN as int);
        let sb = sum_y(detections@, BLACK_PAWN as int);
        assert(white_sum * black > black_sum * white <==> sw * black > sb * white)
            by (nonlinear_arith)
            requires
                white_sum == sw + white * 0x8000_0000,
                black_sum == sb + black * 0x8000_0000,
        ;
        assert(white * black <= 0xFFFF_FFFF_FFFF_FFFF * 0xFFFF_FFFF_FFFF_FFFF) by (nonlinear_arith)
            requires
                0 <= white <= 0xFFFF_FFFF_FFFF_FFFF,
                0 <= black <= 0xFFFF_FFFF_FFFF_FFFF,
        ;
    }
    let white_whole: u128 = white_sum / white;
    let black_whole: u128 = black_sum / black;
    if white_whole > black_whole || (white_whole == black_whole && (white_sum % white) * black > (
    black_sum % black) * white) {
        Orientation::WhiteBottom
    } else {
        Orientation::BlackBottom
    }
}

/// A board detection must be wider and higher than this to count.
pub const MIN_BOARD_SIZE: i32 = 200_000;

/// Whether `d` is a detection of the board that is large enough to count.
pub open spec fn is_board(d: Detection) -> bool {
    d.class_id == BOARD && d.w > MIN_BOARD_SIZE && d.h > MIN_BOARD_SIZE
}

/// The board among `s`: of the board detections that count, the most
/// confident one, and the last of those where several are.
pub open spec fn best_board(s: Seq<Detection>) -> Option<Detection>
    decreases s.len(),
{
    if s.len() == 0 {
        None
    } else {
        let before = best_board(s.drop_last());
        if is_board(s.last()) && (before is None || s.last().confidence
            >= before->Some_0.confidence) {
            Some(s.last())
        } else {
            before
        }
    }
}

/// `best_board` names a board detection of `s` that none of the others
/// exceeds in confidence, and names none only where `s` holds none.
pub proof fn lemma_best_board(s: Seq<Detection>)
    ensures
        match best_board(s) {
            Some(b) => is_board(b) && s.contains(b) && forall|k: int|
                0 <= k < s.len() && is_board(#[trigger] s[k]) ==> s[k].confidence <= b.confidence,
            None => forall|k: int| 0 <= k < s.len() ==> !is_board(#[trigger] s[k]),
        },
    decreases s.len(),
{
    if s.len() > 0 {
        let t = s.drop_last();
        lemma_best_board(t);
        match best_board(s) {
            Some(b) => {
                if b == s.last() {
                    assert(s[s.len() - 1] == b);
                } else {
                    assert(t.contains(b));
                    let w = choose|w: int| 0 <= w < t.len() && t[w] == b;
                    assert(s[w] == b);
                }
                assert forall|k: int| 0 <= k < s.len() && is_board(#[trigger] s[k]) implies s[k].confidence
                    <= b.confidence by {
                    if k < t.len() {
                        assert(t[k] == s[k]);
                    }
                }
            },
            None => {
                assert forall|k: int| 0 <= k < s.len() implies !is_board(#[trigger] s[k]) by {
                    if k < t.len() {
                        assert(t[k] == s[k]);
                    }
                }
            },
        }
    }
}

/// The bounding box of a detection.
pub open spec fn rect_of(d: Detection) -> Rect {
    Rect {
        x: d.left() as i64,
        y: d.top() as i64,
        w: (d.right() - d.left()) as i64,
        h: (d.bottom() - d.top()) as i64,
    }
}

/// The rectangle that stands for "no board": all zero.
pub open spec fn no_rect() -> Rect {
    Rect { x: 0, y: 0, w: 0, h: 0 }
}

/// A piece on its square: `row` 0 is the eighth rank, `col` 0 the a-file.
#[derive(Clone, Copy, Debug, PartialEq, Eq, Structural)]
pub struct RawPiece {
    pub row: usize,
    pub col: usize,
    pub class_id: usize,
}

/// Whether every piece of `s` stands on a square of the board.
pub open spec fn on_board(s: Seq<RawPiece>) -> bool {
    forall|k: int| 0 <= k < s.len() ==> (#[trigger] s[k]).row < 8 && s[k].col < 8
}

/// The pieces among `s`, each on the square that holds its centre, in the
/// order of `s`: a detection of the board, or one whose centre lies on no
/// square, gives none.
pub open spec fn placed(s: Seq<Detection>, rect: Rect, orientation: Orientation) -> Seq<RawPiece>
    decreases s.len(),
{
    if s.len() == 0 {
        Seq::empty()
    } else {
        let before = placed(s.drop_last(), rect, orientation);
        let d = s.last();
        let square = point_square(d.x as int, d.y as int, rect, orientation);
        if d.class_id != BOARD && square is Some {
            before.push(
                RawPiece {
                    row: square->Some_0.1 as usize,
                    col: square->Some_0.0 as usize,
                    class_id: d.class_id,
                },
            )
        } else {
            before
        }
    }
}

/// How many of `s` are of class `class_id`.
pub open spec fn count_pieces(s: Seq<RawPiece>, class_id: int) -> nat
    decreases s.len(),
{
    if s.len() == 0 {
        0
    } else {
        count_pieces(s.drop_last(), class_id) + if s.last().class_id == class_id {
            1nat
        } else {
            0nat
        }
    }
}

/// Index of the white king of `s` that stands nearest to the eighth rank, the
/// first of them where several stand equally near; -1 where `s` has no white
/// king.
pub open spec fn far_king(s: Seq<RawPiece>) -> int
    decreases s.len(),
{
    if s.len() == 0 {
        -1
    } else {
        let before = far_king(s.drop_last());
        if s.last().class_id == WHITE_KING && (before < 0 || s.last().row < s[before].row) {
            s.len() - 1
        } else {
            before
        }
    }
}

/// `far_king` names a white king, no white king stands nearer to the eighth
/// rank, and none before it stands as near.
pub proof fn lemma_far_king(s: Seq<RawPiece>)
    ensures
        -1 <= far_king(s) < s.len(),
        far_king(s) < 0 <==> count_pieces(s, WHITE_KING as int) == 0,
        far_king(s) >= 0 ==> s[far_king(s)].class_id == WHITE_KING,
        forall|k: int|
            0 <= k < s.len() && (#[trigger] s[k]).class_id == WHITE_KING ==> far_king(s) >= 0 && (
            s[far_king(s)].row < s[k].row || (s[far_king(s)].row == s[k].row && far_king(s) <= k)),
    decreases s.len(),
{
    if s.len() > 0 {
        let t = s.drop_last();
        lemma_far_king(t);
        if far_king(t) >= 0 {
            assert(t[far_king(t)] == s[far_king(t)]);
        }
        assert forall|k: int| 0 <= k < s.len() && (#[trigger] s[k]).class_id
            == WHITE_KING implies far_king(s) >= 0 && (s[far_king(s)].row < s[k].row || (s[far_king(
            s,
        )].row == s[k].row && far_king(s) <= k)) by {
            if k < t.len() {
                assert(t[k] == s[k]);
            }
        }
    }
}

/// The pieces after the correction for a king seen twice: where exactly two
/// white kings and no black king stand on the board, the white king nearest
/// to the eighth rank is taken for the black one.
pub open spec fn resolved(s: Seq<RawPiece>) -> Seq<RawPiece> {
    if count_pieces(s, WHITE_KING as int) == 2 && count_pieces(s, BLACK_KING as int) == 0 {
        s.update(far_king(s), RawPiece { class_id: BLACK_KING, ..s[far_king(s)] })
    } else {
        s
    }
}

/// The board with nothing on it: 64 squares row by row, the eighth rank
/// first.
pub open spec fn empty_grid() -> Seq<Option<char>> {
    Seq::new(64, |i: int| None)
}

/// The board with the pieces of `s` put on it one after the other: a later one
/// replaces an earlier one on the same square.
pub open spec fn filled(s: Seq<RawPiece>) -> Seq<Option<char>>
    decreases s.len(),
{
    if s.len() == 0 {
        empty_grid()
    } else {
        filled(s.drop_last()).update(
            s.last().row * 8 + s.last().col,
            Some(piece_letter(s.last().class_id as int)),
        )
    }
}

/// Whether `c` is one of the letters that `piece_letter` gives.
pub open spec fn is_piece_letter(c: char) -> bool {
    c == 'K' || c == 'Q' || c == 'R' || c == 'B' || c == 'N' || c == 'P' || c == 'k' || c == 'q'
        || c == 'r' || c == 'b' || c == 'n' || c == 'p' || c == '?'
}

/// Whether `grid` has 64 squares and holds piece letters only.
pub open spec fn is_grid(grid: Seq<Option<char>>) -> bool {
    grid.len() == 64 && forall|k: int|
        0 <= k < 64 ==> (#[trigger] grid[k]) is Some ==> is_piece_letter(grid[k]->Some_0)
}

pub proof fn lemma_filled_is_grid(s: Seq<RawPiece>)
    requires
        on_board(s),
    ensures
        is_grid(filled(s)),
    decreases s.len(),
{
    if s.len() > 0 {
        assert(on_board(s.drop_last())) by {
            assert forall|k: int| 0 <= k < s.drop_last().len() implies (
            #[trigger] s.drop_last()[k]).row < 8 && s.drop_last()[k].col < 8 by {
                assert(s.drop_last()[k] == s[k]);
            }
        }
        lemma_filled_is_grid(s.drop_last());
        assert(s[s.len() - 1].row < 8);
    }
}

fn find_board(detections: &[Detection]) -> (board: Option<Detection>)
    ensures
        board == best_board(detections@),
{
    let n: usize = detections.len();
    let mut board: Option<Detection> = None;
    let mut i: usize = 0;
    while i < n
        invariant
            n == detections@.len(),
            i <= n,
            board == best_board(detections@.take(i as int)),
        decreases n - i,
    {
        proof {
            assert(detections@.take(i + 1).drop_last() =~= detections@.take(i as int));
        }
        let d: Detection = detections[i];
        if d.class_id == BOARD && d.w > MIN_BOARD_SIZE && d.h > MIN_BOARD_SIZE {
            let better: bool = match board {
                Some(b) => d.confidence >= b.confidence,
                None => true,
            };
            if better {
                board = Some(d);
            }
        }
        i = i + 1;
    }
    proof {
        assert(detections@.take(n as int) =~= detections@);
    }
    board
}

fn bounding_rect(d: &Detection) -> (rect: Rect)
    ensures
        rect == rect_of(*d),
        d.w >= 0 && d.h >= 0 ==> rect.wf(),
        d.w >= 16 ==> rect.cell_w() > 0,
        d.h >= 16 ==> rect.cell_h() > 0,
{
    let (x1, y1, x2, y2) = d.bounds();
    Rect { x: x1, y: y1, w: x2 - x1, h: y2 - y1 }
}

fn place_pieces(detections: &[Detection], rect: Rect, orientation: Orientation) -> (pieces: Vec<
    RawPiece,
>)
    requires
        rect.wf(),
    ensures
        pieces@ == placed(detections@, rect, orientation),
        on_board(pieces@),
{
    let n: usize = detections.len();
    let mut pieces: Vec<RawPiece> = Vec::new();
    let mut i: usize = 0;
    while i < n
        invariant
            n == detections@.len(),
            i <= n,
            rect.wf(),
            pieces@ == placed(detections@.take(i as int), rect, orientation),
            on_board(pieces@),
        decreases n - i,
    {
        proof {
            assert(detections@.take(i + 1).drop_last() =~= detections@.take(i as int));
        }
        let d: Detection = detections[i];
        if d.class_id != BOARD {
            match point_to_square(d.x as i64, d.y as i64, rect, orientation) {
                Some((col, row)) => {
                    pieces.push(RawPiece { row, col, class_id: d.class_id });
                },
                None => {},
            }
        }
        i = i + 1;
    }
    proof {
        assert(detections@.take(n as int) =~= detections@);
    }
    pieces
}

fn resolve_kings(pieces: &mut Vec<RawPiece>)
    ensures
        final(pieces)@ == resolved(old(pieces)@),
        on_board(old(pieces)@) ==> on_board(final(pieces)@),
{
    let n: usize = pieces.len();
    let mut white: usize = 0;
    let mut black: usize = 0;
    let mut target: usize = 0;
    let mut i: usize = 0;
    while i < n
        invariant
            n == pieces.len(),
            pieces@ == old(pieces)@,
            i <= n,
            white == count_pieces(pieces@.take(i as int), WHITE_KING as int),
            black == count_pieces(pieces@.take(i as int), BLACK_KING as int),
            white <= i,
            black <= i,
            white > 0 ==> target == far_king(pieces@.take(i as int)),
            white == 0 ==> far_king(pieces@.take(i as int)) == -1,
            white > 0 ==> target < i,
        decreases n - i,
    {
        proof {
            assert(pieces@.take(i + 1).drop_last() =~= pieces@.take(i as int));
            if white > 0 {
                assert(pieces@.take(i as int)[target as int] == pieces[target as int]);
                assert(pieces@.take(i + 1)[target as int] == pieces[target as int]);
            }
        }
        let p: RawPiece = pieces[i];
        if p.class_id == WHITE_KING {
            if white == 0 || p.row < pieces[target].row {
                target = i;
            }
            white = white + 1;
        } else if p.class_id == BLACK_KING {
            black = black + 1;
        }
        i = i + 1;
    }
    proof {
        assert(pieces@.take(n as int) =~= pieces@);
    }
    if white == 2 && black == 0 {
        let p: RawPiece = pieces[target];
        pieces.set(target, RawPiece { row: p.row, col: p.col, class_id: BLACK_KING });
    }
}

fn fill_grid(pieces: &Vec<RawPiece>) -> (grid: Vec<Option<char>>)
    requires
        on_board(pieces@),
    ensures
        grid@ == filled(pieces@),
        is_grid(grid@),
{
    let mut grid: Vec<Option<char>> = Vec::new();
    let mut k: usize = 0;
    while k < 64
        invariant
            k <= 64,
            grid.len() == k,
            forall|j: int| 0 <= j < k ==> grid[j] == None::<char>,
        decreases 64 - k,
    {
        grid.push(None);
        k = k + 1;
    }
    proof {
        assert(grid@ =~= empty_grid());
    }
    let n: usize = pieces.len();
    let mut i: usize = 0;
    while i < n
        invariant
            n == pieces.len(),
            i <= n,
            on_board(pieces@),
            grid@ == filled(pieces@.take(i as int)),
            grid.len() == 64,
        decreases n - i,
    {
        proof {
            assert(pieces@.take(i + 1).drop_last() =~= pieces@.take(i as int));
        }
        let p: RawPiece = pieces[i];
        grid.set(p.row * 8 + p.col, Some(class_id_to_fen(p.class_id)));
        i = i + 1;
    }
    proof {
        assert(pieces@.take(n as int) =~= pieces@);
        lemma_filled_is_grid(pieces@);
    }
    grid
}

/// `text` with the count of a run of empty squares written behind it, where
/// the run is not empty.
pub open spec fn flushed(text: Seq<char>, run: int) -> Seq<char> {
    if run > 0 {
        text.push(crate::text::digit_char(run))
    } else {
        text
    }
}

/// One rank read from the a-file on: the text so far, and the length of the
/// run of empty squares that has not been written yet.
pub open spec fn rank_scan(cells: Seq<Option<char>>) -> (Seq<char>, int)
    decreases cells.len(),
{
    if cells.len() == 0 {
        (Seq::empty(), 0)
    } else {
        let before = rank_scan(cells.drop_last());
        match cells.last() {
            Some(letter) => (flushed(before.0, before.1).push(letter), 0),
            None => (before.0, before.1 + 1),
        }
    }
}

/// The text of one rank: each piece by its letter, each run of empty squares
/// by its length.
pub open spec fn rank_text(cells: Seq<Option<char>>) -> Seq<char> {
    flushed(rank_scan(cells).0, rank_scan(cells).1)
}

/// The squares of row `row` of `grid`, from the a-file on.
pub open spec fn grid_row(grid: Seq<Option<char>>, row: int) -> Seq<Option<char>> {
    grid.subrange(row * 8, row * 8 + 8)
}

/// The text of the first `rows` rows of `grid`, with `/` between them.
pub open spec fn placement_upto(grid: Seq<Option<char>>, rows: int) -> Seq<char>
    decreases rows,
{
    if rows <= 0 {
        Seq::empty()
    } else if rows == 1 {
        rank_text(grid_row(grid, 0))
    } else {
        placement_upto(grid, rows - 1).push('/') + rank_text(grid_row(grid, rows - 1))
    }
}

/// The placement string of `grid`: its eight ranks from the eighth to the
/// first, with `/` between them.
pub open spec fn placement(grid: Seq<Option<char>>) -> Seq<char> {
    placement_upto(grid, 8)
}

fn letter_text(letter: char) -> (r: &'static str)
    requires
        is_piece_letter(letter),
    ensures
        r@ == seq![letter],
{
    proof {
        reveal_strlit("K");
        reveal_strlit("Q");
        reveal_strlit("R");
        reveal_strlit("B");
        reveal_strlit("N");
        reveal_strlit("P");
        reveal_strlit("k");
        reveal_strlit("q");
        reveal_strlit("r");
        reveal_strlit("b");
        reveal_strlit("n");
        reveal_strlit("p");
        reveal_strlit("?");
    }
    let r: &'static str = match letter {
        'K' => "K",
        'Q' => "Q",
        'R' => "R",
        'B' => "B",
        'N' => "N",
        'P' => "P",
        'k' => "k",
        'q' => "q",
        'r' => "r",
        'b' => "b",
        'n' => "n",
        'p' => "p",
        _ => "?",
    };
    assert(r@ =~= seq![letter]);
    r
}

/// Writes the placement string of a board.
pub fn placement_text(grid: &Vec<Option<char>>) -> (text: String)
    requires
        is_grid(grid@),
    ensures
        text@ == placement(grid@),
{
    let mut text: String = String::new();
    let mut row: usize = 0;
    while row < 8
        invariant
            row <= 8,
            is_grid(grid@),
            text@ == placement_upto(grid@, row as int),
        decreases 8 - row,
    {
        if row > 0 {
            proof {
                reveal_strlit("/");
                assert(text@ + "/"@ =~= text@.push('/'));
            }
            text.append("/");
        }
        let ghost prefix = text@;
        let ghost cells = grid_row(grid@, row as int);
        let mut run: u32 = 0;
        let mut col: usize = 0;
        while col < 8
            invariant
                row < 8,
                col <= 8,
                is_grid(grid@),
                cells == grid_row(grid@, row as int),
                run <= col,
                text@ == prefix + rank_scan(cells.take(col as int)).0,
                run == rank_scan(cells.take(col as int)).1,
            decreases 8 - col,
        {
            proof {
                assert(cells.take(col + 1).drop_last() =~= cells.take(col as int));
                assert(cells.take(col + 1).last() == grid[row * 8 + col]);
            }
            let ghost scanned = rank_scan(cells.take(col as int)).0;
            match grid[row * 8 + col] {
                Some(letter) => {
                    if run > 0 {
                        text.append(crate::text::digit_text(run));
                        run = 0;
                    }
                    text.append(letter_text(letter));
                    proof {
                        assert(text@ =~= prefix + rank_scan(cells.take(col + 1)).0);
                    }
                },
                None => {
                    run = run + 1;
                },
            }
            col = col + 1;
        }
        proof {
            assert(cells.take(8) =~= cells);
        }
        if run > 0 {
            text.append(crate::text::digit_text(run));
        }
        proof {
            assert(text@ =~= prefix + rank_text(cells));
        }
        row = row + 1;
    }
    text
}

/// The board's rectangle among `s`: the bounding box of the board that
/// `best_board` names, all zero where it names none.
pub open spec fn board_rect(s: Seq<Detection>) -> Rect {
    match best_board(s) {
        Some(b) => rect_of(b),
        None => no_rect(),
    }
}

/// The board that `s` shows in the given orientation: its pieces placed by
/// the board's rectangle, the king seen twice corrected, and each put on its
/// square. Without a board it is empty.
pub open spec fn position_grid(s: Seq<Detection>, orientation: Orientation) -> Seq<Option<char>> {
    filled(resolved(placed(s, board_rect(s), orientation)))
}

/// Reconstructs the position that `detections` show: its placement string and
/// the rectangle of the board. Without a board the placement is that of the
/// empty board and the rectangle is all zero.
pub fn detections_to_fen(detections: &[Detection], orientation: Orientation) -> (result: (
    String,
    Rect,
))
    ensures
        result.0@ == placement(position_grid(detections@, orientation)),
        result.1 == board_rect(detections@),
        result.1.wf(),
        best_board(detections@) is Some ==> result.1.has_cells(),
{
    let rect: Rect = match find_board(detections) {
        Some(board) => bounding_rect(&board),
        None => Rect { x: 0, y: 0, w: 0, h: 0 },
    };
    proof {
        lemma_best_board(detections@);
    }
    let mut pieces: Vec<RawPiece> = place_pieces(detections, rect, orientation);
    resolve_kings(&mut pieces);
    let grid: Vec<Option<char>> = fill_grid(&pieces);
    (placement_text(&grid), rect)
}

/// Whether `s` holds exactly one king of each colour.
pub open spec fn kings_valid(s: Seq<Detection>) -> bool {
    count_class(s, WHITE_KING as int) == 1 && count_class(s, BLACK_KING as int) == 1
}

/// Whether `detections` hold exactly one white king and exactly one black one.
pub fn has_one_king_each(detections: &[Detection]) -> (valid: bool)
    ensures
        valid == kings_valid(detections@),
{
    let n: usize = detections.len();
    let mut white: usize = 0;
    let mut black: usize = 0;
    let mut i: usize = 0;
    while i < n
        invariant
            n == detections@.len(),
            i <= n,
            white == count_class(detections@.take(i as int), WHITE_KING as int),
            black == count_class(detections@.take(i as int), BLACK_KING as int),
            white <= i,
            black <= i,
        decreases n - i,
    {
        proof {
            assert(detections@.take(i + 1).drop_last() =~= detections@.take(i as int));
        }
        if detections[i].class_id == WHITE_KING {
            white = white + 1;
        } else if detections[i].class_id == BLACK_KING {
            black = black + 1;
        }
        i = i + 1;
    }
    proof {
        assert(detections@.take(n as int) =~= detections@);
    }
    white == 1 && black == 1
}

/// Whether `id` is the class of a piece.
pub open spec fn is_piece_class(id: int) -> bool {
    1 <= id <= 12
}

/// Those of `s` whose class is that of a piece, in the order of `s`.
pub open spec fn known_pieces(s: Seq<RawPiece>) -> Seq<RawPiece>
    decreases s.len(),
{
    if s.len() == 0 {
        Seq::empty()
    } else if is_piece_class(s.last().class_id as int) {
        known_pieces(s.drop_last()).push(s.last())
    } else {
        known_pieces(s.drop_last())
    }
}

/// The pieces that `s` shows, each on its square: placed by the board's
/// rectangle in the orientation that the pawns show, with the king seen twice
/// corrected.
pub open spec fn position_pieces(s: Seq<Detection>) -> Seq<RawPiece> {
    resolved(placed(s, board_rect(s), orientation_of(s)))
}

/// The pieces that `detections` show, each on its square.
pub fn locate_pieces(detections: &[Detection]) -> (pieces: Vec<RawPiece>)
    ensures
        pieces@ == position_pieces(detections@),
        on_board(pieces@),
{
    let rect: Rect = match find_board(detections) {
        Some(board) => bounding_rect(&board),
        None => Rect { x: 0, y: 0, w: 0, h: 0 },
    };
    proof {
        lemma_best_board(detections@);
    }
    let orientation: Orientation = detect_orientation(detections, rect);
    let mut pieces: Vec<RawPiece> = place_pieces(detections, rect, orientation);
    resolve_kings(&mut pieces);
    pieces
}

/// With exactly one king of each colour among the detections, the correction
/// for a king seen twice changes nothing.
pub proof fn lemma_valid_kings_unchanged(s: Seq<Detection>, rect: Rect, orientation: Orientation)
    requires
        kings_valid(s),
    ensures
        resolved(placed(s, rect, orientation)) == placed(s, rect, orientation),
{
    lemma_placed_counts(s, rect, orientation, WHITE_KING as int);
}

/// Of no class are more pieces placed than detected.
pub proof fn lemma_placed_counts(
    s: Seq<Detection>,
    rect: Rect,
    orientation: Orientation,
    class_id: int,
)
    ensures
        count_pieces(placed(s, rect, orientation), class_id) <= count_class(s, class_id),
    decreases s.len(),
{
    if s.len() > 0 {
        lemma_placed_counts(s.drop_last(), rect, orientation, class_id);
        let before = placed(s.drop_last(), rect, orientation);
        let d = s.last();
        let square = point_square(d.x as int, d.y as int, rect, orientation);
        if d.class_id != BOARD && square is Some {
            let piece = RawPiece {
                row: square->Some_0.1 as usize,
                col: square->Some_0.0 as usize,
                class_id: d.class_id,
            };
            assert(before.push(piece).drop_last() =~= before);
        }
    }
}

/// The end of a FEN whose position has no castling rights, no en-passant
/// square, and stands at the start of the move count.
pub open spec fn fen_tail(white_to_move: bool) -> Seq<char> {
    if white_to_move {
        " w - - 0 1"@
    } else {
        " b - - 0 1"@
    }
}

/// The FEN that pairs a placement with the side to move.
pub fn fen_for_side(placement: &str, white_to_move: bool) -> (fen: String)
    ensures
        fen@ == placement@ + fen_tail(white_to_move),
{
    let mut fen: String = String::from_str(placement);
    if white_to_move {
        fen.append(" w - - 0 1");
    } else {
        fen.append(" b - - 0 1");
    }
    fen
}

/// One recognition pass: the orientation that the pawns show, the placement
/// string of the position in that orientation, and the board's rectangle.
pub fn reconstruct(detections: &[Detection]) -> (result: (Orientation, String, Rect))
    ensures
        result.0 == orientation_of(detections@),
        result.1@ == placement(position_grid(detections@, result.0)),
        result.2 == board_rect(detections@),
        result.2.wf(),
{
    let (_, located) = detections_to_fen(detections, Orientation::WhiteBottom);
    let orientation: Orientation = detect_orientation(detections, located);
    let (text, rect) = detections_to_fen(detections, orientation);
    (orientation, text, rect)
}

/// How many squares a character of a rank's text stands for: a digit for as
/// many as it says, any other character for one.
pub open spec fn char_width(c: char) -> int {
    if crate::text::is_digit(c) {
        crate::text::digit_value(c)
    } else {
        1
    }
}

/// How many squares a rank's text stands for.
pub open spec fn rank_width(text: Seq<char>) -> int
    decreases text.len(),
{
    if text.len() == 0 {
        0
    } else {
        rank_width(text.drop_last()) + char_width(text.last())
    }
}

/// Whether every square of `cells` that holds something holds a piece
/// letter.
pub open spec fn holds_letters(cells: Seq<Option<char>>) -> bool {
    forall|k: int|
        0 <= k < cells.len() ==> (#[trigger] cells[k]) is Some ==> is_piece_letter(
            cells[k]->Some_0,
        )
}

proof fn lemma_rank_scan(cells: Seq<Option<char>>)
    requires
        cells.len() <= 8,
        holds_letters(cells),
    ensures
        0 <= rank_scan(cells).1,
        rank_width(rank_scan(cells).0) + rank_scan(cells).1 == cells.len(),
        rank_scan(cells).0.len() + rank_scan(cells).1 <= cells.len(),
        !rank_scan(cells).0.contains('/'),
    decreases cells.len(),
{
    if cells.len() > 0 {
        let before = cells.drop_last();
        assert(holds_letters(before)) by {
            assert forall|k: int| 0 <= k < before.len() && (#[trigger] before[k]) is Some implies is_piece_letter(
                before[k]->Some_0,
            ) by {
                assert(before[k] == cells[k]);
            }
        }
        lemma_rank_scan(before);
        let scanned = rank_scan(before);
        match cells.last() {
            Some(letter) => {
                assert(cells[cells.len() - 1] is Some);
                assert(is_piece_letter(letter));
                let head = flushed(scanned.0, scanned.1);
                lemma_flushed(scanned.0, scanned.1);
                let text = head.push(letter);
                assert(text.drop_last() =~= head);
                assert(char_width(letter) == 1);
                assert forall|k: int| 0 <= k < text.len() implies text[k] != '/' by {
                    if k < head.len() {
                        assert(head.contains(head[k]));
                    }
                }
            },
            None => {},
        }
    }
}

proof fn lemma_flushed(text: Seq<char>, run: int)
    requires
        0 <= run <= 8,
        !text.contains('/'),
    ensures
        rank_width(flushed(text, run)) == rank_width(text) + run,
        flushed(text, run).len() <= text.len() + 1,
        run > 0 ==> flushed(text, run).len() == text.len() + 1,
        run == 0 ==> flushed(text, run) == text,
        !flushed(text, run).contains('/'),
{
    if run > 0 {
        let digit = crate::text::digit_char(run);
        let out = text.push(digit);
        assert(out.drop_last() =~= text);
        assert(char_width(digit) == run);
        assert forall|k: int| 0 <= k < out.len() implies out[k] != '/' by {
            if k < text.len() {
                assert(text.contains(text[k]));
            }
        }
    }
}

/// The text of a rank of eight squares stands for eight squares, has between
/// one and eight characters, and holds no `/`.
pub proof fn lemma_rank_text(cells: Seq<Option<char>>)
    requires
        cells.len() == 8,
        holds_letters(cells),
    ensures
        rank_width(rank_text(cells)) == 8,
        1 <= rank_text(cells).len() <= 8,
        !rank_text(cells).contains('/'),
{
    lemma_rank_scan(cells);
    lemma_flushed(rank_scan(cells).0, rank_scan(cells).1);
    if rank_scan(cells).1 == 0 {
        assert(rank_width(rank_scan(cells).0) == 8);
        assert(rank_scan(cells).0.len() > 0);
    }
}

/// The rank texts of `grid`, from the eighth rank to the first.
pub open spec fn ranks_of(grid: Seq<Option<char>>) -> Seq<Seq<char>> {
    Seq::new(8, |row: int| rank_text(grid_row(grid, row)))
}

/// The placement string of a board is its eight rank texts with a `/` between
/// each two. Each rank text stands for eight squares, has between one and
/// eight characters and holds no `/`: so the string has seven `/`, which part
/// its eight ranks, and between 15 and 71 characters.
pub proof fn lemma_placement_shape(grid: Seq<Option<char>>)
    requires
        is_grid(grid),
    ensures
        placement(grid) == ranks_of(grid)[0] + seq!['/'] + ranks_of(grid)[1] + seq!['/'] + ranks_of(
            grid,
        )[2] + seq!['/'] + ranks_of(grid)[3] + seq!['/'] + ranks_of(grid)[4] + seq!['/'] + ranks_of(
            grid,
        )[5] + seq!['/'] + ranks_of(grid)[6] + seq!['/'] + ranks_of(grid)[7],
        forall|row: int|
            0 <= row < 8 ==> rank_width(#[trigger] ranks_of(grid)[row]) == 8 && 1 <= ranks_of(
                grid,
            )[row].len() <= 8 && !ranks_of(grid)[row].contains('/'),
        15 <= placement(grid).len() <= 71,
{
    let ranks = ranks_of(grid);
    assert forall|row: int| 0 <= row < 8 implies rank_width(#[trigger] ranks[row]) == 8 && 1
        <= ranks[row].len() <= 8 && !ranks[row].contains('/') by {
        let cells = grid_row(grid, row);
        assert forall|k: int| 0 <= k < cells.len() && (#[trigger] cells[k]) is Some implies is_piece_letter(
            cells[k]->Some_0,
        ) by {
            assert(cells[k] == grid[row * 8 + k]);
        }
        lemma_rank_text(cells);
    }
    assert(placement_upto(grid, 1) == ranks[0]);
    assert(placement_upto(grid, 2) =~= ranks[0] + seq!['/'] + ranks[1]);
    assert(placement_upto(grid, 3) =~= placement_upto(grid, 2) + seq!['/'] + ranks[2]);
    assert(placement_upto(grid, 4) =~= placement_upto(grid, 3) + seq!['/'] + ranks[3]);
    assert(placement_upto(grid, 5) =~= placement_upto(grid, 4) + seq!['/'] + ranks[4]);
    assert(placement_upto(grid, 6) =~= placement_upto(grid, 5) + seq!['/'] + ranks[5]);
    assert(placement_upto(grid, 7) =~= placement_upto(grid, 6) + seq!['/'] + ranks[6]);
    assert(placement_upto(grid, 8) =~= placement_upto(grid, 7) + seq!['/'] + ranks[7]);
    assert(ranks[0].len() >= 1 && ranks[1].len() >= 1 && ranks[2].len() >= 1 && ranks[3].len() >= 1
        && ranks[4].len() >= 1 && ranks[5].len() >= 1 && ranks[6].len() >= 1 && ranks[7].len()
        >= 1);
    assert(ranks[0].len() <= 8 && ranks[1].len() <= 8 && ranks[2].len() <= 8 && ranks[3].len() <= 8
        && ranks[4].len() <= 8 && ranks[5].len() <= 8 && ranks[6].len() <= 8 && ranks[7].len()
        <= 8);
}

/// Every placed piece stands on a square of the board.
pub proof fn lemma_placed_on_board(s: Seq<Detection>, rect: Rect, orientation: Orientation)
    ensures
        on_board(placed(s, rect, orientation)),
    decreases s.len(),
{
    if s.len() > 0 {
        lemma_placed_on_board(s.drop_last(), rect, orientation);
    }
}

/// Leaving out the pieces of unknown class leaves the others on their
/// squares.
pub proof fn lemma_known_on_board(s: Seq<RawPiece>)
    requires
        on_board(s),
    ensures
        on_board(known_pieces(s)),
    decreases s.len(),
{
    if s.len() > 0 {
        assert(on_board(s.drop_last())) by {
            assert forall|k: int| 0 <= k < s.drop_last().len() implies (
            #[trigger] s.drop_last()[k]).row < 8 && s.drop_last()[k].col < 8 by {
                assert(s.drop_last()[k] == s[k]);
            }
        }
        lemma_known_on_board(s.drop_last());
        assert(s[s.len() - 1].row < 8);
    }
}

/// Whatever the detections, the reconstructed board has 64 squares that hold
/// piece letters only: so `lemma_placement_shape` holds of its placement
/// string, with or without the pieces of unknown class.
pub proof fn lemma_position_is_grid(s: Seq<Detection>, orientation: Orientation)
    ensures
        is_grid(position_grid(s, orientation)),
        is_grid(filled(known_pieces(position_pieces(s)))),
{
    lemma_placed_on_board(s, board_rect(s), orientation);
    lemma_placed_on_board(s, board_rect(s), orientation_of(s));
    let a = placed(s, board_rect(s), orientation);
    let b = placed(s, board_rect(s), orientation_of(s));
    lemma_far_king(a);
    lemma_far_king(b);
    assert(on_board(resolved(a)));
    assert(on_board(resolved(b)));
    lemma_known_on_board(resolved(b));
    lemma_filled_is_grid(resolved(a));
    lemma_filled_is_grid(known_pieces(resolved(b)));
}

/// What one recognition pass hands to the analysis: the orientation, the
/// placement string, the board's rectangle, and the FEN for each side to
/// move.
#[derive(Debug, PartialEq, Eq)]
pub struct Position {
    pub orientation: Orientation,
    pub placement: String,
    pub rect: Rect,
    pub white_fen: String,
    pub black_fen: String,
}

/// One recognition pass with its validation: a position only where the
/// detections hold exactly one king of each colour. The position is read in
/// the orientation that the pawns show, and its two FENs pair the one
/// placement with each side to move.
pub fn recognize(detections: &[Detection]) -> (position: Option<Position>)
    ensures
        position is Some <==> kings_valid(detections@),
        position is Some ==> {
            let p = position->Some_0;
            &&& p.orientation == orientation_of(detections@)
            &&& p.placement@ == placement(position_grid(detections@, orientation_of(detections@)))
            &&& p.rect == board_rect(detections@)
            &&& p.rect.wf()
            &&& p.white_fen@ == p.placement@ + fen_tail(true)
            &&& p.black_fen@ == p.placement@ + fen_tail(false)
        },
{
    if !has_one_king_each(detections) {
        return None;
    }
    let (orientation, placement, rect) = reconstruct(detections);
    let white_fen: String = fen_for_side(placement.as_str(), true);
    let black_fen: String = fen_for_side(placement.as_str(), false);
    Some(Position { orientation, placement, rect, white_fen, black_fen })
}

} // verus!
