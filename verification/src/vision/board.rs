//! The position for the engine: validated, and written as a FEN by the
//! `shakmaty` crate.
use crate::chess_logic::{
    class_id_to_fen, empty_grid, fen_tail, filled, has_one_king_each, kings_valid, known_pieces,
    locate_pieces, on_board, placement, position_pieces, RawPiece,
};
use crate::yolo::Detection;
use vstd::prelude::*;

verus! {

#[verifier::external_type_specification]
#[verifier::external_body]
pub struct ExBoard(shakmaty::Board);

/// What stands on the 64 squares of a `shakmaty::Board`, row by row from the
/// eighth rank to the first and from the a-file to the h-file: the letter of
/// the piece, as `shakmaty::Piece::char` gives it, or nothing.
pub uninterp spec fn board_squares(board: shakmaty::Board) -> Seq<Option<char>>;

/// Whether `letter` is the letter of a white or a black piece.
pub open spec fn is_fen_letter(letter: char) -> bool {
    letter == 'K' || letter == 'Q' || letter == 'R' || letter == 'B' || letter == 'N' || letter
        == 'P' || letter == 'k' || letter == 'q' || letter == 'r' || letter == 'b' || letter == 'n'
        || letter == 'p'
}

/// `shakmaty::Board::empty`: a board on which nothing stands.
#[verifier::external_body]
fn empty_board() -> (board: shakmaty::Board)
    ensures
        board_squares(board) == empty_grid(),
{
    shakmaty::Board::empty()
}

/// `shakmaty::Board::set_piece_at`, on the square that
/// `shakmaty::Square::from_coords` gives for the file and the rank, with the
/// piece that `shakmaty::Piece::from_char` gives for the letter: afterwards
/// that piece stands on that square, replacing what stood there, and every
/// other square is as before. File 0 is the a-file, rank 0 the first rank.
#[verifier::external_body]
fn put_piece(board: &mut shakmaty::Board, file: u32, rank: u32, letter: char)
    requires
        file < 8,
        rank < 8,
        is_fen_letter(letter),
    ensures
        board_squares(*final(board)) == board_squares(*old(board)).update(
            (7 - rank) * 8 + file,
            Some(letter),
        ),
{
    let square = shakmaty::Square::from_coords(shakmaty::File::new(file), shakmaty::Rank::new(rank));
    if let Some(piece) = shakmaty::Piece::from_char(letter) {
        board.set_piece_at(square, piece);
    }
}

/// `shakmaty::fen::Fen::from_setup` and its `to_string`, for a
/// `shakmaty::Setup::empty` that has been given the board and the side to
/// move: the placement of the board, rank by rank with `/` between, then the
/// side to move, `-` for the castling rights, `-` for the en-passant square,
/// and the counters 0 and 1.
#[verifier::external_body]
fn fen_text(board: &shakmaty::Board, white_to_move: bool) -> (fen: String)
    ensures
        fen@ == placement(board_squares(*board)) + fen_tail(white_to_move),
{
    let mut setup = shakmaty::Setup::empty();
    setup.board = board.clone();
    setup.turn = shakmaty::Color::from_white(white_to_move);
    shakmaty::fen::Fen::from_setup(setup).to_string()
}

/// The FEN of the position that `detections` show, for the side given: its
/// pieces of known class on their squares, first the placement and then the
/// rest of the FEN. None unless the detections hold exactly one king of each
/// colour.
pub fn detections_to_fen(detections: &[Detection], show_white_moves: bool) -> (fen: Option<String>)
    ensures
        fen is Some <==> kings_valid(detections@),
        fen is Some ==> fen->Some_0@ == placement(
            filled(known_pieces(position_pieces(detections@))),
        ) + fen_tail(show_white_moves),
{
    if !has_one_king_each(detections) {
        return None;
    }
    let pieces: Vec<RawPiece> = locate_pieces(detections);
    let mut board: shakmaty::Board = empty_board();
    let n: usize = pieces.len();
    let mut i: usize = 0;
    while i < n
        invariant
            n == pieces.len(),
            i <= n,
            on_board(pieces@),
            board_squares(board) == filled(known_pieces(pieces@.take(i as int))),
        decreases n - i,
    {
        proof {
            assert(pieces@.take(i + 1).drop_last() =~= pieces@.take(i as int));
        }
        let piece: RawPiece = pieces[i];
        if 1 <= piece.class_id && piece.class_id <= 12 {
            proof {
                let known = known_pieces(pieces@.take(i + 1));
                assert(known.drop_last() =~= known_pieces(pieces@.take(i as int)));
            }
            put_piece(
                &mut board,
                piece.col as u32,
                (7 - piece.row) as u32,
                class_id_to_fen(piece.class_id),
            );
        }
        i = i + 1;
    }
    proof {
        assert(pieces@.take(n as int) =~= pieces@);
    }
    Some(fen_text(&board, show_white_moves))
}

} // verus!
