//! What the overlay shows: the arrows of the last cycle that succeeded.
use crate::chess_logic::{move_segment, move_to_rect, Orientation, Rect};
use crate::engine::EngineError;
use crate::text::texts_of;
use vstd::prelude::*;

verus! {

/// An arrow: a segment of the analysed frame, and the side whose move it
/// shows.
#[derive(Clone, Copy, Debug, PartialEq, Eq, Structural)]
pub struct Arrow {
    pub x1: i64,
    pub y1: i64,
    pub x2: i64,
    pub y2: i64,
    pub white: bool,
}

/// The arrows for `moves`, the moves of the side `white`: one for each move
/// that `move_segment` gives a segment for, in the order of the moves.
pub open spec fn arrows_of(
    moves: Seq<Seq<char>>,
    rect: Rect,
    orientation: Orientation,
    white: bool,
) -> Seq<Arrow>
    decreases moves.len(),
{
    if moves.len() == 0 {
        Seq::empty()
    } else {
        let before = arrows_of(moves.drop_last(), rect, orientation, white);
        match move_segment(moves.last(), rect, orientation) {
            Some(segment) => before.push(
                Arrow {
                    x1: segment.0 as i64,
                    y1: segment.1 as i64,
                    x2: segment.2 as i64,
                    y2: segment.3 as i64,
                    white,
                },
            ),
            None => before,
        }
    }
}

/// The arrows for the moves that the engine gave for one side.
pub fn arrows_for(moves: &Vec<String>, board_rect: Rect, orientation: Orientation, white: bool) -> (
    arrows: Vec<Arrow>)
    requires
        board_rect.wf(),
    ensures
        arrows@ == arrows_of(texts_of(moves@), board_rect, orientation, white),
{
    let n: usize = moves.len();
    let ghost codes = texts_of(moves@);
    let mut arrows: Vec<Arrow> = Vec::new();
    let mut i: usize = 0;
    while i < n
        invariant
            n == moves.len(),
            i <= n,
            board_rect.wf(),
            codes == texts_of(moves@),
            arrows@ == arrows_of(codes.take(i as int), board_rect, orientation, white),
        decreases n - i,
    {
        proof {
            assert(codes.take(i + 1).drop_last() =~= codes.take(i as int));
            assert(codes.take(i + 1).last() == moves[i as int]@);
        }
        match move_to_rect(moves[i].as_str(), board_rect, orientation) {
            Some((x1, y1, x2, y2)) => {
                arrows.push(Arrow { x1, y1, x2, y2, white });
            },
            None => {},
        }
        i = i + 1;
    }
    proof {
        assert(codes.take(n as int) =~= codes);
    }
    arrows
}

/// Why a cycle has nothing new to show.
#[derive(Clone, Copy, Debug, PartialEq, Eq, Structural)]
pub enum Failure {
    /// No picture of the screen could be taken.
    CaptureUnavailable,
    /// The model could not be run, or its output has the wrong shape.
    Inference,
    /// The detections do not hold exactly one king of each colour.
    Validation,
    /// The engine failed.
    Engine(EngineError),
}

/// What is to be done about a failed cycle, besides skipping it.
#[derive(Clone, Copy, Debug, PartialEq, Eq, Structural)]
pub struct Reaction {
    /// Whether the engine is to be restarted now.
    pub restart_engine: bool,
    /// Whether the failure is to be logged as an error.
    pub log_error: bool,
}

/// The reaction to a failure. A position that is not valid is the ordinary
/// state of things while a piece moves, and no error. An engine whose stream
/// or handshake failed, or that is in no state to be asked, is restarted at
/// once; after a restart that failed, the next cycle tries again.
pub open spec fn reaction(failure: Failure) -> Reaction {
    match failure {
        Failure::CaptureUnavailable => Reaction { restart_engine: false, log_error: true },
        Failure::Inference => Reaction { restart_engine: false, log_error: true },
        Failure::Validation => Reaction { restart_engine: false, log_error: false },
        Failure::Engine(EngineError::RestartFailed) => Reaction {
            restart_engine: false,
            log_error: true,
        },
        Failure::Engine(_) => Reaction { restart_engine: true, log_error: true },
    }
}

pub fn reaction_to(failure: Failure) -> (r: Reaction)
    ensures
        r == reaction(failure),
{
    match failure {
        Failure::CaptureUnavailable => Reaction { restart_engine: false, log_error: true },
        Failure::Inference => Reaction { restart_engine: false, log_error: true },
        Failure::Validation => Reaction { restart_engine: false, log_error: false },
        Failure::Engine(EngineError::RestartFailed) => Reaction {
            restart_engine: false,
            log_error: true,
        },
        Failure::Engine(_) => Reaction { restart_engine: true, log_error: true },
    }
}

/// What the overlay shows after a cycle: the arrows of the cycle where it
/// succeeded, and what it showed before where the cycle failed, whatever the
/// failure.
pub fn next_overlay(previous: Vec<Arrow>, cycle: Result<Vec<Arrow>, Failure>) -> (shown: Vec<Arrow>)
    ensures
        shown@ == (match cycle {
            Ok(arrows) => arrows@,
            Err(_) => previous@,
        }),
{
    match cycle {
        Ok(arrows) => arrows,
        Err(_) => previous,
    }
}

} // verus!
