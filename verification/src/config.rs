//! The settings that a cycle of the overlay works with.
use vstd::prelude::*;

verus! {

/// The part of the screen that shows the board, in pixels.
#[derive(Clone, Copy, Debug, PartialEq, Eq, Structural)]
pub struct BoardRegion {
    pub x: u32,
    pub y: u32,
    pub width: u32,
    pub height: u32,
}

/// The lesser of `a` and `b`.
pub open spec fn lesser(a: int, b: int) -> int {
    if a <= b {
        a
    } else {
        b
    }
}

/// Where a region that starts at `start` starts in an image of `extent`
/// pixels: at `start`, but no further than at the last pixel.
pub open spec fn clamped_start(start: int, extent: int) -> int {
    lesser(start, if extent >= 1 {
        extent - 1
    } else {
        0
    })
}

/// How long a region of `length` pixels that starts at `start` is in an image
/// of `extent` pixels: `length`, but no more than what is left from its
/// start on.
pub open spec fn clamped_length(start: int, length: int, extent: int) -> int {
    let from = clamped_start(start, extent);
    lesser(length, if extent >= from {
        extent - from
    } else {
        0
    })
}

impl BoardRegion {
    /// The region cut to an image of the given size: none where nothing of it
    /// is left.
    pub open spec fn cut_to(self, image_width: int, image_height: int) -> Option<BoardRegion> {
        let width = clamped_length(self.x as int, self.width as int, image_width);
        let height = clamped_length(self.y as int, self.height as int, image_height);
        if width == 0 || height == 0 {
            None
        } else {
            Some(
                BoardRegion {
                    x: clamped_start(self.x as int, image_width) as u32,
                    y: clamped_start(self.y as int, image_height) as u32,
                    width: width as u32,
                    height: height as u32,
                },
            )
        }
    }

    /// Cuts the region to an image of the given size. What is returned lies
    /// within the image and is not empty.
    pub fn clamp_to(&self, image_width: u32, image_height: u32) -> (cut: Option<BoardRegion>)
        ensures
            cut == self.cut_to(image_width as int, image_height as int),
            cut is Some ==> cut->Some_0.width > 0 && cut->Some_0.height > 0 && cut->Some_0.x
                + cut->Some_0.width <= image_width && cut->Some_0.y + cut->Some_0.height
                <= image_height,
    {
        let last_x: u32 = if image_width >= 1 {
            image_width - 1
        } else {
            0
        };
        let last_y: u32 = if image_height >= 1 {
            image_height - 1
        } else {
            0
        };
        let x: u32 = if self.x <= last_x {
            self.x
        } else {
            last_x
        };
        let y: u32 = if self.y <= last_y {
            self.y
        } else {
            last_y
        };
        let room_w: u32 = if image_width >= x {
            image_width - x
        } else {
            0
        };
        let room_h: u32 = if image_height >= y {
            image_height - y
        } else {
            0
        };
        let width: u32 = if self.width <= room_w {
            self.width
        } else {
            room_w
        };
        let height: u32 = if self.height <= room_h {
            self.height
        } else {
            room_h
        };
        if width == 0 || height == 0 {
            None
        } else {
            Some(BoardRegion { x, y, width, height })
        }
    }
}

/// The settings: where the board is, how the engine searches, and how the
/// detector's output is read. The confidence threshold is in units of
/// `crate::yolo::UNIT`.
#[derive(Clone, Copy, Debug, PartialEq, Eq, Structural)]
pub struct AppConfig {
    pub board_region: Option<BoardRegion>,
    pub stockfish_depth: u32,
    pub stockfish_lines: u32,
    pub stockfish_time_ms: u32,
    pub confidence_threshold: i32,
    pub show_white_moves: bool,
    pub fps: u32,
    pub running: bool,
    pub request_selection: bool,
}

impl Default for AppConfig {
    fn default() -> (config: AppConfig)
        ensures
            config == (AppConfig {
                board_region: None,
                stockfish_depth: 15,
                stockfish_lines: 3,
                stockfish_time_ms: 500,
                confidence_threshold: 500_000,
                show_white_moves: true,
                fps: 3,
                running: false,
                request_selection: false,
            }),
    {
        AppConfig {
            board_region: None,
            stockfish_depth: 15,
            stockfish_lines: 3,
            stockfish_time_ms: 500,
            confidence_threshold: 500_000,
            show_white_moves: true,
            fps: 3,
            running: false,
            request_selection: false,
        }
    }
}

} // verus!
