//! Chessboard recognition for a screen overlay: decoding of detector output,
//! reconstruction of the board position, the dialogue with a UCI engine, and
//! the geometry of the arrows that show its answer.
//!
//! All coordinates, confidences and thresholds are fixed-point integers,
//! [`yolo::UNIT`] to the whole: the analysed frame is `UNIT` wide and `UNIT`
//! high, and a confidence of `UNIT` is certainty. Nothing here reads the
//! screen, runs the model or talks to a process: the caller does, and hands
//! over plain values.
pub mod chess_logic;
pub mod config;
pub mod engine;
pub mod overlay;
pub mod text;
pub mod vision;
pub mod yolo;
