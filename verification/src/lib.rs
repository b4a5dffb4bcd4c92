//! Vector-path command library: a parser for a textual path mini-language
//! (move / line / cubic-curve / close commands with coordinate arguments),
//! with derived axis-aligned bounds, origin-centering normalization, and
//! re-emission of the sequence as drawing instructions.
//!
//! Coordinates are fixed-point: one unit of the path language is
//! `1_000_000` micro-units, matching the six-decimal-place precision of
//! the emitted drawing instructions.

pub mod color;
pub mod command;
pub mod emit;
pub mod geom;
pub mod num;
pub mod path;
pub mod size;
pub mod text;

pub use color::Color;
pub use command::{Command, Kind, ParseError};
pub use emit::Instruction;
pub use geom::{Rect, Vec2};
pub use path::CommandSequence;
pub use size::Size;
