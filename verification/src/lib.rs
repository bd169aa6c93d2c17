//! Conway's Game of Life on a bounded rectangular grid.
//!
//! The library holds the rules of the game and the geometry around them:
//!
//! - [`board`]: the board, the count of live neighbours, the step from one
//!   generation to the next, and the list of what is to be drawn;
//! - [`viewport`]: the fitting of a pattern into a screen, on top of
//!   [`rounding`], which rounds to 24 significant bits;
//! - [`pattern`]: the reading of patterns from text;
//! - [`session`]: how a run starts and what follows each event of a run;
//! - [`config`] and [`point`]: the settings of a run, and a cell's position.
//!
//! It opens no file and touches no terminal. Every function is verified
//! against the contract that it states.

pub mod board;
pub mod config;
pub mod pattern;
pub mod point;
pub mod rounding;
pub mod session;
pub mod viewport;

pub use board::GameBoard;
pub use board::Glyph;
pub use config::Config;
pub use pattern::parse_line;
pub use pattern::parse_pattern;
pub use point::Point;
pub use session::on_event;
pub use session::seed_board;
pub use session::Action;
pub use session::Event;
pub use viewport::center_points_on_screen;
