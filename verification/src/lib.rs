//! A maze game core: randomized depth-first carving of a perfect maze on a
//! rectangular grid, a connectivity-relaxation pass that opens extra walls,
//! start/end placement on the border columns, and a one-cell-per-tick player
//! movement state machine with collision and win detection.

pub mod grid;
pub mod maze;
pub mod placement;
pub mod player;
pub mod reach;
pub mod rng;

pub use grid::GridBuffer;
pub use maze::MazeConfig;
pub use maze::middle_point;
pub use player::Direction;
pub use player::Player;
pub use player::display;
pub use placement::start_end_generator;
