//! Bit-packed boolean grids and a traversal that traces exact straight lines
//! through them, bouncing off their walls and flipping one cell per tick,
//! together with two cellular automata that run on any grid backend.
//!
//! - `grid`: the `Grid` trait that every storage backend implements, and the
//!   wrapping coordinate arithmetic shared by all of them.
//! - `bitgrid`: `BitGrid`, eight cells to a byte.
//! - `pattern`: reading a `BitGrid` from a text pattern.
//! - `bitflipper`: `BitFlipper`, the bouncing traversal, with its tick as a
//!   spec model.
//! - `reversal`: the proof that ticking forward and then backward retraces
//!   the path.
//! - `life`, `elementry`: Conway's Game of Life and elementary automata.

pub mod bitflipper;
pub mod bitgrid;
pub mod elementry;
pub mod grid;
pub mod life;
pub mod pattern;
pub mod reversal;
pub mod vec3;

pub use bitflipper::BitFlipper;
pub use bitgrid::BitGrid;
pub use elementry::Elementry;
pub use grid::{Grid, Index};
pub use life::Life;
pub use vec3::IVec3;

