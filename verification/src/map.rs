//! The world grid and the queries and processes that run over it.

pub mod cursor;
pub mod grid;
pub mod path;
pub mod query;
pub mod roads;

pub use crate::map::cursor::Cursor;
pub use crate::map::cursor::CursorError;
pub use crate::map::cursor::Direction;
pub use crate::map::grid::Cell;
pub use crate::map::grid::CellState;
pub use crate::map::grid::EntityRecord;
pub use crate::map::grid::Grid;
pub use crate::map::grid::GridError;
