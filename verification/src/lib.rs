//! Exhaustive placement of `n` castles on an `n`-row board, one castle per
//! row and no two castles in one column.
//!
//! [`NCastlesState`] is a partial or complete assignment of columns to rows.
//! [`n_castles_backtrack`] starts a depth-first search, an
//! [`NCastlesSearch`], that hands out the complete assignments one at a
//! time and does no more work than the next one takes.
//!
//! What the code does is stated over a mathematical model:
//!
//! - [`placement`] models a board as the list of the columns used so far and
//!   the set of the free ones, with the two moves of the search and their
//!   laws;
//! - [`permutation`] and [`order`] say when a list of columns is a complete
//!   board and when one board comes before another;
//! - [`enumeration`] defines the list of all complete boards in the order of
//!   the search and proves that it holds `n!` boards, every permutation of
//!   the columns once and none twice;
//! - [`waiting`] describes the boards that a search keeps on its stack.

pub mod enumeration;
pub mod order;
pub mod permutation;
pub mod placement;
pub mod search;
pub mod state;
pub mod waiting;

pub use placement::Placement;
pub use search::{n_castles_backtrack, NCastlesSearch};
pub use state::NCastlesState;
