//! The core of a Go engine for the 9x9 board, with machine-checked
//! contracts.
//!
//! * [`coord_convert`] converts between the coordinate systems and the
//!   labels of the vertices.
//! * [`stone_group`] keeps the liberties of one chain.
//! * [`board`] is the position: legality, eyes, play, capture, scoring, hash
//!   and the input planes of the network. [`board_model`] states what a
//!   position is and what every operation does to it; [`board_proofs`],
//!   [`board_life`], [`board_paths`] and [`board_ko`] prove that the
//!   operations keep a position well-formed.
//! * [`search`] is the bookkeeping of the tree search: the pool of nodes,
//!   the visit counts and the decisions taken on them, stated in
//!   [`search_model`].
//! * [`gtp`] reads command lines and the moves of game records.
//! * [`numpy`] and [`utils`] are small helpers on slices.

pub mod board;
pub mod board_ko;
pub mod board_life;
pub mod board_model;
pub mod board_paths;
pub mod board_proofs;
pub mod constants;
pub mod coord_convert;
pub mod gtp;
pub mod intersection;
pub mod numpy;
pub mod search;
pub mod search_model;
pub mod stone_group;
pub mod utils;
