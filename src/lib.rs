//! Rules and position engine for the board game Tak: squares and stacks,
//! move representation, move generation, move application and exact
//! reversal, connectivity of road pieces and game results, for board sizes
//! 3 to 8.

pub mod bitboard;
pub mod board;
pub mod components;
pub mod error;
pub mod group;
pub mod movement;
pub mod notation;
pub mod parameters;
pub mod piece;
pub mod playtak;
pub mod rules;
pub mod square;
pub mod stack;

pub use bitboard::BitBoard;
pub use board::{AbstractBoard, Board, Mirror};
pub use components::{
    connect_component, connected_components_graph, generate_neighbor_table, lookup_neighbor_table,
};
pub use parameters::{num_policy_features, num_value_features};
pub use group::{GroupData, GroupEdgeConnection};
pub use movement::{Move, Movement, ReverseMove, StackMovement, StackMovementIterator};
pub use piece::{Color, GameResult, Komi, Piece, Role};
pub use square::{squares_iterator, Direction, Square};
pub use stack::{Stack, StackIterator};
