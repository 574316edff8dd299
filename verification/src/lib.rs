//! Board simulation for a falling-block puzzle game: the falling piece, its
//! movement and rotation against the settled board, locking, row clearing,
//! scoring, and the seven-piece bag randomizer. Rendering and input belong
//! to the surrounding program, which feeds discrete events into these
//! functions and draws the state they return.

pub mod bagging;
pub mod block;
pub mod block_data;
pub mod board;
pub mod rotation;
pub mod tile;
pub mod vector2;
