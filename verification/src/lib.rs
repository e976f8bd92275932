//! Rule engine of a falling-block puzzle game.
//!
//! The crate owns the board state, the active piece, collision and boundary
//! checks, rotation with offset correction ("kicks"), line completion and
//! clearing, scoring, and fair random piece generation. Rendering and input
//! handling live outside; they drive the engine through [`game::Game::step`]
//! and read it back through [`game::Game::list_squares`].

pub mod constants;
pub mod pieces;
pub mod bag;
pub mod rows;
pub mod game;
