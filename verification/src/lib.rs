//! The rules of a filler game: two players take turns placing randomly
//! shaped pieces on a square board. A piece may go where all its cells land
//! on the board, on empty cells or the player's own, and exactly one of
//! them on the player's own.

pub mod board;
pub mod game_state;
pub mod growth;
pub mod piece;
pub mod server;

mod arith;
mod random;
mod text;

pub use board::{Board, BoardInfos, CardinalPoints, CardinalPointsInfos, PlayableCoordinates, Position};
pub use game_state::{play, set_game_state, GameInfos, GameState};
pub use piece::{Piece, PieceInfos};
pub use server::{generate_client_id, route, ClientType, Route};
