pub mod attacks;
pub mod bitboard;
pub mod board;
pub mod fen;
pub mod fen_laws;
pub mod game;
pub mod move_laws;
pub mod movegen;
pub mod necessary;
pub mod notation;
pub mod perft;
pub mod pieces;
pub mod rules;
pub mod start;
pub mod uci;
pub mod utils;
pub mod zobrist;

pub use attacks::{generate_bitboard_tables, BitboardTables};
pub use bitboard::{BitIndexIter, BitIter, Bitboard};
pub use board::{Board, BoardMetadata};
pub use fen::Fen;
pub use game::{Game, GameResult};
pub use movegen::MoveSink;
pub use pieces::{CastlingRights, Color, Move, MoveType, PieceType};
