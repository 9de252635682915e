pub mod attacks;
pub mod bitboard;
pub mod board;
pub mod fen;
pub mod generator;
pub mod piece_move;
pub mod pieces;
pub mod position;
pub mod sliding;
pub mod sq;
pub mod text;
pub mod params;
pub mod eval;
pub mod transposition;
pub mod zobrist_keys;
pub mod search;
pub mod ordering;
pub mod see;
pub mod perft;
pub mod render;
pub mod uci;
pub mod validity;
pub mod session;
pub mod value;
