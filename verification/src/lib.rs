pub mod board;
pub mod text;
pub mod movegen;
pub mod perft;
pub mod fen;
pub mod fen_roundtrip;
pub mod san;
pub mod san_roundtrip;
pub mod opening;
pub mod keyed;
pub mod pgn;
pub mod stats;
pub mod export;
pub mod render;
