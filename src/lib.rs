pub mod distance;
pub mod engine;
pub mod game;
pub mod lexicon;
pub mod order;
pub mod phonemes;
pub mod rank;
