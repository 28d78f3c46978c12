//! A helper engine for a crossword tile game: a square board of letter
//! tiles, a rack matcher, a placement verifier, a scorer, and a move
//! generator that ranks every legal placement of a dictionary word.

pub mod board;
pub mod computer;
pub mod letter;
