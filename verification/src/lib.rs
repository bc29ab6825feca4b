//! Ternary scale theory: words, step vectors, guide frames and just intonation.

pub mod helpers;
pub mod words;
pub mod guide;
pub mod primes;
pub mod ji_ratio;
pub mod matrix;
pub mod monzo;
pub mod ji;
pub mod equal;
