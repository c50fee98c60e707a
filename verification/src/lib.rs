//! A typing-practice engine: a seeded pseudo-random prompt generator that
//! draws words by frequency, a stopwatch readout, the bookkeeping of typed
//! characters, and the rules that decide how practice sessions are saved.
pub mod decimal;
pub mod prng;
pub mod timing;
pub mod persist;
pub mod text_gen;
pub mod typing;
pub mod rendering;
pub mod prompt_laws;
