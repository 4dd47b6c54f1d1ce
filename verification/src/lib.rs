//! A streaming multi-pattern regular-expression searcher over a bounded ring
//! buffer: bytes enter one at a time, matches are reported as soon as they
//! close, and the matched bytes are recovered from the most recent window of
//! input that the ring still retains.

mod automata;
mod ring;
mod scan;
mod searcher;

pub use searcher::Error;
pub use searcher::Match;
pub use searcher::MatchData;
pub use searcher::RingSearcher;
pub use ring::slice_window;
