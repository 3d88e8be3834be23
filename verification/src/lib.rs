//! A chess-opening trainer's drill engine.
//!
//! Move sequences are encoded into canonical `-`-joined keys
//! ([`explore`]), an annotated repertoire maps keys to notes and
//! enumerates the recorded continuations one ply deep ([`opening`]),
//! and a practice session walks the book, answering the player and
//! flagging deviations ([`play`]). Moves are opaque tokens: nothing
//! here knows the rules of chess.

pub mod explore;
pub mod opening;
pub mod play;
pub mod text;
