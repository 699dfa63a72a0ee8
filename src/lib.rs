//! A small parser for command-line options.
//!
//! Long options (`--grid`, `--level=4`, `--sort size`), short options and
//! clusters of them (`-l`, `-lG`, `-ssize`, `-L=4`), and the `--` sentinel,
//! after which every token is free. Tokens are raw bytes, so that file names
//! that are not valid text survive untouched.
pub mod arg;
pub mod bytes;
pub mod error;
pub mod matched;
pub mod parser;
pub mod laws;

pub use arg::{Arg, Args, Flag, LongArg, ShortArg, Strictness, TakesValue};
pub use error::{ParseError, ParseFailure};
pub use matched::{Entry, MatchedFlags, Matches};
