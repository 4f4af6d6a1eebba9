//! A verified command-line argument buffer.
//!
//! Raw arguments are tokenized into short flags, long flags and free-standing
//! words. The resulting tokens live in an [`args::Args`] buffer that supports
//! targeted removal of consumed tokens and cheap duplication for speculative
//! parsing. Every operation carries a contract that pins down exactly which
//! token it consumes and how the buffer changes.

pub mod arg;
pub mod args;
pub mod error;
pub mod laws;
pub mod tokenize;
pub mod word;

pub use arg::Arg;
pub use arg::ArgM;
pub use args::Args;
pub use args::ArgsIter;
pub use args::ArgsM;
pub use error::Error;
pub use word::Word;
pub use word::WordM;
