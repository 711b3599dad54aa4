//! Access-log anonymizer: replaces the leading address token of every line.
//!
//! - `search`: bad-character and failure-table substring search, and non-overlapping
//!   replacement.
//! - `addr`: the IPv4 / IPv6 text grammars and the three-way classification of a token.
//! - `line`: the rewrite of one line: trimming, the token, its replacement, clearing
//!   the field after it, and thorough replacement.
//! - `stream`: a whole input split into lines and rewritten line by line.
//! - `config`: replacement strings and switches, input / output settings, the error type.
//! - `laws`: properties of the rewrite proved for all inputs.
use vstd::prelude::*;

pub mod addr;
pub mod config;
pub mod laws;
pub mod line;
pub mod search;
pub mod stream;

pub use config::{Config, IOConfig, IOError};
pub use stream::{replace_remote_address, run_raw};
