//! The text handling and decisions of a YouTube summariser: cleaning and
//! formatting model output, cutting it into Discord messages, checking
//! webhook URLs, building backend command lines and reading their results.
pub mod chars;
pub mod text;
pub mod sentences;
pub mod markdown;
pub mod chunks;
pub mod entries;
pub mod cookies;
pub mod webhook;
pub mod backend;
