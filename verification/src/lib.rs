//! Verified cores of a small systems toolkit: growable and queued storage,
//! a balanced search tree, sorting and searching, ciphers and hex coding,
//! named buffers and block pools, timing statistics, HTTP message handling,
//! pattern search, command-line parsing, and the service rules around them.
//! Every executable function carries a contract checked by Verus; the few
//! places that call outside code (the clock, UTF-8 decoding, the regex
//! engine) are trusted declarations whose doc comments name what they rely
//! on.

pub mod algorithms;
pub mod assoc;
pub mod bst;
pub mod cli;
pub mod clock;
pub mod counter;
pub mod crypto;
pub mod fast_vec;
pub mod graph;
pub mod http;
pub mod memory;
pub mod monitor;
pub mod pipeline;
pub mod pool;
pub mod priority_queue;
pub mod queue;
pub mod search;
pub mod shared;
pub mod strutil;
pub mod web;
