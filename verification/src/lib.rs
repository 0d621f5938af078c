//! Header discovery for compilation databases.
//!
//! A compilation database lists one compiler invocation per translation
//! unit. This library finds the headers that each translation unit reaches,
//! resolves every directive to a path with the precedence a compiler applies,
//! and produces one synthetic entry per header that carries the invocation of
//! the translation unit it was found from.
//!
//! The library never touches the file system. The traversal is a state
//! machine: a caller performs the requests it hands out (read a file, probe
//! paths, canonicalize a path) and feeds the answers back.
//!
//! - `scan` finds the directives in the text of a file.
//! - `classify` tells system paths from project paths.
//! - `flags` reads the search directories off an invocation.
//! - `interner` gives each directory a small identifier.
//! - `resolve` lists the places where a token is looked up and picks the
//!   first that exists.
//! - `engine` is the traversal itself, step by step, and the synthetic
//!   entries at its end.
//! - `world` describes runs: a file system that answers, and workers that
//!   take turns.
//! - `laws` proves that the set of headers found does not depend on the
//!   number of workers nor on the order of their steps.
//! - `paths`, `maps` and `queue` hold what is taken on trust: path
//!   operations of the standard library, `dashmap` and `crossbeam_deque`.

pub mod text;
pub mod classify;
pub mod scan;
pub mod command;
pub mod flags;
pub mod paths;
pub mod maps;
pub mod queue;
pub mod interner;
pub mod tables;
pub mod resolve;
pub mod engine;
pub mod world;
pub mod laws;
