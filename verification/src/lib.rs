//! What a mount of a file station says about itself, and which way it reaches the
//! server.
//!
//! - [`logfile`]: a log file that is still there after the machine goes down, with
//!   [`rotation`], which says step by step how a record gets into it, and
//!   [`disk`], what then holds of the files on the disk;
//! - [`logging`]: where each record goes, with [`filter`], which records there are;
//! - [`legs`]: which leg a mount is on, and moving it to a better one;
//! - [`text`] and [`paths`]: what the others need of strings and paths.
//!
//! Nothing here opens a file, calls back or awaits. Each decision is a function
//! from plain values to what is to be done next.

pub mod disk;
pub mod filter;
pub mod legs;
pub mod logfile;
pub mod logging;
pub mod paths;
pub mod rotation;
pub mod text;
