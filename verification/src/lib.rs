//! The core of a reverse TCP tunnel, with machine-checked contracts.
//!
//! A server on a public host and a client beside a private service keep a
//! control channel between them. For every user that connects to the
//! server's access port, one data socket that the client has opened to the
//! server carries the user's bytes to the service and back.
//!
//! What is here decides and computes; reading, writing and waiting are left
//! to the program around it.
//!
//! - [`protocol`] and [`stream`]: the control messages, their frames, and the
//!   reading of frames from a buffer that grows read by read.
//! - [`parser`], [`headers`], [`transformer`] and [`rebuild`]: the head of an
//!   HTTP request, read, rewritten and written again.
//! - [`tcp_pool`]: pooled sockets and the bounded pool of the server.
//! - [`server`], [`client`] and [`splice`]: what each side does about what
//!   happens to it.
//! - [`manage`]: a table of connections by id.
//! - [`scan`], [`decimal`], [`text`], [`buffer`] and [`ids`]: delimiters,
//!   numerals, text, byte buffers and identifiers.

pub mod buffer;
pub mod client;
pub mod decimal;
pub mod headers;
pub mod ids;
pub mod manage;
pub mod parser;
pub mod protocol;
pub mod rebuild;
pub mod scan;
pub mod server;
pub mod splice;
pub mod stream;
pub mod tcp_pool;
pub mod text;
pub mod transformer;
