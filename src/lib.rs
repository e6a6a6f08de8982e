//! A client library for the REPL protocol of language servers: the
//! length-prefixed wire encoding, the framing and classification of exchanges,
//! the operations the client sends, and the resolution of reusable sessions.
//! Every function here is verified; the connection, the command line and the
//! session store live with the program that uses the library.

pub mod wire;
pub mod decode;
pub mod round_trip;
pub mod stream;
pub mod order;
pub mod nrepl;
pub mod resp;
pub mod exchange;
pub mod session;
pub mod ops;
pub mod info;
pub mod cli;
