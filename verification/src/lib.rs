//! An embedded-editor RPC bridge: a verified wire codec for the editor's
//! binary self-describing message format, a lossless bridge between wire
//! values and the host's dynamic values, and the single-threaded protocol
//! state of the transport (request ids, outstanding requests, ordered send
//! queue, per-tick dispatch, key-symbol input).

pub mod err;
pub mod neovim;

pub use err::VimdowError;
pub use neovim::NeovimClient;
