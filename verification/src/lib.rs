//! A collaborative text editor core: an append-only string, a multi-client piece table with
//! its lock bookkeeping, the text layer that lets several clients edit one document, the
//! binary protocol spoken between server and clients, and the editing client: its key
//! bindings, its buffers and commands, and what it draws.
pub mod append_only_str;
pub mod btep;
pub mod bufread;
pub mod editor;
pub mod encoding;
pub mod iters;
pub mod keys;
pub mod piece;
pub mod screen;
pub mod session;
pub mod text;
pub mod transfer;
pub mod trie;
pub mod table;
pub mod utils;

