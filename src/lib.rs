//! Load-order and active-plugin management for moddable games.
//!
//! The library keeps an ordered list of plugin entries together with the
//! rules that every order must satisfy: unique names, masters before
//! non-masters, the game's hardcoded plugins always active, and the caps on
//! how many plugins may be active at once. Reading and writing files is left
//! to the caller: the library takes file contents and header facts as plain
//! values and hands back what should be written.
pub mod codec;
pub mod enums;
pub mod names;
pub mod plugin;
pub mod plugins_file;
pub mod settings;
pub mod load_order;
pub mod mutable;
pub mod timestamp_based;
pub mod writable;
