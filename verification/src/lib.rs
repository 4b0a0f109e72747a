//! A small RESP-style protocol library: an incremental wire codec for a
//! self-describing, length-prefixed value format, a key/value store with
//! string keys and values, and a command dispatcher that maps parsed
//! protocol values to store operations and response values.
//!
//! The wire format works on Unicode scalar values: every length header
//! counts scalars, not encoded bytes. Transport I/O (sockets, buffers of
//! raw bytes, timers) lives outside this crate; the library receives
//! characters and hands characters back.

pub mod decimal;
pub mod dispatch;
pub mod errors;
pub mod laws;
pub mod parser;
pub mod session;
pub mod store;
pub mod value;

pub use decimal::parse_int;
pub use decimal::parse_u64;
pub use dispatch::DispatchOutcome;
pub use dispatch::ExpireAction;
pub use dispatch::del_value;
pub use dispatch::dispatch;
pub use dispatch::dispatch_read;
pub use dispatch::is_read_command;
pub use dispatch::expire_key;
pub use dispatch::expire_value;
pub use dispatch::extract_command;
pub use dispatch::get_value;
pub use dispatch::mget_value;
pub use dispatch::set_value;
pub use dispatch::unpack_bulk_string;
pub use errors::CommandError;
pub use errors::ProtocolError;
pub use parser::parse_array;
pub use parser::parse_bulk_string;
pub use parser::parse_message;
pub use parser::parse_simple_error;
pub use parser::parse_simple_string;
pub use parser::read_until_crlf;
pub use session::SessionBuffer;
pub use session::UserCommand;
pub use store::Store;
pub use value::Value;
