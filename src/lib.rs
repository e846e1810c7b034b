//! Decoder and validator for the RESP wire format (simple strings, errors,
//! integers, bulk strings and arrays), with byte-exact error locations.
//!
//! [`Value::decode`] (and `TryFrom<&str>` for [`Value`]) reads one token and
//! returns the value tree or a located [`Error`]. What each input decodes to
//! is written down in [`grammar`], and the decoder is proved to agree with it.
pub mod error;
pub mod grammar;
pub mod laws;
mod scan;
mod text;
pub mod value;

pub use error::Error;
pub use error::Node;
pub use value::Value;
pub use value::ValueResult;
