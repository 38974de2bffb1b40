//! The well-known message types of Protocol Buffers that the library
//! carries with it.

pub mod duration;
pub mod duration_impl;
pub mod timestamp;
pub mod timestamp_impl;
pub mod wrappers;

pub use self::duration::Duration;
pub use self::duration_impl::{NegativeDurationError, OutOfRangeDurationError};
pub use self::timestamp::Timestamp;
pub use self::wrappers::{
    BoolValue, BytesValue, Int32Value, Int64Value, StringValue, UInt32Value, UInt64Value,
};
