//! Protocol Buffers wire codec and gRPC call logic over shared byte buffers.

pub mod buf;
pub mod client;
pub mod contact;
pub mod encoding;
pub mod frame;
pub mod google_types;
pub mod helloworld;
pub mod properties;
pub mod prost_build;
pub mod server;
pub mod service;
pub mod status;
pub mod std_text;
pub mod std_time;
pub mod text;
pub mod types;
pub mod utils;
pub mod wire_format;

pub use crate::buf::ByteString;
pub use crate::encoding::{DecodeError, WireType};
pub use crate::service::{MethodDef, ServiceDef};
pub use crate::status::GrpcStatus;
pub use crate::types::{Message, NativeType};
pub use ntex_bytes::{Bytes, BytesMut};
