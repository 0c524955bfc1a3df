pub mod varint;
pub mod wire;
pub mod codec;
