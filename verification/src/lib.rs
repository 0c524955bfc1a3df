pub mod pb;
pub mod text;
pub mod envelope;
pub mod pxf;
pub mod cli;
