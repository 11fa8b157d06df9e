pub mod graphics;
pub mod pretty;
pub mod streamer;
pub mod text;
pub mod tokenizer;

pub use text::{parse_stream, try_parse_stream};
