pub mod stream_laws;
pub mod transform_stream;
pub mod rewrite_laws;
