pub mod text_feed;
pub mod token_capture_flags;
pub mod text_decoder;
pub mod text_feed_laws;
pub mod text_resumption_laws;
pub mod text_start_laws;
