pub mod bytes;
pub mod decimal;
pub mod encoding;
pub mod spanned;
pub mod utf8;
