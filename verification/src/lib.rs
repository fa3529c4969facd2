pub mod base;
pub mod html;
pub mod memory;
pub mod parser;
pub mod rewritable_units;
pub mod rewriter;
pub mod selectors_vm;
pub mod transform_stream;
