pub mod expr;
pub mod nth_child;
pub mod selector;
pub mod expansion;
pub mod expansion_laws;
pub mod dense_hash_set;
pub mod ast;
pub mod ast_laws;
pub mod match_info;
pub mod selector_error;
pub mod tree_laws;
pub mod selector_laws;
pub mod path_laws;
pub mod equality_laws;
