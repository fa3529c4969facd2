pub mod local_name;
pub mod local_name_hash;
pub mod local_name_laws;
pub mod namespace;
