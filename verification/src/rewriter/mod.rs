pub mod dispatcher_laws;
pub mod dispatcher_model;
pub mod errors;
pub mod handler_vec;
pub mod handlers;
pub mod handlers_dispatcher;
pub mod removed_content_laws;
pub mod resumption_laws;
pub mod run_laws;
pub mod selector_handlers_locator;
pub mod units;
pub mod matching_laws;
pub mod token_laws;
pub mod tag_laws;
pub mod operation_laws;
