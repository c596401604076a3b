pub mod commit;
pub mod digest;
pub mod errors;
pub mod history;
pub mod order;
pub mod repo;
pub mod store;
pub mod text;
pub mod tensor;
pub mod time;
