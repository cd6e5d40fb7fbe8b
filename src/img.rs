pub mod types;
pub mod functions;
