pub mod ast;
pub mod commit;
pub mod encoding;
pub mod errors;
pub mod group;
pub mod path;
pub mod scalar;
