pub mod codegen;
pub mod runtime;
pub mod semantics;
pub mod token;
