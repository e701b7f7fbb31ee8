pub mod codec;
pub mod command;
pub mod engine;
pub mod req;
pub mod writer;
pub mod segments;
