pub mod block_allocator;
pub mod engine;
pub mod scheduler;
pub mod sequence;
pub mod tokenizer;
