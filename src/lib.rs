pub mod walk;
pub mod adjacency;
pub mod validate;
pub mod cycles;

pub use validate::Solution;
