pub mod effects;
pub mod fifo;
pub mod laws;
pub mod parser;
pub mod utils;
