pub mod bi_map;
pub mod parser;
pub mod solver;
pub mod stack;
pub mod technique;
