pub mod bytes;
pub mod cli;
pub mod commands;
pub mod model;
pub mod output;
pub mod scanner;
pub mod search;
