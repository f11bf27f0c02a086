pub mod app;
pub mod cli;
pub mod editor;
pub mod fib;
pub mod line_ending;
pub mod lines;
pub mod message;
pub mod prompt;
pub mod rope;
pub mod std_calls;
pub mod utf8;
