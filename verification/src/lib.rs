pub mod cal;
pub mod command;
pub mod trusted;
