pub mod lexer;
pub mod reply;
pub mod roll;
pub mod roll_command;
pub mod secrets;
pub mod text;
