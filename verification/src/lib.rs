pub mod cli;
pub mod commands;
pub mod db;
pub mod editor;
pub mod error;
pub mod paths;
pub mod prompt;
pub mod stdin;
pub mod text;
