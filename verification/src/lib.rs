pub mod budget;
pub mod cli;
pub mod config;
pub mod exceptions;
pub mod history;
pub mod json;
pub mod order;
pub mod path_laws;
pub mod path_start;
pub mod paths;
pub mod staged_history;
pub mod text;
pub mod text_laws;
pub mod text_map;
