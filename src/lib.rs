//! Window registry of a desktop widget host: parses launch arguments, numbers
//! window opens, labels each window uniquely, builds the record that a window
//! receives as JSON, and keeps the records of opened windows by label.

pub mod cli;
pub mod json;
pub mod keyed;
pub mod label;
pub mod window_factory;
