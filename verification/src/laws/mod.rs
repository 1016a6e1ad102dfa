//! What holds of every program.

pub mod constants;
pub mod failures;
pub mod files;
pub mod forms;
pub mod kinds;
pub mod labels;
pub mod lines;
pub mod matching;
pub mod numbers;
pub mod output;
pub mod parts;
pub mod placement;
pub mod reading;
pub mod rules;
pub mod second_pass;
pub mod spans;
pub mod values;
pub mod writing;
