pub mod context;
pub mod parser;
pub mod report;
pub mod rules;
pub mod suppression;
pub mod text;
