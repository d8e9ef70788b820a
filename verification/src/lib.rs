pub mod harness;
pub mod order;
pub mod report;
pub mod streaming;
pub mod suite;
pub mod text;
