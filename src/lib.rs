pub mod types;
pub mod parsing;
pub mod parser;
pub mod render;
pub mod roundtrip;
