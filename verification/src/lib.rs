//! Passphrase and password generation with exact entropy accounting.

pub mod bignat;
pub mod text;
pub mod entropy;
pub mod opts;
pub mod random;
pub mod generate;
pub mod args;
