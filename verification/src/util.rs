pub mod bits;
pub mod bytes;
pub mod parse;
pub mod text;
