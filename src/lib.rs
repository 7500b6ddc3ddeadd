pub mod text;
pub mod index;
