pub mod converter;
pub mod lights;
