pub mod command;
pub mod laws;
pub mod mycsv;
pub mod render;
pub mod text;
pub mod transforms;
