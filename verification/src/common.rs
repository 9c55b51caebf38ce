pub mod base27;
pub mod lut;
pub mod text;
