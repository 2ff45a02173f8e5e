pub mod decoder;
pub mod iso2022;

pub use iso2022::{Iso2022Decoder, Iso2022Settings};
