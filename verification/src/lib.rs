//! Rendering text as large ASCII-art banners with FIGfont fonts.
use vstd::prelude::*;

pub mod archive;
pub mod control;
pub mod figfont;
pub mod flc;
pub mod listing;
pub mod program;
pub mod smusher;
pub mod text;
pub mod wrapper;

pub use control::decoder::EncodingDecoder;
pub use figfont::{
    FIGchar, FIGfont, SMUSH_BIGX, SMUSH_ENABLE, SMUSH_EQUAL, SMUSH_HARDBLANK, SMUSH_HIERARCHY,
    SMUSH_KERN, SMUSH_PAIR, SMUSH_UNDERLINE,
};
pub use flc::{Control, Flc, InputEncoding};
pub use smusher::{LayoutMode, Smusher, SmusherBuilder};
pub use wrapper::{Align, Wrapper};

verus! {

/// Errors produced by figdriver operations: font and control file format errors,
/// integer values that do not parse, invalid code tags, and a full wrapper line.
#[derive(Debug)]
pub enum Error {
    /// Malformed or unsupported font file format.
    FontFormat(&'static str),
    /// A line of the input that is not valid UTF-8 text.
    Io,
    /// An integer value in a font header that does not parse.
    Parse,
    /// Invalid FIGchar code tag value.
    CodeTag(u32),
    /// The wrapper's output line is full and cannot accept more characters.
    LineFull,
    /// Malformed or unsupported control file format.
    ControlFormat(&'static str),
    /// A control file mapping has mismatched range sizes.
    ControlRangeMismatch,
}

} // verus!
