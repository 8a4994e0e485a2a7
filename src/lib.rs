//! Conversion between bytes and text in a positional numeral system of any base from 2 to 256,
//! written with an ordered alphabet of distinct symbols (base 58, base 62, base 10, ...). Both
//! directions work in place in a buffer that the caller supplies and sizes with the estimates of
//! [`util`].
use vstd::prelude::*;

pub mod base;
pub mod base_impl;
pub mod codec;
pub mod digits;
pub mod laws;
pub mod log2;
pub mod model;
pub mod utf_base;
pub mod util;

pub use base::Base;
pub use utf_base::UtfBase;
pub use base_impl::{
    Base10, Base11, Base2, Base36, Base58Btc, Base58Flickr, Base62, Base67, Base8,
};

verus! {

/// Why a decode or an encode failed. After a failure the buffer holds partial state.
#[derive(Debug, Clone, Copy, PartialEq, Eq, Structural)]
pub enum DecodeError {
    /// The buffer is too small; the payload is the least length known to be needed.
    InvalidLength(usize),
    /// A unit that is not in the alphabet.
    InvalidChar,
    /// A unit other than a space after the spaces that close the input.
    CharAfterTrailingSpaces,
}

} // verus!
