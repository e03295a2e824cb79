//! Single-pass conversions between byte-oriented 8-bit images and packed
//! surface formats: 1-bit bitmaps, 16-bit 5/6/5, 30-bit 10/10/10, and the
//! 96- and 128-bit formats of three and four binary32 samples per pixel.
//!
//! Every conversion is one function that reads its input buffers once and
//! writes its output buffers once, row by row and pixel by pixel. The caller
//! sizes all buffers; the functions say in `requires` what they need of them
//! and in `ensures` what every byte of the output is afterwards.
//!
//! # Buffers
//!
//! An 8-bit image, and each plane of a planar image, is *packed*: its pixels
//! follow each other without gaps. A surface is *strided*: its rows start
//! `stride` bytes apart, and what lies behind the pixels of a row is padding
//! that stays as it was. [`layout`] defines both, with [`layout::scatter`] for
//! what a strided buffer holds once a packed image has been laid out in it
//! and [`layout::gather`] for the packed image that a strided buffer holds.
//!
//! # Byte order
//!
//! Values of 16 and 32 bits lie in the buffers in the [`order::ByteOrder`]
//! that the caller names; [`order::ByteOrder::native`] is that of the machine.
//!
//! # Samples
//!
//! The library holds no floating-point code. It moves binary32 samples as
//! their bit patterns, and the conversions that compute with them take the
//! operations from the caller: see [`sample`].
//!
//! # Formats
//!
//! - [`bitplane`], one bit per pixel: [`bitplane::a1_swap`].
//! - [`rgb16`], 5/6/5 in 16 bits: [`rgb16::pil_rgb_to_cairo_rgb16`].
//! - [`rgb30`], 10/10/10 in 32 bits: [`rgb30::pil_rgb_to_cairo_rgb30`],
//!   [`rgb30::pil_i_to_cairo_rgb30`], [`rgb30::cairo_rgb30_to_pil_bgrx`] and
//!   [`rgb30::cairo_rgb30_to_pil_i`].
//! - [`rgb96f`], three binary32: [`rgb96f::pil_rgb_to_cairo_rgb96f`],
//!   [`rgb96f::pil_f_to_cairo_rgb96f`], [`rgb96f::cairo_rgb96f_to_pil_rgb`]
//!   and [`rgb96f::cairo_rgb96f_to_pil_f`].
//! - [`rgba128f`], four binary32 with the colours multiplied by alpha:
//!   [`rgba128f::pil_rgba_to_cairo_rgba128f`],
//!   [`rgba128f::pil_f_to_cairo_rgba128f`],
//!   [`rgba128f::cairo_rgba128f_to_pil_rgba`] and
//!   [`rgba128f::cairo_rgba128f_to_pil_f`].
//!
//! The names say from what to what: `pil` stands for the byte-oriented images
//! and their modes (`rgb`, `rgba`, `bgrx`, and `i` and `f` for planes of
//! 32-bit integers and of binary32), `cairo` for the surfaces.

pub mod bitplane;
pub mod layout;
pub mod order;
pub mod rgb16;
pub mod rgb30;
pub mod rgb96f;
pub mod rgba128f;
pub mod sample;
pub mod scale;
pub mod word;
