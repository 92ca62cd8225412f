//! A minimal PNG encoder for 8-bit RGBA rasters, with its byte layout
//! stated and proved in Verus.

pub mod error;
pub mod chunk;
pub mod scanline;
pub mod header;
pub mod encoder;

pub use error::PngError;
pub use chunk::encode_image_chunk;
pub use scanline::RGBA;
pub use encoder::create_image;
