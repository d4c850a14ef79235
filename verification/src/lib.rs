//! The core of a decoder for baseline JPEG files in JFIF wrapping.
//!
//! [`parsing`] reads the marker segments of a file into headers and finds the
//! entropy-coded span. [`huffman`] holds the reader of single bits and the
//! code trees, [`canonical`] the assignment of codewords that the trees are
//! built from. [`scan`] decodes the span into blocks of coefficients.
//! [`transf`] dequantizes the blocks, groups them into coded units and puts
//! tiles of pixels together into an image.
//!
//! The inverse cosine transform and the conversion of colours work on
//! floating point numbers and are no part of this library.

pub mod canonical;
pub mod huffman;
pub mod parsing;
pub mod scan;
pub mod transf;
