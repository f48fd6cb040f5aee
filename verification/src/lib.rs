//! Reading, changing and writing PDF documents, and taking the images out of them.
//!
//! [`pdf::Pdf`] is a document and [`image::PdfImage`] an image in it. What they
//! hold is described by [`pages::DocumentView`] and [`images::ImageView`], which
//! the contracts of their methods speak of. The files themselves are parsed and
//! written by `pdf_lib_rs`, compressed data is read by `flate2`, and PNG files
//! are written by `png`; the modules [`objects`], [`document`] and [`codec`] hold
//! the functions that call these crates.

pub mod cmyk;
pub mod codec;
pub mod document;
pub mod encode;
pub mod graph;
pub mod image;
pub mod image_laws;
pub mod images;
pub mod info_laws;
pub mod model;
pub mod number_laws;
pub mod objects;
pub mod page_laws;
pub mod pages;
pub mod pdf;
pub mod places;
pub mod text;
pub mod tree;
