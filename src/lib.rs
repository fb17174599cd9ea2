//! A verified codec for the EDF+ and BDF+ biosignal container formats.

pub mod annotation;
pub mod decimal;
pub mod edf;
pub mod error;
pub mod header;
pub mod reader;
pub mod record;
pub mod sample;
pub mod scaling;
pub mod seek;

pub use edf::{AnnotationPosition, Edf};
pub use error::EdfError;
pub use sample::Filetype;
