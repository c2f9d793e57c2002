//! A small static linker: it combines independently compiled objects into one laid-out
//! image. Sections that share a name are merged in object order and placed end to end
//! from a base address, every symbol resolves to an absolute address, and every relocation
//! is patched with its target's address, little-endian, in the requested width.
//!
//! `model` states what a link computes; `laws` proves what holds of every successful link.

mod error;
mod image;
pub mod laws;
mod link;
pub mod model;
mod names;
mod object;
mod table;
mod text;

pub use error::{LinkError, LinkErrorView};
pub use image::{Image, ImageView, OutputSection, OutputSectionView};
pub use link::{link, Linker, LinkerView};
pub use object::{Object, ObjectView, RelocationView, SectionView, SymbolView, Width};
