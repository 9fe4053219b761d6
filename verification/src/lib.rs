//! A verified library for the LAB text file format: a document made of a
//! free-form settings header plus two keyed collections of name/raster
//! entries (labels and ramcells), with a canonical text encoding, a decoder,
//! and merge/difference operators over whole documents.

pub mod text;
pub mod entry;
pub mod doc;
pub mod codec;
pub mod laws;

pub use entry::Entry;
pub use doc::LabFile;
