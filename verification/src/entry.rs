//! A single document entry: a name that identifies it within its collection
//! and an opaque raster text value.

use vstd::prelude::*;

verus! {

/// The mathematical value of an entry.
#[verifier::ext_equal]
pub ghost struct EntryV {
    pub name: Seq<char>,
    pub raster: Seq<char>,
}

/// A named value pair. The name is the entry's identity within the
/// collection that holds it; the raster is free-form text and may be empty.
#[derive(Debug, PartialEq)]
pub struct Entry {
    pub name: String,
    pub raster: String,
}

impl View for Entry {
    type V = EntryV;

    open spec fn view(&self) -> EntryV {
        EntryV { name: self.name@, raster: self.raster@ }
    }
}

impl Entry {
    pub fn new(name: String, raster: String) -> (r: Entry)
        ensures
            r@.name == name@,
            r@.raster == raster@,
    {
        Entry { name, raster }
    }

    /// The `(name, raster)` display form of the entry.
    pub fn to_text(&self) -> (r: String)
        ensures
            r@ == "("@ + self@.name + ", "@ + self@.raster + ")"@,
    {
        let mut out: String = String::from_str("(");
        out.append(self.name.as_str());
        out.append(", ");
        out.append(self.raster.as_str());
        out.append(")");
        out
    }
}

} // verus!
