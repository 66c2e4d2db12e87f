//! What the stores share: the text format of their files, the ordered maps
//! that a file is read into, and the two interfaces that tie a store to them.

use crate::utils::file::{FieldSeq, SectionSeq};
use crate::utils::sections::{Fields, Sections};
use vstd::prelude::*;

pub mod clock;
pub mod file;
pub mod prompt;
pub mod sections;
pub mod text;

verus! {

/// A store that is kept in one file: it is built from the sections of the
/// file, gives them back for writing, and takes and drops records by name.
pub trait AWSFileManager<T>: Sized {
    /// Whether a store can be built from these sections.
    spec fn loadable(val: SectionSeq) -> bool;

    /// Whether the store is the one that these sections give.
    spec fn loaded_from(&self, val: SectionSeq) -> bool;

    /// The sections that the store writes.
    spec fn file_sections(&self) -> SectionSeq;

    /// Whether the store holds a record under `name`.
    spec fn holds(&self, name: Seq<char>) -> bool;

    /// The name under which the store keeps `data`.
    spec fn name_of(data: &T) -> Seq<char>;

    fn can_load(val: &Sections) -> (r: bool)
        ensures
            r == Self::loadable(val@),
    ;

    fn new(val: Sections) -> (r: Self)
        requires
            Self::loadable(val@),
        ensures
            r.loaded_from(val@),
    ;

    fn to_file(&self) -> (r: Sections)
        ensures
            r@ == self.file_sections(),
            r.wf(),
    ;

    fn add(&mut self, data: T)
        ensures
            final(self).holds(Self::name_of(&data)),
    ;

    fn remove(&mut self, name: String)
        ensures
            !final(self).holds(name@),
    ;
}

/// A record of a store: it gives the fields that stand in its section.
pub trait AWSFile {
    /// The fields that the record writes.
    spec fn file_fields(&self) -> FieldSeq;

    fn to_file_map(&self) -> (r: Fields)
        ensures
            r@ == self.file_fields(),
            r.wf(),
    ;
}

} // verus!
