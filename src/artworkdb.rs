//! Discriminants of the `ArtworkDB` record tree.
use vstd::prelude::*;

verus! {

/// The kind of list that an `mhsd` container of an `ArtworkDB` holds.
#[derive(Clone, Copy, Debug, PartialEq, Eq, Structural)]
pub enum List {
    Images,
    Albums,
    Files,
}

impl List {
    /// The container's list-type value for this kind.
    pub open spec fn id(self) -> u32 {
        match self {
            List::Images => 1,
            List::Albums => 2,
            List::Files => 3,
        }
    }

    /// The list-type value stored in the container's header.
    pub fn as_u32(&self) -> (r: u32)
        ensures
            r == self.id(),
    {
        match self {
            List::Images => 1,
            List::Albums => 2,
            List::Files => 3,
        }
    }

    /// The kind with list-type value `id`, if there is one.
    pub fn from_u32(id: u32) -> (r: Option<List>)
        ensures
            r matches Some(l) ==> l.id() == id,
            r is None <==> !(1 <= id <= 3),
    {
        match id {
            1 => Some(List::Images),
            2 => Some(List::Albums),
            3 => Some(List::Files),
            _ => None,
        }
    }
}

/// The payload of an `ArtworkDB` data object of type `IthmbFileName`: the
/// UTF-16LE name of a thumbnail file behind five words (the third is the
/// name's byte length).
pub struct Utf16IthmbName {
    pub unk_0x10: u32,
    pub unk_0x14: u32,
    pub unk_0x1c: u32,
    pub unk_0x20: u32,
    pub string_data: Vec<u8>,
}

/// The data type of an `mhod` record of an `ArtworkDB`.
#[derive(Clone, Copy, Debug, PartialEq, Eq, Structural)]
pub enum ObjectType {
    /// Holds an `mhni` image-info record.
    ImageMeta,
    /// The UTF-16 name of a thumbnail file.
    IthmbFileName,
    /// Holds an `mhaf` artwork record.
    MhafHolder,
}

impl ObjectType {
    /// The data-type value stored in the record's header.
    pub open spec fn id(self) -> u32 {
        match self {
            ObjectType::ImageMeta => 2,
            ObjectType::IthmbFileName => 3,
            ObjectType::MhafHolder => 6,
        }
    }

    /// The numeric data type that this variant stands for.
    pub fn as_id(&self) -> (r: u32)
        ensures
            r == self.id(),
    {
        match self {
            ObjectType::ImageMeta => 2,
            ObjectType::IthmbFileName => 3,
            ObjectType::MhafHolder => 6,
        }
    }

    /// The data type with value `id`, if there is one.
    pub fn from_id(id: u32) -> (r: Option<ObjectType>)
        ensures
            r matches Some(t) ==> t.id() == id,
            r is None <==> !(id == 2 || id == 3 || id == 6),
    {
        match id {
            2 => Some(ObjectType::ImageMeta),
            3 => Some(ObjectType::IthmbFileName),
            6 => Some(ObjectType::MhafHolder),
            _ => None,
        }
    }
}

} // verus!
