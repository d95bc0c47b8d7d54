use vstd::prelude::*;

use crate::node::{Intrinsic, StructurePath, TypeResolution};

verus! {

/// A value held by a location at run time.
#[derive(Debug)]
pub enum Item {
    Truth(bool),
    Signed8(i8),
    Signed16(i16),
    Signed32(i32),
    Signed64(i64),
    Unsigned8(u8),
    Unsigned16(u16),
    Unsigned32(u32),
    Unsigned64(u64),
    Instance(Instance),
    Uninitialised,
    Unit,
}

impl Item {
    /// The item of an integer type: the integer, truncated to the width of the type.
    pub open spec fn spec_integer(intrinsic: Intrinsic, integer: i128) -> Option<Item> {
        match intrinsic {
            Intrinsic::Signed8 => Some(Item::Signed8(integer as i8)),
            Intrinsic::Signed16 => Some(Item::Signed16(integer as i16)),
            Intrinsic::Signed32 => Some(Item::Signed32(integer as i32)),
            Intrinsic::Signed64 => Some(Item::Signed64(integer as i64)),
            Intrinsic::Unsigned8 => Some(Item::Unsigned8(integer as u8)),
            Intrinsic::Unsigned16 => Some(Item::Unsigned16(integer as u16)),
            Intrinsic::Unsigned32 => Some(Item::Unsigned32(integer as u32)),
            Intrinsic::Unsigned64 => Some(Item::Unsigned64(integer as u64)),
            _ => None,
        }
    }

    /// Builds the item of an integer of an intrinsic integer type;
    /// `None` where the intrinsic is not an integer type.
    pub fn integer(intrinsic: Intrinsic, integer: i128) -> (item: Option<Item>)
        ensures
            item == Item::spec_integer(intrinsic, integer),
    {
        match intrinsic {
            Intrinsic::Signed8 => Some(Item::Signed8(integer as i8)),
            Intrinsic::Signed16 => Some(Item::Signed16(integer as i16)),
            Intrinsic::Signed32 => Some(Item::Signed32(integer as i32)),
            Intrinsic::Signed64 => Some(Item::Signed64(integer as i64)),
            Intrinsic::Unsigned8 => Some(Item::Unsigned8(integer as u8)),
            Intrinsic::Unsigned16 => Some(Item::Unsigned16(integer as u16)),
            Intrinsic::Unsigned32 => Some(Item::Unsigned32(integer as u32)),
            Intrinsic::Unsigned64 => Some(Item::Unsigned64(integer as u64)),
            _ => None,
        }
    }

    /// The intrinsic type of a primitive item.
    pub open spec fn primitive_intrinsic(self) -> Option<Intrinsic> {
        match self {
            Item::Truth(_) => Some(Intrinsic::Truth),
            Item::Signed8(_) => Some(Intrinsic::Signed8),
            Item::Signed16(_) => Some(Intrinsic::Signed16),
            Item::Signed32(_) => Some(Intrinsic::Signed32),
            Item::Signed64(_) => Some(Intrinsic::Signed64),
            Item::Unsigned8(_) => Some(Intrinsic::Unsigned8),
            Item::Unsigned16(_) => Some(Intrinsic::Unsigned16),
            Item::Unsigned32(_) => Some(Intrinsic::Unsigned32),
            Item::Unsigned64(_) => Some(Intrinsic::Unsigned64),
            Item::Unit => Some(Intrinsic::Unit),
            _ => None,
        }
    }

    /// The type of the item: the intrinsic type of a primitive, without type
    /// parameters; the type of an instance; and none for an uninitialised item.
    pub fn type_resolution(&self) -> (resolution: Option<TypeResolution>)
        ensures
            self.primitive_intrinsic() is Some ==> (resolution matches Some(r)
                && r.0 == StructurePath::Intrinsic(self.primitive_intrinsic().unwrap())
                && r.1@.len() == 0),
            self is Instance ==> (resolution matches Some(r)
                && crate::node::same_resolution(r, self->Instance_0.type_resolution)),
            self is Uninitialised ==> resolution is None,
    {
        let intrinsic = match self {
            Item::Truth(_) => Intrinsic::Truth,
            Item::Signed8(_) => Intrinsic::Signed8,
            Item::Signed16(_) => Intrinsic::Signed16,
            Item::Signed32(_) => Intrinsic::Signed32,
            Item::Signed64(_) => Intrinsic::Signed64,
            Item::Unsigned8(_) => Intrinsic::Unsigned8,
            Item::Unsigned16(_) => Intrinsic::Unsigned16,
            Item::Unsigned32(_) => Intrinsic::Unsigned32,
            Item::Unsigned64(_) => Intrinsic::Unsigned64,
            Item::Unit => Intrinsic::Unit,
            Item::Instance(instance) => return Some(instance.type_resolution.duplicate()),
            Item::Uninitialised => return None,
        };
        Some(TypeResolution(intrinsic.structure(), Vec::new()))
    }
}

/// The item that `Item::integer` builds for an intrinsic has that intrinsic
/// as its type: building an integer and asking its type agree.
pub proof fn lemma_integer_type(intrinsic: Intrinsic, integer: i128)
    ensures
        Item::spec_integer(intrinsic, integer) matches Some(item) ==> item.primitive_intrinsic() == Some(intrinsic),
        Item::spec_integer(intrinsic, integer) is None <==> (intrinsic == Intrinsic::Truth
            || intrinsic == Intrinsic::Unit || intrinsic == Intrinsic::Tuple),
{
}

/// A value of a structure type: its fields by name.
#[derive(Debug)]
pub struct Instance {
    pub type_resolution: TypeResolution,
    pub fields: Vec<(String, Item)>,
}

impl Instance {
    pub fn new(type_resolution: TypeResolution) -> (instance: Instance)
        ensures
            instance.type_resolution == type_resolution,
            instance.fields@.len() == 0,
    {
        Instance { type_resolution, fields: Vec::new() }
    }

    /// An empty instance of the tuple type.
    pub fn tuple() -> (instance: Instance)
        ensures
            instance.type_resolution.0 == StructurePath::Intrinsic(Intrinsic::Tuple),
            instance.type_resolution.1@.len() == 0,
            instance.fields@.len() == 0,
    {
        Instance::new(TypeResolution(Intrinsic::Tuple.structure(), Vec::new()))
    }
}

} // verus!
