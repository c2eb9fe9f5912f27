//! Types for PCD metadata: scalar kinds, field definitions, schemas, and the
//! parsed header.
//!
//! Floating-point scalars never appear here as native floats: every `F32` or
//! `F64` value in this crate is carried as its IEEE 754 bit pattern in a `u32`
//! or `u64`.  The `ViewPoint` therefore stores seven `f64` bit patterns.

use vstd::prelude::*;

verus! {

/// The enum indicates whether the point cloud data is encoded in ASCII,
/// binary, or compressed binary.
#[derive(Debug, Clone, Copy, PartialEq, Eq, Structural)]
pub enum DataKind {
    Ascii,
    Binary,
    BinaryCompressed,
}

/// The enum specifies one of signed, unsigned integers, and floating point
/// number type to the field.
#[derive(Debug, Clone, Copy, PartialEq, Eq, Structural)]
pub enum TypeKind {
    I,
    U,
    F,
}

/// The enum specifies the exact type for each PCD field.
#[derive(Debug, Clone, Copy, PartialEq, Eq, Structural)]
pub enum ValueKind {
    U8,
    U16,
    U32,
    I8,
    I16,
    I32,
    F32,
    F64,
}

impl ValueKind {
    /// Width in bytes of one scalar of this kind.
    pub open spec fn spec_width(self) -> nat {
        match self {
            ValueKind::U8 => 1,
            ValueKind::U16 => 2,
            ValueKind::U32 => 4,
            ValueKind::I8 => 1,
            ValueKind::I16 => 2,
            ValueKind::I32 => 4,
            ValueKind::F32 => 4,
            ValueKind::F64 => 8,
        }
    }

    /// Byte width of one scalar of this kind.
    pub fn width(&self) -> (r: usize)
        ensures
            r == self.spec_width(),
    {
        match self {
            ValueKind::U8 => 1,
            ValueKind::U16 => 2,
            ValueKind::U32 => 4,
            ValueKind::I8 => 1,
            ValueKind::I16 => 2,
            ValueKind::I32 => 4,
            ValueKind::F32 => 4,
            ValueKind::F64 => 8,
        }
    }

    /// The `TYPE` letter this kind is written under in a header.
    pub open spec fn spec_type_kind(self) -> TypeKind {
        match self {
            ValueKind::U8 => TypeKind::U,
            ValueKind::U16 => TypeKind::U,
            ValueKind::U32 => TypeKind::U,
            ValueKind::I8 => TypeKind::I,
            ValueKind::I16 => TypeKind::I,
            ValueKind::I32 => TypeKind::I,
            ValueKind::F32 => TypeKind::F,
            ValueKind::F64 => TypeKind::F,
        }
    }

    pub fn type_kind(&self) -> (r: TypeKind)
        ensures
            r == self.spec_type_kind(),
    {
        match self {
            ValueKind::U8 => TypeKind::U,
            ValueKind::U16 => TypeKind::U,
            ValueKind::U32 => TypeKind::U,
            ValueKind::I8 => TypeKind::I,
            ValueKind::I16 => TypeKind::I,
            ValueKind::I32 => TypeKind::I,
            ValueKind::F32 => TypeKind::F,
            ValueKind::F64 => TypeKind::F,
        }
    }
}

/// Resolves a `TYPE` letter and a `SIZE` byte width to a scalar kind; exactly
/// the eight supported pairings succeed.
pub open spec fn spec_resolve_kind(t: TypeKind, size: u64) -> Option<ValueKind> {
    match (t, size) {
        (TypeKind::U, 1u64) => Some(ValueKind::U8),
        (TypeKind::U, 2u64) => Some(ValueKind::U16),
        (TypeKind::U, 4u64) => Some(ValueKind::U32),
        (TypeKind::I, 1u64) => Some(ValueKind::I8),
        (TypeKind::I, 2u64) => Some(ValueKind::I16),
        (TypeKind::I, 4u64) => Some(ValueKind::I32),
        (TypeKind::F, 4u64) => Some(ValueKind::F32),
        (TypeKind::F, 8u64) => Some(ValueKind::F64),
        _ => None,
    }
}

/// Resolve a `(TYPE letter, SIZE)` pair to a scalar kind.
pub fn resolve_kind(t: TypeKind, size: u64) -> (r: Option<ValueKind>)
    ensures
        r == spec_resolve_kind(t, size),
{
    match (t, size) {
        (TypeKind::U, 1u64) => Some(ValueKind::U8),
        (TypeKind::U, 2u64) => Some(ValueKind::U16),
        (TypeKind::U, 4u64) => Some(ValueKind::U32),
        (TypeKind::I, 1u64) => Some(ValueKind::I8),
        (TypeKind::I, 2u64) => Some(ValueKind::I16),
        (TypeKind::I, 4u64) => Some(ValueKind::I32),
        (TypeKind::F, 4u64) => Some(ValueKind::F32),
        (TypeKind::F, 8u64) => Some(ValueKind::F64),
        _ => None,
    }
}

/// Define the properties of a PCD field.
#[derive(Debug, Clone, PartialEq, Eq)]
pub struct FieldDef {
    pub name: String,
    pub kind: ValueKind,
    pub count: u64,
}

impl FieldDef {
    /// A field definition is sane when its name is non-empty and it holds at
    /// least one scalar.
    pub open spec fn spec_sane(self) -> bool {
        &&& self.name@.len() > 0
        &&& self.count >= 1
    }
}

/// Total number of scalar tokens of one record under these field definitions.
pub open spec fn total_count(fields: Seq<FieldDef>) -> nat
    decreases fields.len(),
{
    if fields.len() == 0 {
        0
    } else {
        total_count(fields.drop_last()) + fields.last().count as nat
    }
}

/// Size in bytes of one binary-encoded record under these field definitions.
pub open spec fn chunk_size_of(fields: Seq<FieldDef>) -> nat
    decreases fields.len(),
{
    if fields.len() == 0 {
        0
    } else {
        chunk_size_of(fields.drop_last()) + fields.last().count as nat
            * fields.last().kind.spec_width()
    }
}

/// Define the schema of PCD format.
#[derive(Debug, Clone, PartialEq, Eq)]
pub struct Schema {
    pub fields: Vec<FieldDef>,
}

impl Schema {
    /// Field names are pairwise distinct.
    pub open spec fn spec_names_unique(self) -> bool {
        forall|i: int, j: int|
            0 <= i < j < self.fields@.len() ==> self.fields@[i].name@ != self.fields@[j].name@
    }

    /// The writer's sanity condition: every field sane, names unique.
    pub open spec fn spec_sane(self) -> bool {
        &&& forall|i: int| 0 <= i < self.fields@.len() ==> (#[trigger] self.fields@[i]).spec_sane()
        &&& self.spec_names_unique()
    }

    pub fn new(fields: Vec<FieldDef>) -> (r: Schema)
        ensures
            r.fields == fields,
    {
        Schema { fields }
    }

    pub fn is_empty(&self) -> (r: bool)
        ensures
            r == (self.fields@.len() == 0),
    {
        self.fields.is_empty()
    }

    pub fn len(&self) -> (r: usize)
        ensures
            r == self.fields@.len(),
    {
        self.fields.len()
    }

    /// Borrow the ordered field definitions.
    pub fn iter(&self) -> (r: &Vec<FieldDef>)
        ensures
            r == &self.fields,
    {
        &self.fields
    }
}

/// Represents the `VIEWPOINT` line in meta data: a translation and an
/// orientation quaternion, each component the bit pattern of an `f64`.
#[derive(Debug, Clone, Copy, PartialEq, Eq, Structural)]
pub struct ViewPoint {
    pub tx: u64,
    pub ty: u64,
    pub tz: u64,
    pub qw: u64,
    pub qx: u64,
    pub qy: u64,
    pub qz: u64,
}

/// Bit pattern of the `f64` value one.
pub const F64_ONE_BITS: u64 = 0x3FF0_0000_0000_0000;

impl Default for ViewPoint {
    /// Identity pose: zero translation, unit quaternion (`qw` = one).
    fn default() -> (r: Self)
        ensures
            r.tx == 0 && r.ty == 0 && r.tz == 0,
            r.qw == F64_ONE_BITS,
            r.qx == 0 && r.qy == 0 && r.qz == 0,
    {
        ViewPoint { tx: 0, ty: 0, tz: 0, qw: F64_ONE_BITS, qx: 0, qy: 0, qz: 0 }
    }
}

/// The struct keeps meta data of a PCD file.
#[derive(Debug, Clone, PartialEq)]
pub struct PcdMeta {
    pub version: String,
    pub width: u64,
    pub height: u64,
    pub viewpoint: ViewPoint,
    pub num_points: u64,
    pub data: DataKind,
    pub field_defs: Schema,
}

} // verus!
