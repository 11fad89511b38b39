//! The register description that is encoded.
use vstd::prelude::*;

verus! {

/// Access rights of a register or field.
#[derive(Clone, Copy, Debug, PartialEq, Eq)]
pub enum Access {
    ReadOnly,
    WriteOnly,
    ReadWrite,
    WriteOnce,
    ReadWriteOnce,
}

/// What a write does to the stored value.
#[derive(Clone, Copy, Debug, PartialEq, Eq)]
pub enum ModifiedWriteValues {
    OneToClear,
    OneToSet,
    OneToToggle,
    ZeroToClear,
    ZeroToSet,
    ZeroToToggle,
    Clear,
    SetAll,
    Modify,
}

/// What a read does to the stored value.
#[derive(Clone, Copy, Debug, PartialEq, Eq)]
pub enum ReadAction {
    Clear,
    SetAll,
    Modify,
    ModifyExternal,
}

/// Which values may be written.
#[derive(Clone, Copy, Debug, PartialEq, Eq)]
pub enum WriteConstraint {
    WriteAsRead(bool),
    UseEnumeratedValues(bool),
    /// Values from `min` to `max`, both included.
    Range(u64, u64),
}

/// Properties shared by the registers of a block.
#[derive(Clone, Copy, Debug, PartialEq, Eq)]
pub struct RegisterProperties {
    pub size: Option<u32>,
    pub access: Option<Access>,
    pub reset_value: Option<u64>,
    pub reset_mask: Option<u64>,
}

/// The dimension of a register array.
#[derive(Clone, Debug, PartialEq, Eq)]
pub struct ArrayInfo {
    pub dim: u32,
    pub dim_increment: u32,
    pub dim_name: Option<String>,
}

/// A set of enumerated values of a field; only its name and whether it
/// derives from another set are encoded here.
#[derive(Clone, Debug, PartialEq, Eq)]
pub struct EnumeratedValues {
    pub name: Option<String>,
    pub derived_from: Option<String>,
}

/// A bit field of a register.
#[derive(Clone, Debug, PartialEq, Eq)]
pub struct Field {
    pub name: String,
    pub description: Option<String>,
    pub bit_offset: u32,
    pub bit_width: u32,
    pub enumerated_values: Vec<EnumeratedValues>,
    pub derived_from: Option<String>,
}

/// The description of one register.
#[derive(Clone, Debug, PartialEq, Eq)]
pub struct RegisterInfo {
    pub name: String,
    pub display_name: Option<String>,
    pub description: Option<String>,
    pub alternate_group: Option<String>,
    pub alternate_register: Option<String>,
    pub address_offset: u32,
    pub properties: RegisterProperties,
    pub modified_write_values: Option<ModifiedWriteValues>,
    pub write_constraint: Option<WriteConstraint>,
    pub read_action: Option<ReadAction>,
    pub fields: Option<Vec<Field>>,
    pub derived_from: Option<String>,
}

/// A single register, or an array of registers sharing one description.
#[derive(Clone, Debug, PartialEq, Eq)]
pub enum Register {
    Single(RegisterInfo),
    Array(RegisterInfo, ArrayInfo),
}

impl Field {
    /// The position of the field's least significant bit.
    pub fn bit_offset(&self) -> (r: u32)
        ensures
            r == self.bit_offset,
    {
        self.bit_offset
    }
}

} // verus!
