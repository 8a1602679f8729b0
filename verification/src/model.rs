//! The canonical hardware description model: peripherals, registers, bit
//! fields, bit ranges and access modes, together with the two validation
//! strictness levels under which values of the model are built.

use vstd::prelude::*;

verus! {

/// Read/write capability of a bit field. `Unspecified` means the source
/// marked the field reserved or gave no access token; it is a valid value,
/// not an error.
#[derive(Clone, Copy, Debug, PartialEq, Eq, Structural)]
pub enum AccessMode {
    ReadOnly,
    WriteOnly,
    ReadWrite,
    WriteOnce,
    Unspecified,
}

/// The grammar rule at which a malformed document was rejected.
#[derive(Clone, Copy, Debug, PartialEq, Eq, Structural)]
pub enum ParseRule {
    /// The peripheral block (a struct declaration) is missing or unusable.
    Peripheral,
    /// A field row stands outside any register entry.
    Registers,
    /// A register header comment is not of the recognized shape.
    RegisterHeader,
    /// A register's address offset is not a hexadecimal number that fits.
    RegisterOffset,
    /// A field row of a header file is not of the recognized shape.
    FieldRow,
    /// A field's bit width is not a decimal number that fits.
    FieldWidth,
    /// A field's bit position is not a decimal number that fits.
    FieldPosition,
    /// A register table has no title line before its address line.
    Title,
    /// A register's address text is not of a recognized numeric form.
    Address,
    /// A table row has an unrecognized number of cells.
    Row,
    /// A row's bit cell is not a decimal number or pair of them.
    Bits,
}

/// Everything that can go wrong while extracting a peripheral.
#[derive(Clone, Copy, Debug, PartialEq, Eq, Structural)]
pub enum ExtractError {
    /// The source file was missing or unreadable.
    SourceUnavailable,
    /// A header file did not match the header grammar at the named rule.
    MalformedHeader(ParseRule),
    /// A documentation table did not match the table grammar at the named rule.
    MalformedTable(ParseRule),
    /// An access token outside the fixed lookup tables; never guessed.
    UnknownAccessMode,
    /// A continuation row appeared before any field row of its table.
    DanglingContinuationRow,
    /// Strict validation rejected a structurally invalid model value.
    ModelInvalid,
    /// Extension was asked of a peripheral-array variant.
    ArrayPeripheralNotSupported,
}

/// How strictly a model value is validated while it is built: `Weak` accepts
/// incomplete or inconsistent data for later inspection, `Strict` rejects
/// structurally invalid values with `ModelInvalid`.
#[derive(Clone, Copy, Debug, PartialEq, Eq, Structural)]
pub enum ValidateLevel {
    Weak,
    Strict,
}

/// Inclusive most-significant/least-significant bit pair of a field.
#[derive(Clone, Copy, Debug, PartialEq, Eq, Structural)]
pub struct BitRange {
    pub msb: u32,
    pub lsb: u32,
}

impl BitRange {
    /// The model invariant of a bit range: the bounds are ordered.
    pub open spec fn ordered(self) -> bool {
        self.lsb <= self.msb
    }

    pub fn from_msb_lsb(msb: u32, lsb: u32) -> (r: BitRange)
        ensures
            r == (BitRange { msb, lsb }),
    {
        BitRange { msb, lsb }
    }

    /// Number of bits the range covers.
    pub fn width(&self) -> (w: u64)
        requires
            self.ordered(),
        ensures
            w == self.msb - self.lsb + 1,
    {
        (self.msb - self.lsb) as u64 + 1
    }
}

/// A named sub-range of bits within a register.
#[derive(Debug)]
pub struct Field {
    pub name: Vec<u8>,
    pub bits: BitRange,
    pub access: AccessMode,
    pub description: Option<Vec<u8>>,
}

/// Mathematical image of a `Field`.
pub ghost struct FieldView {
    pub name: Seq<u8>,
    pub bits: BitRange,
    pub access: AccessMode,
    pub description: Option<Seq<u8>>,
}

impl View for Field {
    type V = FieldView;

    open spec fn view(&self) -> FieldView {
        FieldView {
            name: self.name@,
            bits: self.bits,
            access: self.access,
            description: match self.description {
                Some(d) => Some(d@),
                None => None,
            },
        }
    }
}

/// An addressable unit within a peripheral: a word at `address_offset` bytes
/// past the peripheral's base address, holding `fields` in an order that is
/// significant and must never be re-sorted.
#[derive(Debug)]
pub struct Register {
    pub name: Vec<u8>,
    pub address_offset: u32,
    pub fields: Vec<Field>,
}

/// Mathematical image of a `Register`.
pub ghost struct RegisterView {
    pub name: Seq<u8>,
    pub address_offset: u32,
    pub fields: Seq<FieldView>,
}

impl View for Register {
    type V = RegisterView;

    open spec fn view(&self) -> RegisterView {
        RegisterView {
            name: self.name@,
            address_offset: self.address_offset,
            fields: self.fields@.map_values(|f: Field| f@),
        }
    }
}

/// A named hardware block at `base_address` with an ordered sequence of
/// registers.
#[derive(Debug)]
pub struct Peripheral {
    pub name: Vec<u8>,
    pub base_address: u64,
    pub registers: Vec<Register>,
}

/// Mathematical image of a `Peripheral`.
pub ghost struct PeripheralView {
    pub name: Seq<u8>,
    pub base_address: u64,
    pub registers: Seq<RegisterView>,
}

impl View for Peripheral {
    type V = PeripheralView;

    open spec fn view(&self) -> PeripheralView {
        PeripheralView {
            name: self.name@,
            base_address: self.base_address,
            registers: self.registers@.map_values(|r: Register| r@),
        }
    }
}

/// Replication of a peripheral into an array of equally spaced instances.
#[derive(Clone, Copy, Debug, PartialEq, Eq, Structural)]
pub struct Dimension {
    /// Number of instances.
    pub dim: u32,
    /// Address increment between two instances, in bytes.
    pub dim_increment: u32,
}

/// A peripheral as it stands in an extraction run: either a single instance
/// or an array of instances. Extension is defined only for `Single`.
pub enum PeripheralEntry {
    Single(Peripheral),
    Array(Peripheral, Dimension),
}

/// Result of a fallible constructor, seen at the level of views.
pub open spec fn ok_view<T: View>(r: Result<T, ExtractError>) -> Result<T::V, ExtractError> {
    match r {
        Ok(t) => Ok(t@),
        Err(e) => Err(e),
    }
}

/// What building a field returns: under `Strict`, contradictory bit
/// positions (`lsb > msb`) are rejected with `ModelInvalid`; under `Weak`
/// the value is preserved as given.
pub open spec fn field_build_spec(
    name: Seq<u8>,
    bits: BitRange,
    access: AccessMode,
    description: Option<Seq<u8>>,
    level: ValidateLevel,
) -> Result<FieldView, ExtractError> {
    if level == ValidateLevel::Strict && !bits.ordered() {
        Err(ExtractError::ModelInvalid)
    } else {
        Ok(FieldView { name, bits, access, description })
    }
}

/// What building a register returns: under `Strict`, a missing (empty) name
/// is rejected with `ModelInvalid`; under `Weak` the value is preserved.
pub open spec fn register_build_spec(
    name: Seq<u8>,
    address_offset: u32,
    fields: Seq<FieldView>,
    level: ValidateLevel,
) -> Result<RegisterView, ExtractError> {
    if level == ValidateLevel::Strict && name.len() == 0 {
        Err(ExtractError::ModelInvalid)
    } else {
        Ok(RegisterView { name, address_offset, fields })
    }
}

/// What building a peripheral returns: under `Strict`, a missing (empty)
/// name is rejected with `ModelInvalid`; under `Weak` the value is preserved.
pub open spec fn peripheral_build_spec(
    name: Seq<u8>,
    base_address: u64,
    registers: Seq<RegisterView>,
    level: ValidateLevel,
) -> Result<PeripheralView, ExtractError> {
    if level == ValidateLevel::Strict && name.len() == 0 {
        Err(ExtractError::ModelInvalid)
    } else {
        Ok(PeripheralView { name, base_address, registers })
    }
}

impl Field {
    /// Build a field under the given validation level.
    pub fn build(
        name: Vec<u8>,
        bits: BitRange,
        access: AccessMode,
        description: Option<Vec<u8>>,
        level: ValidateLevel,
    ) -> (r: Result<Field, ExtractError>)
        ensures
            ok_view(r) == field_build_spec(name@, bits, access, opt_bytes_view(description), level),
    {
        if level == ValidateLevel::Strict && bits.lsb > bits.msb {
            Err(ExtractError::ModelInvalid)
        } else {
            Ok(Field { name, bits, access, description })
        }
    }
}

/// View of an optional byte string.
pub open spec fn opt_bytes_view(d: Option<Vec<u8>>) -> Option<Seq<u8>> {
    match d {
        Some(s) => Some(s@),
        None => None,
    }
}

impl Register {
    /// Build a register under the given validation level.
    pub fn build(
        name: Vec<u8>,
        address_offset: u32,
        fields: Vec<Field>,
        level: ValidateLevel,
    ) -> (r: Result<Register, ExtractError>)
        ensures
            ok_view(r) == register_build_spec(
                name@,
                address_offset,
                fields@.map_values(|f: Field| f@),
                level,
            ),
    {
        if level == ValidateLevel::Strict && name.len() == 0 {
            Err(ExtractError::ModelInvalid)
        } else {
            Ok(Register { name, address_offset, fields })
        }
    }

    /// Whether two bit ranges share at least one bit position.
    pub open spec fn ranges_overlap(a: BitRange, b: BitRange) -> bool {
        max_u32(a.lsb, b.lsb) <= min_u32(a.msb, b.msb)
    }

    /// Whether some two distinct fields of this register overlap. The
    /// parsers do not enforce absence of overlap; this makes a violation
    /// detectable.
    pub open spec fn spec_has_overlapping_fields(self) -> bool {
        exists|i: int, j: int|
            0 <= i < j < self.fields@.len() && Self::ranges_overlap(
                self.fields@[i].bits,
                self.fields@[j].bits,
            )
    }

    /// Report whether some two distinct fields of this register claim a
    /// common bit position.
    pub fn has_overlapping_fields(&self) -> (r: bool)
        ensures
            r == self.spec_has_overlapping_fields(),
    {
        let n = self.fields.len();
        let mut i: usize = 0;
        while i < n
            invariant
                i <= n,
                n == self.fields@.len(),
                forall|x: int, y: int|
                    0 <= x < y < n && x < i ==> !Self::ranges_overlap(
                        #[trigger] self.fields@[x].bits,
                        #[trigger] self.fields@[y].bits,
                    ),
            decreases n - i,
        {
            let a = self.fields[i].bits;
            let mut j: usize = i + 1;
            while j < n
                invariant
                    i < j <= n,
                    n == self.fields@.len(),
                    a == self.fields@[i as int].bits,
                    forall|y: int|
                        i < y < j ==> !Self::ranges_overlap(
                            self.fields@[i as int].bits,
                            #[trigger] self.fields@[y].bits,
                        ),
                decreases n - j,
            {
                let b = self.fields[j].bits;
                let lo = if a.lsb >= b.lsb { a.lsb } else { b.lsb };
                let hi = if a.msb <= b.msb { a.msb } else { b.msb };
                if lo <= hi {
                    assert(Self::ranges_overlap(self.fields@[i as int].bits, self.fields@[j as int].bits));
                    return true;
                }
                j += 1;
            }
            i += 1;
        }
        false
    }
}

pub open spec fn max_u32(a: u32, b: u32) -> u32 {
    if a >= b { a } else { b }
}

pub open spec fn min_u32(a: u32, b: u32) -> u32 {
    if a <= b { a } else { b }
}

impl Peripheral {
    /// Build a peripheral under the given validation level.
    pub fn build(
        name: Vec<u8>,
        base_address: u64,
        registers: Vec<Register>,
        level: ValidateLevel,
    ) -> (r: Result<Peripheral, ExtractError>)
        ensures
            ok_view(r) == peripheral_build_spec(
                name@,
                base_address,
                registers@.map_values(|x: Register| x@),
                level,
            ),
    {
        if level == ValidateLevel::Strict && name.len() == 0 {
            Err(ExtractError::ModelInvalid)
        } else {
            Ok(Peripheral { name, base_address, registers })
        }
    }
}

} // verus!
