//! Fixed-width semantic wrappers for the payloads of HID descriptor items.
//!
//! Each wrapper carries a single integer. Logical and physical bounds and the
//! unit exponent are signed (their payloads are sign-extended from the
//! declared item width); everything else is unsigned.

use vstd::prelude::*;

verus! {

/// A HID usage page (the high half of a full usage).
#[derive(Clone, Copy, Debug, PartialEq, Eq, Structural)]
pub struct UsagePage(pub u16);

/// A HID usage id (the low half of a full usage).
#[derive(Clone, Copy, Debug, PartialEq, Eq, Structural)]
pub struct UsageId(pub u16);

/// Lower bound of a local usage range.
#[derive(Clone, Copy, Debug, PartialEq, Eq, Structural)]
pub struct UsageMinimum(pub u32);

/// Upper bound of a local usage range.
#[derive(Clone, Copy, Debug, PartialEq, Eq, Structural)]
pub struct UsageMaximum(pub u32);

/// Smallest logical value a field can take, sign-extended.
#[derive(Clone, Copy, Debug, PartialEq, Eq, Structural)]
pub struct LogicalMinimum(pub i32);

/// Largest logical value a field can take, sign-extended.
#[derive(Clone, Copy, Debug, PartialEq, Eq, Structural)]
pub struct LogicalMaximum(pub i32);

/// Smallest physical value, sign-extended.
#[derive(Clone, Copy, Debug, PartialEq, Eq, Structural)]
pub struct PhysicalMinimum(pub i32);

/// Largest physical value, sign-extended.
#[derive(Clone, Copy, Debug, PartialEq, Eq, Structural)]
pub struct PhysicalMaximum(pub i32);

/// Unit exponent, sign-extended from the declared payload width.
#[derive(Clone, Copy, Debug, PartialEq, Eq, Structural)]
pub struct UnitExponent(pub i32);

/// Unit bitfield: measurement system plus four 4-bit exponents.
#[derive(Clone, Copy, Debug, PartialEq, Eq, Structural)]
pub struct Unit(pub u32);

/// Width of one field in bits.
#[derive(Clone, Copy, Debug, PartialEq, Eq, Structural)]
pub struct ReportSize(pub u32);

/// The one-byte report id prefix, when the descriptor uses report ids.
#[derive(Clone, Copy, Debug, PartialEq, Eq, Structural)]
pub struct ReportId(pub u8);

/// Number of fields a Main item emits.
#[derive(Clone, Copy, Debug, PartialEq, Eq, Structural)]
pub struct ReportCount(pub u32);

/// Designator index local.
#[derive(Clone, Copy, Debug, PartialEq, Eq, Structural)]
pub struct DesignatorIndex(pub u32);

/// Designator minimum local.
#[derive(Clone, Copy, Debug, PartialEq, Eq, Structural)]
pub struct DesignatorMinimum(pub u32);

/// Designator maximum local.
#[derive(Clone, Copy, Debug, PartialEq, Eq, Structural)]
pub struct DesignatorMaximum(pub u32);

/// String index local.
#[derive(Clone, Copy, Debug, PartialEq, Eq, Structural)]
pub struct StringIndex(pub u32);

/// String minimum local.
#[derive(Clone, Copy, Debug, PartialEq, Eq, Structural)]
pub struct StringMinimum(pub u32);

/// String maximum local.
#[derive(Clone, Copy, Debug, PartialEq, Eq, Structural)]
pub struct StringMaximum(pub u32);

/// Delimiter local (opens or closes a set of aliased usages).
#[derive(Clone, Copy, Debug, PartialEq, Eq, Structural)]
pub struct Delimiter(pub u32);

} // verus!
