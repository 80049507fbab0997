//! Parser for HID report descriptors.
//!
//! A report descriptor is a compact binary stream of *items*. A low-level
//! decoder walks the bytes and yields typed items (Main / Global / Local);
//! a compiler then folds those items over a stacked parser state and
//! materialises, for each direction, the reports a device exchanges and the
//! bit-exact fields inside them.

use vstd::prelude::*;

pub mod hid;
pub mod types;

use crate::hid::MainDataFlags;
use crate::hid::MainItem;
use crate::types::Delimiter;
use crate::types::DesignatorIndex;
use crate::types::DesignatorMaximum;
use crate::types::DesignatorMinimum;
use crate::types::LogicalMaximum;
use crate::types::LogicalMinimum;
use crate::types::PhysicalMaximum;
use crate::types::PhysicalMinimum;
use crate::types::ReportCount;
use crate::types::ReportId;
use crate::types::ReportSize;
use crate::types::StringIndex;
use crate::types::StringMaximum;
use crate::types::StringMinimum;
use crate::types::Unit;
use crate::types::UnitExponent;
use crate::types::UsageId;
use crate::types::UsageMaximum;
use crate::types::UsageMinimum;
use crate::types::UsagePage;

verus! {

/// Which way a report travels between host and device.
#[derive(Clone, Copy, Debug, PartialEq, Eq, Structural)]
pub enum Direction {
    Input,
    Output,
    Feature,
}

/// An inclusive range of bit positions `[start..=end]` inside a report
/// payload, counted from bit 0 (the report-id byte, when present, is not
/// part of the payload).
#[derive(Clone, Copy, Debug, PartialEq, Eq, Structural)]
pub struct BitRange {
    pub start: usize,
    pub end: usize,
}

/// A resolved usage: the (page, id) pair that gives a field its meaning.
#[derive(Clone, Copy, Debug, PartialEq, Eq, Structural)]
pub struct Usage {
    pub usage_page: UsagePage,
    pub usage_id: UsageId,
}

/// Logical bounds of the values a field can carry, after sign extension.
#[derive(Clone, Copy, Debug, PartialEq, Eq, Structural)]
pub struct LogicalRange {
    pub minimum: LogicalMinimum,
    pub maximum: LogicalMaximum,
}

/// Physical bounds a field's logical values map to, after sign extension.
#[derive(Clone, Copy, Debug, PartialEq, Eq, Structural)]
pub struct PhysicalRange {
    pub minimum: PhysicalMinimum,
    pub maximum: PhysicalMaximum,
}

/// One entry of the collection path: the 8-bit collection kind byte.
#[derive(Clone, Copy, Debug, PartialEq, Eq, Structural)]
pub struct Collection(pub u8);

/// A single-usage field of `report_size` bits holding one value.
#[derive(Debug)]
pub struct VariableField {
    pub usage: Usage,
    pub bits: BitRange,
    pub logical_range: LogicalRange,
    pub physical_range: Option<PhysicalRange>,
    pub unit: Option<Unit>,
    pub unit_exponent: Option<UnitExponent>,
    pub collections: Vec<Collection>,
    pub report_id: Option<ReportId>,
    pub direction: Direction,
}

/// An array field: `report_count` slots, each holding the index of one of
/// the candidate usages.
#[derive(Debug)]
pub struct ArrayField {
    pub usages: Vec<Usage>,
    pub bits: BitRange,
    pub logical_range: LogicalRange,
    pub physical_range: Option<PhysicalRange>,
    pub unit: Option<Unit>,
    pub unit_exponent: Option<UnitExponent>,
    pub collections: Vec<Collection>,
    pub report_id: Option<ReportId>,
    pub direction: Direction,
}

/// Padding bits: a constant field carries no usage and no value range.
#[derive(Debug)]
pub struct ConstantField {
    pub bits: BitRange,
    pub report_id: Option<ReportId>,
    pub direction: Direction,
}

/// A field of a report: variable, array, or constant padding.
#[derive(Debug)]
pub enum Field {
    Variable(VariableField),
    Array(ArrayField),
    Constant(ConstantField),
}

impl Field {
    /// The bit range this field occupies inside its report's payload.
    pub fn bits(&self) -> (r: BitRange)
        ensures
            r == self.spec_bits(),
    {
        match self {
            Field::Variable(f) => f.bits,
            Field::Array(f) => f.bits,
            Field::Constant(f) => f.bits,
        }
    }

    /// The report id this field was emitted under, if any.
    pub fn report_id(&self) -> (r: Option<ReportId>)
        ensures
            r == self.spec_report_id(),
    {
        match self {
            Field::Variable(f) => f.report_id,
            Field::Array(f) => f.report_id,
            Field::Constant(f) => f.report_id,
        }
    }

    /// The bit range, as seen by specifications.
    pub open spec fn spec_bits(&self) -> BitRange {
        match self {
            Field::Variable(f) => f.bits,
            Field::Array(f) => f.bits,
            Field::Constant(f) => f.bits,
        }
    }

    /// The report id, as seen by specifications.
    pub open spec fn spec_report_id(&self) -> Option<ReportId> {
        match self {
            Field::Variable(f) => f.report_id,
            Field::Array(f) => f.report_id,
            Field::Constant(f) => f.report_id,
        }
    }

    /// The direction, as seen by specifications.
    pub open spec fn spec_direction(&self) -> Direction {
        match self {
            Field::Variable(f) => f.direction,
            Field::Array(f) => f.direction,
            Field::Constant(f) => f.direction,
        }
    }
}

/// All fields of one report: one `(direction, report id)` group.
#[derive(Debug)]
pub struct Report {
    /// The report ID, if any
    pub id: Option<u8>,
    /// The size of this report's payload in bits
    pub size: usize,
    /// The fields present in this report, in emission order
    pub items: Vec<Field>,
    pub direction: Direction,
}

/// The parsed descriptor: every report the device defines, per direction.
#[derive(Debug)]
pub struct ReportDescriptor {
    pub input_reports: Vec<Report>,
    pub output_reports: Vec<Report>,
    pub feature_reports: Vec<Report>,
}

/// Why a descriptor was rejected. Errors are fatal to the whole parse; no
/// partial descriptor is ever returned.
#[derive(Debug)]
pub enum ParserError {
    /// A semantic violation at a given byte offset.
    InvalidData { offset: u32, data: u32, message: String },
    /// The byte stream is shorter than the current item claims.
    OutOfBounds,
}

/// The all-optional snapshot of the ten global items. Globals persist
/// across Main items and are duplicated/restored by Push/Pop.
#[derive(Clone, Copy, Debug)]
pub struct Globals {
    pub usage_page: Option<UsagePage>,
    pub logical_minimum: Option<LogicalMinimum>,
    pub logical_maximum: Option<LogicalMaximum>,
    pub physical_minimum: Option<PhysicalMinimum>,
    pub physical_maximum: Option<PhysicalMaximum>,
    pub unit_exponent: Option<UnitExponent>,
    pub unit: Option<Unit>,
    pub report_size: Option<ReportSize>,
    pub report_id: Option<ReportId>,
    pub report_count: Option<ReportCount>,
}

impl Globals {
    /// The initial snapshot: nothing set yet.
    pub open spec fn spec_default() -> Globals {
        Globals {
            usage_page: None,
            logical_minimum: None,
            logical_maximum: None,
            physical_minimum: None,
            physical_maximum: None,
            unit_exponent: None,
            unit: None,
            report_size: None,
            report_id: None,
            report_count: None,
        }
    }
}

impl Default for Globals {
    fn default() -> (r: Globals)
        ensures
            r == Globals::spec_default(),
    {
        Globals {
            usage_page: None,
            logical_minimum: None,
            logical_maximum: None,
            physical_minimum: None,
            physical_maximum: None,
            unit_exponent: None,
            unit: None,
            report_size: None,
            report_id: None,
            report_count: None,
        }
    }
}

/// A usage gathered from a Local Usage item: the page is only present when
/// the item embedded it in a four-byte payload.
#[derive(Clone, Copy, Debug)]
pub struct LocalUsage {
    pub usage_page: Option<UsagePage>,
    pub usage_id: UsageId,
}

/// The snapshot of the local items; applies to the next Main item only
/// and is reset after every Main item. Usage items queue up in order: a
/// Main item consumes the whole queue.
#[derive(Debug)]
pub struct Locals {
    pub usages: Vec<LocalUsage>,
    pub usage_minimum: Option<UsageMinimum>,
    pub usage_maximum: Option<UsageMaximum>,
    pub designator_index: Option<DesignatorIndex>,
    pub designator_minimum: Option<DesignatorMinimum>,
    pub designator_maximum: Option<DesignatorMaximum>,
    pub string_index: Option<StringIndex>,
    pub string_minimum: Option<StringMinimum>,
    pub string_maximum: Option<StringMaximum>,
    pub delimiter: Option<Delimiter>,
}

impl Locals {
    /// The empty snapshot: nothing pending for the next Main item.
    pub open spec fn is_default(self) -> bool {
        &&& self.usages@.len() == 0
        &&& self.usage_minimum is None
        &&& self.usage_maximum is None
        &&& self.designator_index is None
        &&& self.designator_minimum is None
        &&& self.designator_maximum is None
        &&& self.string_index is None
        &&& self.string_minimum is None
        &&& self.string_maximum is None
        &&& self.delimiter is None
    }
}

impl Default for Locals {
    fn default() -> (r: Locals)
        ensures
            r.is_default(),
    {
        Locals {
            usages: Vec::new(),
            usage_minimum: None,
            usage_maximum: None,
            designator_index: None,
            designator_minimum: None,
            designator_maximum: None,
            string_index: None,
            string_minimum: None,
            string_maximum: None,
            delimiter: None,
        }
    }
}

/// The stacked parser state: a never-empty stack of global snapshots, the
/// current locals snapshot, and the path of open collections.
#[derive(Debug)]
pub struct Stack {
    pub globals: Vec<Globals>,
    pub locals: Locals,
    pub collections: Vec<Collection>,
}

impl Stack {
    /// The globals stack is never empty.
    pub open spec fn inv(&self) -> bool {
        self.globals@.len() >= 1
    }

    /// A fresh state: one default globals snapshot, empty locals, no open
    /// collection.
    pub fn new() -> (s: Stack)
        ensures
            s.inv(),
            s.globals@ =~= seq![Globals::spec_default()],
            s.locals.is_default(),
            s.collections@ =~= Seq::<Collection>::empty(),
    {
        Stack { globals: vec![Globals::default()], locals: Locals::default(), collections: Vec::new() }
    }

    /// Duplicate the top globals snapshot (Global Push item).
    pub fn push(&mut self)
        requires
            old(self).inv(),
        ensures
            final(self).inv(),
            final(self).globals@ == old(self).globals@.push(old(self).globals@.last()),
            final(self).locals == old(self).locals,
            final(self).collections == old(self).collections,
    {
        let top = self.globals[self.globals.len() - 1];
        self.globals.push(top);
    }

    /// Drop the top globals snapshot (Global Pop item). Fails, changing
    /// nothing, when only the initial snapshot is left.
    pub fn pop(&mut self) -> (ok: bool)
        requires
            old(self).inv(),
        ensures
            final(self).inv(),
            ok == (old(self).globals@.len() > 1),
            ok ==> final(self).globals@ == old(self).globals@.drop_last(),
            !ok ==> *final(self) == *old(self),
            final(self).locals == old(self).locals,
            final(self).collections == old(self).collections,
    {
        if self.globals.len() > 1 {
            self.globals.pop();
            true
        } else {
            false
        }
    }

    /// Clear the locals snapshot; done after every Main item.
    pub fn reset_locals(&mut self)
        ensures
            final(self).locals.is_default(),
            final(self).globals == old(self).globals,
            final(self).collections == old(self).collections,
    {
        self.locals = Locals::default();
    }

    /// Mutable access to the top globals snapshot.
    pub fn globals(&mut self) -> (g: &mut Globals)
        requires
            old(self).inv(),
        ensures
            *g == old(self).globals@.last(),
            final(self).globals@ == old(self).globals@.update(
                old(self).globals@.len() - 1,
                *final(g),
            ),
            final(self).locals == old(self).locals,
            final(self).collections == old(self).collections,
            final(self).inv(),
    {
        let i = self.globals.len() - 1;
        &mut self.globals[i]
    }

    /// Mutable access to the locals snapshot.
    pub fn locals(&mut self) -> (l: &mut Locals)
        ensures
            *l == old(self).locals,
            final(self).locals == *final(l),
            final(self).globals == old(self).globals,
            final(self).collections == old(self).collections,
    {
        &mut self.locals
    }

    /// Read-only view of the top globals snapshot.
    pub fn globals_const(&self) -> (g: &Globals)
        requires
            self.inv(),
        ensures
            *g == self.globals@.last(),
    {
        let i = self.globals.len() - 1;
        &self.globals[i]
    }

    /// Read-only view of the locals snapshot.
    pub fn locals_const(&self) -> (l: &Locals)
        ensures
            *l == self.locals,
    {
        &self.locals
    }
}

/// Number of bit-offset buckets: one per direction for the id-less report
/// and one per direction for each of the 256 representable report ids.
pub const BUCKET_COUNT: usize = 771;

/// Order of a direction inside the bucket table.
pub open spec fn dir_num(d: Direction) -> int {
    match d {
        Direction::Input => 0,
        Direction::Output => 1,
        Direction::Feature => 2,
    }
}

/// Order of an optional report id inside one direction's buckets.
pub open spec fn id_num(id: Option<ReportId>) -> int {
    match id {
        None => 0,
        Some(r) => 1 + r.0,
    }
}

/// Where the `(direction, report id)` bucket lives in the table.
pub open spec fn bucket_index(d: Direction, id: Option<ReportId>) -> int {
    dir_num(d) * 257 + id_num(id)
}

/// The running bit offset of every `(direction, report id)` bucket. Each
/// bucket starts at zero and advances as its fields are emitted.
#[derive(Debug)]
pub struct Offsets {
    pub table: Vec<usize>,
}

impl Offsets {
    /// The table always holds every bucket.
    pub open spec fn inv(&self) -> bool {
        self.table@.len() == BUCKET_COUNT
    }

    /// The current bit offset of one bucket.
    pub open spec fn lookup(&self, d: Direction, id: Option<ReportId>) -> nat {
        self.table@[bucket_index(d, id)] as nat
    }

    /// All buckets start at bit offset zero.
    pub fn new() -> (o: Offsets)
        ensures
            o.inv(),
            forall|d: Direction, id: Option<ReportId>| #[trigger] o.lookup(d, id) == 0,
    {
        let mut table: Vec<usize> = Vec::new();
        let mut i: usize = 0;
        while i < BUCKET_COUNT
            invariant
                i == table@.len(),
                i <= BUCKET_COUNT,
                forall|j: int| 0 <= j < i ==> table@[j] == 0,
            decreases BUCKET_COUNT - i,
        {
            table.push(0);
            i = i + 1;
        }
        Offsets { table }
    }

    /// Read the current offset of one bucket.
    pub fn current(&self, d: Direction, id: Option<ReportId>) -> (r: usize)
        requires
            self.inv(),
        ensures
            r as nat == self.lookup(d, id),
    {
        let idx = bucket_idx(d, id);
        self.table[idx]
    }

    /// Hand out the current offset of the bucket and advance it by `nbits`;
    /// fails, changing nothing, when the offset would not fit.
    pub fn advance(&mut self, d: Direction, id: Option<ReportId>, nbits: usize) -> (r: Option<
        usize,
    >)
        requires
            old(self).inv(),
        ensures
            final(self).inv(),
            match r {
                Some(start) => {
                    &&& start as nat == old(self).lookup(d, id)
                    &&& start + nbits <= usize::MAX
                    &&& final(self).lookup(d, id) == start + nbits
                    &&& forall|d2: Direction, id2: Option<ReportId>|
                        !(d2 == d && id2 == id) ==> #[trigger] final(self).lookup(d2, id2) == old(
                            self,
                        ).lookup(d2, id2)
                },
                None => {
                    &&& old(self).lookup(d, id) + nbits > usize::MAX
                    &&& *final(self) == *old(self)
                },
            },
    {
        let idx = bucket_idx(d, id);
        let cur = self.table[idx];
        match cur.checked_add(nbits) {
            Some(nv) => {
                self.table[idx] = nv;
                proof {
                    assert forall|d2: Direction, id2: Option<ReportId>|
                        !(d2 == d && id2 == id) implies #[trigger] final(self).lookup(d2, id2)
                        == old(self).lookup(d2, id2) by {
                        assert(bucket_index(d2, id2) != bucket_index(d, id));
                    }
                }
                Some(cur)
            },
            None => None,
        }
    }
}

/// The usages the next data field will resolve to, or `None` when locals
/// and globals together do not determine any.
///
/// A UsageMinimum/UsageMaximum pair expands to one usage per id in the
/// range (empty when the bounds cross), all on the global usage page;
/// otherwise the single pending Usage local is taken, with its embedded
/// page when it carried one and the global page when not.
pub open spec fn spec_compile_usages(g: Globals, l: Locals) -> Option<Seq<Usage>> {
    match l.usage_minimum {
        Some(mn) => match (l.usage_maximum, g.usage_page) {
            (Some(mx), Some(up)) => Some(
                Seq::new(
                    if mx.0 >= mn.0 {
                        (mx.0 - mn.0 + 1) as nat
                    } else {
                        0 as nat
                    },
                    |i: int|
                        Usage {
                            usage_page: up,
                            usage_id: UsageId(((mn.0 + i) % 0x1_0000) as u16),
                        },
                ),
            ),
            _ => None,
        },
        None => {
            if l.usages@.len() == 0 {
                None
            } else if !usages_resolvable(g, l) {
                None
            } else {
                Some(Seq::new(l.usages@.len(), |i: int| resolve_usage(g, l.usages@[i])))
            }
        },
    }
}

/// Every queued usage either embeds its page or can take the global one.
pub open spec fn usages_resolvable(g: Globals, l: Locals) -> bool {
    forall|i: int|
        0 <= i < l.usages@.len() ==> ((#[trigger] l.usages@[i]).usage_page is Some
            || g.usage_page is Some)
}

/// The full usage a queued local usage resolves to.
pub open spec fn resolve_usage(g: Globals, lu: LocalUsage) -> Usage {
    Usage {
        usage_page: match lu.usage_page {
            Some(up) => up,
            None => g.usage_page.unwrap(),
        },
        usage_id: lu.usage_id,
    }
}

/// Resolve the usages for the next data field from the current state.
/// `None` stands for a descriptor that emits a data field without having
/// supplied a usable usage (or usage page), which the caller rejects.
pub fn compile_usages(globals: &Globals, locals: &Locals) -> (r: Option<Vec<Usage>>)
    ensures
        match r {
            Some(v) => spec_compile_usages(*globals, *locals) == Some(v@),
            None => spec_compile_usages(*globals, *locals) is None,
        },
{
    match locals.usage_minimum {
        Some(mn) => match (locals.usage_maximum, globals.usage_page) {
            (Some(mx), Some(up)) => {
                let mut v: Vec<Usage> = Vec::new();
                if mx.0 >= mn.0 {
                    let n: u64 = (mx.0 - mn.0) as u64 + 1;
                    let mut k: u64 = 0;
                    while k < n
                        invariant
                            n == mx.0 - mn.0 + 1,
                            mx.0 >= mn.0,
                            k <= n,
                            v@.len() == k,
                            forall|j: int|
                                0 <= j < k ==> #[trigger] v@[j] == (Usage {
                                    usage_page: up,
                                    usage_id: UsageId(((mn.0 + j) % 0x1_0000) as u16),
                                }),
                        decreases n - k,
                    {
                        let id = ((mn.0 as u64 + k) % 0x1_0000) as u16;
                        v.push(Usage { usage_page: up, usage_id: UsageId(id) });
                        k = k + 1;
                    }
                }
                proof {
                    assert(spec_compile_usages(*globals, *locals) matches Some(s) && s =~= v@);
                }
                Some(v)
            },
            _ => None,
        },
        None => {
            if locals.usages.len() == 0 {
                return None;
            }
            let mut v: Vec<Usage> = Vec::new();
            let mut i: usize = 0;
            while i < locals.usages.len()
                invariant
                    i <= locals.usages@.len(),
                    locals.usages@.len() > 0,
                    v@.len() == i,
                    forall|j: int|
                        0 <= j < i ==> ((#[trigger] locals.usages@[j]).usage_page is Some
                            || globals.usage_page is Some),
                    forall|j: int|
                        0 <= j < i ==> #[trigger] v@[j] == resolve_usage(
                            *globals,
                            locals.usages@[j],
                        ),
                decreases locals.usages@.len() - i,
            {
                let lu = locals.usages[i];
                let page = match lu.usage_page {
                    Some(up) => up,
                    None => match globals.usage_page {
                        Some(up) => up,
                        None => {
                            proof {
                                assert(!((locals.usages@[i as int]).usage_page is Some
                                    || globals.usage_page is Some));
                            }
                            return None;
                        },
                    },
                };
                v.push(Usage { usage_page: page, usage_id: lu.usage_id });
                i = i + 1;
            }
            proof {
                assert(usages_resolvable(*globals, *locals));
                assert(spec_compile_usages(*globals, *locals) matches Some(s) && s =~= v@);
            }
            Some(v)
        },
    }
}

/// Does `r` report invalid data at byte offset `offset`?
pub open spec fn is_invalid_at(r: Result<Vec<Field>, ParserError>, offset: u32) -> bool {
    match r {
        Err(ParserError::InvalidData { offset: o, .. }) => o == offset,
        _ => false,
    }
}

/// One bucket advanced by `nbits`, every other bucket untouched.
pub open spec fn offsets_advanced(
    o0: Offsets,
    o1: Offsets,
    d: Direction,
    id: Option<ReportId>,
    nbits: nat,
) -> bool {
    &&& o1.inv()
    &&& o1.lookup(d, id) == o0.lookup(d, id) + nbits
    &&& forall|d2: Direction, id2: Option<ReportId>|
        !(d2 == d && id2 == id) ==> #[trigger] o1.lookup(d2, id2) == o0.lookup(d2, id2)
}

/// Is this a Main item that emits data fields?
pub open spec fn is_data_main(item: MainItem) -> bool {
    match item {
        MainItem::Input(_) => true,
        MainItem::Output(_) => true,
        MainItem::Feature(_) => true,
        _ => false,
    }
}

/// The flag payload of a data Main item.
pub open spec fn main_flags(item: MainItem) -> MainDataFlags
    recommends
        is_data_main(item),
{
    match item {
        MainItem::Input(f) => f,
        MainItem::Output(f) => f,
        MainItem::Feature(f) => f,
        _ => MainDataFlags {
            is_constant: false,
            is_variable: false,
            is_relative: false,
            wraps: false,
            non_linear: false,
            no_preferred_state: false,
            has_null_state: false,
            is_volatile: false,
            is_buffered_bytes: false,
        },
    }
}

/// The direction a data Main item emits into.
pub open spec fn main_direction(item: MainItem) -> Direction
    recommends
        is_data_main(item),
{
    match item {
        MainItem::Output(_) => Direction::Output,
        MainItem::Feature(_) => Direction::Feature,
        _ => Direction::Input,
    }
}

/// Everything `handle_main_item` promises: which error comes on which
/// state, and, on success, every attribute of every emitted field together
/// with the exact bucket advance.
pub open spec fn main_item_post(
    item: MainItem,
    stack: Stack,
    off_old: Offsets,
    off_new: Offsets,
    offset: u32,
    r: Result<Vec<Field>, ParserError>,
) -> bool {
    let g = stack.globals@.last();
    let l = stack.locals;
    let flags = main_flags(item);
    let d = main_direction(item);
    let id = g.report_id;
    if g.report_size is None || g.report_size == Some(ReportSize(0)) || g.report_count is None {
        &&& is_invalid_at(r, offset)
        &&& off_new == off_old
    } else {
        let size = g.report_size.unwrap().0 as nat;
        let count = g.report_count.unwrap().0 as nat;
        let nbits = size * count;
        let start = off_old.lookup(d, id);
        if flags.is_constant {
            if count == 0 {
                &&& r matches Ok(v) && v@.len() == 0
                &&& off_new == off_old
            } else if start + nbits > usize::MAX {
                &&& is_invalid_at(r, offset)
                &&& off_new == off_old
            } else {
                &&& r matches Ok(v) && v@ == seq![
                    Field::Constant(
                        ConstantField {
                            bits: BitRange {
                                start: start as usize,
                                end: (start + nbits - 1) as usize,
                            },
                            report_id: id,
                            direction: d,
                        },
                    ),
                ]
                &&& offsets_advanced(off_old, off_new, d, id, nbits)
            }
        } else {
            if g.logical_minimum is None || g.logical_maximum is None {
                &&& is_invalid_at(r, offset)
                &&& off_new == off_old
            } else if g.logical_minimum.unwrap().0 > g.logical_maximum.unwrap().0 {
                &&& is_invalid_at(r, offset)
                &&& off_new == off_old
            } else if g.physical_minimum is Some && g.physical_maximum is Some
                && g.physical_minimum.unwrap().0 > g.physical_maximum.unwrap().0 {
                &&& is_invalid_at(r, offset)
                &&& off_new == off_old
            } else if spec_compile_usages(g, l) is None {
                &&& is_invalid_at(r, offset)
                &&& off_new == off_old
            } else if count == 0 {
                &&& r matches Ok(v) && v@.len() == 0
                &&& off_new == off_old
            } else if flags.is_variable && spec_compile_usages(g, l).unwrap().len() == 0 {
                &&& is_invalid_at(r, offset)
                &&& off_new == off_old
            } else if start + nbits > usize::MAX {
                &&& is_invalid_at(r, offset)
                &&& off_new == off_old
            } else {
                let us = spec_compile_usages(g, l).unwrap();
                let lr = LogicalRange {
                    minimum: g.logical_minimum.unwrap(),
                    maximum: g.logical_maximum.unwrap(),
                };
                let pr = if g.physical_minimum is Some && g.physical_maximum is Some {
                    Some(
                        PhysicalRange {
                            minimum: g.physical_minimum.unwrap(),
                            maximum: g.physical_maximum.unwrap(),
                        },
                    )
                } else {
                    None
                };
                if flags.is_variable {
                    &&& r matches Ok(v) && v@.len() == count && (forall|k: int|
                        0 <= k < count ==> ((#[trigger] v@[k]) matches Field::Variable(f) && {
                            &&& f.usage == (if k < us.len() {
                                us[k]
                            } else {
                                us.last()
                            })
                            &&& f.bits == (BitRange {
                                start: (start + k * size) as usize,
                                end: (start + (k + 1) * size - 1) as usize,
                            })
                            &&& f.logical_range == lr
                            &&& f.physical_range == pr
                            &&& f.unit == g.unit
                            &&& f.unit_exponent == g.unit_exponent
                            &&& f.collections@ == stack.collections@
                            &&& f.report_id == id
                            &&& f.direction == d
                        }))
                    &&& offsets_advanced(off_old, off_new, d, id, nbits)
                } else {
                    &&& r matches Ok(v) && v@.len() == 1 && (v@[0] matches Field::Array(a) && {
                        &&& a.usages@ == us
                        &&& a.bits == (BitRange {
                            start: start as usize,
                            end: (start + nbits - 1) as usize,
                        })
                        &&& a.logical_range == lr
                        &&& a.physical_range == pr
                        &&& a.unit == g.unit
                        &&& a.unit_exponent == g.unit_exponent
                        &&& a.collections@ == stack.collections@
                        &&& a.report_id == id
                        &&& a.direction == d
                    })
                    &&& offsets_advanced(off_old, off_new, d, id, nbits)
                }
            }
        }
    }
}

/// A collection boundary discards pending usages: a non-constant data
/// Main item compiled against a default locals snapshot — the state right
/// after any Main item, Collection and EndCollection included — has no
/// usage to resolve and is always rejected.
pub proof fn lemma_default_locals_reject_data_main(
    item: MainItem,
    stack: Stack,
    off_old: Offsets,
    off_new: Offsets,
    offset: u32,
    r: Result<Vec<Field>, ParserError>,
)
    requires
        is_data_main(item),
        !main_flags(item).is_constant,
        stack.locals.is_default(),
        main_item_post(item, stack, off_old, off_new, offset, r),
    ensures
        is_invalid_at(r, offset),
        off_new == off_old,
{
    let g = stack.globals@.last();
    assert(spec_compile_usages(g, stack.locals) is None);
}

/// Build the invalid-data error for a given byte offset.
fn invalid(offset: u32, data: u32, message: &str) -> (e: ParserError)
    ensures
        e matches ParserError::InvalidData { offset: o, data: dt, .. } && o == offset && dt
            == data,
{
    ParserError::InvalidData { offset, data, message: message.to_string() }
}

/// Copy a vector of plain values.
fn copy_vec<T: Copy>(v: &Vec<T>) -> (r: Vec<T>)
    ensures
        r@ == v@,
{
    let mut r: Vec<T> = Vec::new();
    let mut i: usize = 0;
    while i < v.len()
        invariant
            i <= v@.len(),
            r@ =~= v@.take(i as int),
        decreases v@.len() - i,
    {
        r.push(v[i]);
        i = i + 1;
    }
    proof {
        assert(r@ =~= v@);
    }
    r
}

/// Compile one data Main item against the current state: emit its fields
/// and advance the bit offset of its `(direction, report id)` bucket.
///
/// `offset` is the byte offset of the item, carried into any error. The
/// fields' usages come sticky-tailed from the resolved usage list: a field
/// past the end of the list takes the last usage.
pub fn handle_main_item(
    item: &MainItem,
    stack: &Stack,
    offsets: &mut Offsets,
    offset: u32,
) -> (r: Result<Vec<Field>, ParserError>)
    requires
        is_data_main(*item),
        stack.inv(),
        old(offsets).inv(),
    ensures
        final(offsets).inv(),
        main_item_post(*item, *stack, *old(offsets), *final(offsets), offset, r),
{
    let g = *stack.globals_const();
    let l = stack.locals_const();
    let (flags, direction) = match item {
        MainItem::Input(f) => (*f, Direction::Input),
        MainItem::Output(f) => (*f, Direction::Output),
        MainItem::Feature(f) => (*f, Direction::Feature),
        _ => {
            proof {
                assert(false);
            }
            return Err(ParserError::OutOfBounds);
        },
    };
    let report_size = match g.report_size {
        Some(s) => s,
        None => {
            return Err(invalid(offset, 0, "missing report size in globals"));
        },
    };
    if report_size.0 == 0 {
        return Err(invalid(offset, 0, "report size must be at least one bit"));
    }
    let report_count = match g.report_count {
        Some(c) => c,
        None => {
            return Err(invalid(offset, 0, "missing report count in globals"));
        },
    };
    let size_us = report_size.0 as usize;
    let count_us = report_count.0 as usize;
    if flags.is_constant {
        if report_count.0 == 0 {
            return Ok(Vec::new());
        }
        let nbits = match size_us.checked_mul(count_us) {
            Some(n) => n,
            None => {
                return Err(invalid(offset, 0, "field bits exceed the address space"));
            },
        };
        proof {
            assert(size_us * count_us >= 1) by (nonlinear_arith)
                requires
                    size_us >= 1,
                    count_us >= 1,
            ;
            assert(size_us * count_us == count_us * size_us) by (nonlinear_arith);
        }
        let start = match offsets.advance(direction, g.report_id, nbits) {
            Some(s) => s,
            None => {
                return Err(invalid(offset, 0, "field bits exceed the address space"));
            },
        };
        let field = ConstantField {
            bits: BitRange { start, end: start + nbits - 1 },
            report_id: g.report_id,
            direction,
        };
        let mut v: Vec<Field> = Vec::new();
        v.push(Field::Constant(field));
        proof {
            assert(v@ =~= seq![
                Field::Constant(
                    ConstantField {
                        bits: BitRange {
                            start: old(offsets).lookup(direction, g.report_id) as usize,
                            end: (old(offsets).lookup(direction, g.report_id) + nbits
                                - 1) as usize,
                        },
                        report_id: g.report_id,
                        direction,
                    },
                ),
            ]);
        }
        return Ok(v);
    }
    let lmin = match g.logical_minimum {
        Some(m) => m,
        None => {
            return Err(invalid(offset, 0, "missing logical minimum in globals"));
        },
    };
    let lmax = match g.logical_maximum {
        Some(m) => m,
        None => {
            return Err(invalid(offset, 0, "missing logical maximum in globals"));
        },
    };
    if lmin.0 > lmax.0 {
        return Err(invalid(offset, 0, "logical minimum exceeds logical maximum"));
    }
    let physical_range = match (g.physical_minimum, g.physical_maximum) {
        (Some(pmin), Some(pmax)) => {
            if pmin.0 > pmax.0 {
                return Err(invalid(offset, 0, "physical minimum exceeds physical maximum"));
            }
            Some(PhysicalRange { minimum: pmin, maximum: pmax })
        },
        _ => None,
    };
    let usages = match compile_usages(&g, l) {
        Some(u) => u,
        None => {
            return Err(invalid(offset, 0, "no usage pending for a data field"));
        },
    };
    let logical_range = LogicalRange { minimum: lmin, maximum: lmax };
    if report_count.0 == 0 {
        return Ok(Vec::new());
    }
    if flags.is_variable && usages.len() == 0 {
        return Err(invalid(offset, 0, "no usage pending for a data field"));
    }
    let nbits = match size_us.checked_mul(count_us) {
        Some(n) => n,
        None => {
            return Err(invalid(offset, 0, "field bits exceed the address space"));
        },
    };
    proof {
        assert(size_us * count_us >= 1) by (nonlinear_arith)
            requires
                size_us >= 1,
                count_us >= 1,
        ;
        assert(size_us * count_us == count_us * size_us) by (nonlinear_arith);
    }
    if flags.is_variable {
        let base = offsets.current(direction, g.report_id);
        if nbits > usize::MAX - base {
            return Err(invalid(offset, 0, "field bits exceed the address space"));
        }
        let ghost off0 = *offsets;
        let ghost size_n = size_us as nat;
        let ghost us = spec_compile_usages(g, *l).unwrap();
        let mut v: Vec<Field> = Vec::new();
        let mut k: usize = 0;
        while k < count_us
            invariant
                stack.inv(),
                offsets.inv(),
                off0.inv(),
                k <= count_us,
                g == stack.globals@.last(),
                *l == stack.locals,
                usages@ == us,
                us.len() >= 1,
                size_us == size_n,
                size_n >= 1,
                off0.lookup(direction, g.report_id) + count_us * size_n <= usize::MAX,
                nbits == count_us * size_n,
                offsets.lookup(direction, g.report_id) == off0.lookup(direction, g.report_id) + k
                    * size_n,
                forall|d2: Direction, id2: Option<ReportId>|
                    !(d2 == direction && id2 == g.report_id) ==> #[trigger] offsets.lookup(d2, id2)
                        == off0.lookup(d2, id2),
                v@.len() == k,
                forall|j: int|
                    0 <= j < k ==> ((#[trigger] v@[j]) matches Field::Variable(f) && {
                        &&& f.usage == (if j < us.len() {
                            us[j]
                        } else {
                            us.last()
                        })
                        &&& f.bits == (BitRange {
                            start: (off0.lookup(direction, g.report_id) + j * size_n) as usize,
                            end: (off0.lookup(direction, g.report_id) + (j + 1) * size_n
                                - 1) as usize,
                        })
                        &&& f.logical_range == logical_range
                        &&& f.physical_range == physical_range
                        &&& f.unit == g.unit
                        &&& f.unit_exponent == g.unit_exponent
                        &&& f.collections@ == stack.collections@
                        &&& f.report_id == g.report_id
                        &&& f.direction == direction
                    }),
            decreases count_us - k,
        {
            proof {
                assert((k + 1) * size_n <= count_us * size_n) by (nonlinear_arith)
                    requires
                        k < count_us,
                        size_n >= 1,
                ;
                assert(k * size_n + size_n == (k + 1) * size_n) by (nonlinear_arith);
            }
            let start = match offsets.advance(direction, g.report_id, size_us) {
                Some(s) => s,
                None => {
                    proof {
                        assert(false);
                    }
                    return Err(ParserError::OutOfBounds);
                },
            };
            let usage = if k < usages.len() {
                usages[k]
            } else {
                usages[usages.len() - 1]
            };
            let f = VariableField {
                usage,
                bits: BitRange { start, end: start + size_us - 1 },
                logical_range,
                physical_range,
                unit: g.unit,
                unit_exponent: g.unit_exponent,
                collections: copy_vec(&stack.collections),
                report_id: g.report_id,
                direction,
            };
            v.push(Field::Variable(f));
            k = k + 1;
        }
        Ok(v)
    } else {
        let start = match offsets.advance(direction, g.report_id, nbits) {
            Some(s) => s,
            None => {
                return Err(invalid(offset, 0, "field bits exceed the address space"));
            },
        };
        let f = ArrayField {
            usages,
            bits: BitRange { start, end: start + nbits - 1 },
            logical_range,
            physical_range,
            unit: g.unit,
            unit_exponent: g.unit_exponent,
            collections: copy_vec(&stack.collections),
            report_id: g.report_id,
            direction,
        };
        let mut v: Vec<Field> = Vec::new();
        v.push(Field::Array(f));
        Ok(v)
    }
}

/// Does field `f` belong to the `(direction, report id)` bucket?
pub open spec fn in_bucket(f: Field, d: Direction, id: Option<ReportId>) -> bool {
    f.spec_direction() == d && f.spec_report_id() == id
}

/// The fields of one bucket, in emission order.
pub open spec fn bucket_of(fields: Seq<Field>, d: Direction, id: Option<ReportId>) -> Seq<Field>
    decreases fields.len(),
{
    if fields.len() == 0 {
        Seq::empty()
    } else {
        let rest = bucket_of(fields.drop_last(), d, id);
        if in_bucket(fields.last(), d, id) {
            rest.push(fields.last())
        } else {
            rest
        }
    }
}

/// Appending one field extends its own bucket and no other.
pub proof fn lemma_bucket_push(s: Seq<Field>, f: Field, d: Direction, id: Option<ReportId>)
    ensures
        bucket_of(s.push(f), d, id) == (if in_bucket(f, d, id) {
            bucket_of(s, d, id).push(f)
        } else {
            bucket_of(s, d, id)
        }),
{
    assert(s.push(f).drop_last() =~= s);
    assert(s.push(f).last() == f);
}

/// Buckets distribute over concatenation.
pub proof fn lemma_bucket_add(a: Seq<Field>, b: Seq<Field>, d: Direction, id: Option<ReportId>)
    ensures
        bucket_of(a + b, d, id) == bucket_of(a, d, id) + bucket_of(b, d, id),
    decreases b.len(),
{
    if b.len() == 0 {
        assert(a + b =~= a);
        assert(bucket_of(a, d, id) + bucket_of(b, d, id) =~= bucket_of(a, d, id));
    } else {
        lemma_bucket_add(a, b.drop_last(), d, id);
        assert((a + b).drop_last() =~= a + b.drop_last());
        assert((a + b).last() == b.last());
        if in_bucket(b.last(), d, id) {
            assert(bucket_of(a, d, id) + bucket_of(b.drop_last(), d, id).push(b.last()) =~= (
            bucket_of(a, d, id) + bucket_of(b.drop_last(), d, id)).push(b.last()));
        }
    }
}

/// Every member of a bucket belongs to it.
pub proof fn lemma_bucket_members(s: Seq<Field>, d: Direction, id: Option<ReportId>)
    ensures
        forall|i: int|
            0 <= i < bucket_of(s, d, id).len() ==> in_bucket(
                #[trigger] bucket_of(s, d, id)[i],
                d,
                id,
            ),
    decreases s.len(),
{
    if s.len() > 0 {
        lemma_bucket_members(s.drop_last(), d, id);
        assert forall|i: int| 0 <= i < bucket_of(s, d, id).len() implies in_bucket(
            #[trigger] bucket_of(s, d, id)[i],
            d,
            id,
        ) by {
            let bs = bucket_of(s, d, id);
            let bd = bucket_of(s.drop_last(), d, id);
            if in_bucket(s.last(), d, id) {
                assert(bs == bd.push(s.last()));
                if i < bd.len() {
                    assert(bs[i] == bd[i]);
                } else {
                    assert(bs[i] == s.last());
                }
            } else {
                assert(bs == bd);
                assert(bs[i] == bd[i]);
            }
        }
    }
}

/// A nonempty bucket has a witness in the underlying sequence.
pub proof fn lemma_bucket_witness(s: Seq<Field>, d: Direction, id: Option<ReportId>)
    requires
        bucket_of(s, d, id).len() > 0,
    ensures
        exists|j: int| 0 <= j < s.len() && in_bucket(#[trigger] s[j], d, id),
    decreases s.len(),
{
    if in_bucket(s.last(), d, id) {
        assert(in_bucket(s[s.len() - 1], d, id));
    } else {
        lemma_bucket_witness(s.drop_last(), d, id);
        let j = choose|j: int|
            0 <= j < s.drop_last().len() && in_bucket(#[trigger] s.drop_last()[j], d, id);
        assert(in_bucket(s[j], d, id));
    }
}

/// A sequence whose fields all sit in the bucket is its own bucket.
pub proof fn lemma_bucket_all(s: Seq<Field>, d: Direction, id: Option<ReportId>)
    requires
        forall|i: int| 0 <= i < s.len() ==> in_bucket(#[trigger] s[i], d, id),
    ensures
        bucket_of(s, d, id) == s,
    decreases s.len(),
{
    if s.len() == 0 {
        assert(bucket_of(s, d, id) =~= s);
    } else {
        assert(in_bucket(s[s.len() - 1], d, id));
        lemma_bucket_all(s.drop_last(), d, id);
        assert(s.drop_last().push(s.last()) =~= s);
    }
}

/// A sequence with no field of the bucket contributes nothing to it.
pub proof fn lemma_bucket_none(s: Seq<Field>, d: Direction, id: Option<ReportId>)
    requires
        forall|i: int| 0 <= i < s.len() ==> !in_bucket(#[trigger] s[i], d, id),
    ensures
        bucket_of(s, d, id) == Seq::<Field>::empty(),
    decreases s.len(),
{
    if s.len() == 0 {
        assert(bucket_of(s, d, id) =~= Seq::<Field>::empty());
    } else {
        assert(!in_bucket(s[s.len() - 1], d, id));
        lemma_bucket_none(s.drop_last(), d, id);
    }
}

/// Field equality up to storage: same variant, same scalar attributes,
/// and element-wise equal usage and collection lists.
pub open spec fn field_eq(a: Field, b: Field) -> bool {
    match (a, b) {
        (Field::Variable(x), Field::Variable(y)) => {
            &&& x.usage == y.usage
            &&& x.bits == y.bits
            &&& x.logical_range == y.logical_range
            &&& x.physical_range == y.physical_range
            &&& x.unit == y.unit
            &&& x.unit_exponent == y.unit_exponent
            &&& x.collections@ == y.collections@
            &&& x.report_id == y.report_id
            &&& x.direction == y.direction
        },
        (Field::Array(x), Field::Array(y)) => {
            &&& x.usages@ == y.usages@
            &&& x.bits == y.bits
            &&& x.logical_range == y.logical_range
            &&& x.physical_range == y.physical_range
            &&& x.unit == y.unit
            &&& x.unit_exponent == y.unit_exponent
            &&& x.collections@ == y.collections@
            &&& x.report_id == y.report_id
            &&& x.direction == y.direction
        },
        (Field::Constant(x), Field::Constant(y)) => x == y,
        _ => false,
    }
}

/// Element-wise `field_eq` of two field sequences.
pub open spec fn seq_field_eq(a: Seq<Field>, b: Seq<Field>) -> bool {
    a.len() == b.len() && forall|k: int| 0 <= k < a.len() ==> field_eq(#[trigger] a[k], b[k])
}

/// Field observability is symmetric and transitive.
proof fn lemma_seq_field_eq_trans(a: Seq<Field>, b: Seq<Field>, c: Seq<Field>)
    requires
        seq_field_eq(a, b),
        seq_field_eq(b, c),
    ensures
        seq_field_eq(a, c),
{
    assert forall|k: int| 0 <= k < a.len() implies field_eq(#[trigger] a[k], c[k]) by {
        assert(field_eq(a[k], b[k]));
        assert(field_eq(b[k], c[k]));
    }
}

/// Field observability read the other way round.
proof fn lemma_seq_field_eq_symm(a: Seq<Field>, b: Seq<Field>)
    requires
        seq_field_eq(a, b),
    ensures
        seq_field_eq(b, a),
{
    assert forall|k: int| 0 <= k < b.len() implies field_eq(#[trigger] b[k], a[k]) by {
        assert(field_eq(a[k], b[k]));
    }
}

/// Buckets of observably equal field sequences are observably equal.
proof fn lemma_bucket_field_eq(a: Seq<Field>, b: Seq<Field>, d: Direction, id: Option<ReportId>)
    requires
        seq_field_eq(a, b),
    ensures
        seq_field_eq(bucket_of(a, d, id), bucket_of(b, d, id)),
    decreases a.len(),
{
    if a.len() > 0 {
        assert(seq_field_eq(a.drop_last(), b.drop_last())) by {
            assert forall|k: int| 0 <= k < a.drop_last().len() implies field_eq(
                #[trigger] a.drop_last()[k],
                b.drop_last()[k],
            ) by {
                assert(a.drop_last()[k] == a[k]);
                assert(b.drop_last()[k] == b[k]);
            }
        }
        lemma_bucket_field_eq(a.drop_last(), b.drop_last(), d, id);
        assert(field_eq(a.last(), b.last())) by {
            assert(field_eq(a[a.len() - 1], b[a.len() - 1]));
        }
        lemma_field_eq_attrs(a.last(), b.last());
        let ba = bucket_of(a, d, id);
        let bb = bucket_of(b, d, id);
        let da = bucket_of(a.drop_last(), d, id);
        let db = bucket_of(b.drop_last(), d, id);
        if in_bucket(a.last(), d, id) {
            assert(ba == da.push(a.last()));
            assert(bb == db.push(b.last()));
            assert forall|k: int| 0 <= k < ba.len() implies field_eq(
                #[trigger] ba[k],
                bb[k],
            ) by {
                if k < da.len() {
                    assert(ba[k] == da[k]);
                    assert(bb[k] == db[k]);
                } else {
                    assert(ba[k] == a.last());
                    assert(bb[k] == b.last());
                }
            }
        }
    }
}

/// `field_eq` preserves the attributes the layout laws read.
pub proof fn lemma_field_eq_attrs(a: Field, b: Field)
    requires
        field_eq(a, b),
    ensures
        a.spec_bits() == b.spec_bits(),
        a.spec_report_id() == b.spec_report_id(),
        a.spec_direction() == b.spec_direction(),
{
}

/// A paving carries over to an element-wise equal sequence.
pub proof fn lemma_tiles_field_eq(a: Seq<Field>, b: Seq<Field>, base: nat, total: nat)
    requires
        seq_field_eq(a, b),
        tiles_from(b, base, total),
    ensures
        tiles_from(a, base, total),
{
    assert forall|k: int| 0 <= k < a.len() implies (#[trigger] a[k]).spec_bits() == b[
        k
    ].spec_bits() by {
        lemma_field_eq_attrs(a[k], b[k]);
    }
    if a.len() > 0 {
        assert(a.last().spec_bits() == b.last().spec_bits());
    }
}

/// The fields `fs` pave the bit range `[base, total)` without gap or
/// overlap, in order: the first starts at `base`, each next one right
/// after its predecessor, and the last ends at `total - 1` (an empty
/// sequence paves the empty range, `base == total`).
pub open spec fn tiles_from(fs: Seq<Field>, base: nat, total: nat) -> bool {
    &&& (fs.len() > 0 ==> fs[0].spec_bits().start as nat == base)
    &&& forall|k: int|
        #![trigger fs[k], fs[k - 1]]
        1 <= k < fs.len() ==> fs[k].spec_bits().start as nat == (fs[k - 1].spec_bits().end
            + 1) as nat
    &&& forall|k: int|
        0 <= k < fs.len() ==> (#[trigger] fs[k]).spec_bits().start <= fs[k].spec_bits().end
    &&& (fs.len() == 0 ==> total == base)
    &&& (fs.len() > 0 ==> fs.last().spec_bits().end + 1 == total)
}

/// The fields pave `[0, total)`: the layout every report satisfies.
pub open spec fn tiles(fs: Seq<Field>, total: nat) -> bool {
    tiles_from(fs, 0, total)
}

/// Paving glues: a paving of `[b0, b1)` followed by one of `[b1, b2)` is a
/// paving of `[b0, b2)`.
pub proof fn lemma_tiles_concat(a: Seq<Field>, b: Seq<Field>, b0: nat, b1: nat, b2: nat)
    requires
        tiles_from(a, b0, b1),
        tiles_from(b, b1, b2),
    ensures
        tiles_from(a + b, b0, b2),
{
    let c = a + b;
    if c.len() > 0 {
        if a.len() > 0 {
            assert(c[0] == a[0]);
        } else {
            assert(c[0] == b[0]);
            assert(b0 == b1);
        }
    }
    assert forall|k: int|
        #![trigger c[k], c[k - 1]]
        1 <= k < c.len() implies c[k].spec_bits().start as nat == (c[k - 1].spec_bits().end
        + 1) as nat by {
        if k < a.len() {
            assert(c[k] == a[k]);
            assert(c[k - 1] == a[k - 1]);
        } else {
            assert(c[k] == b[k - a.len()]);
            if k == a.len() {
                assert(c[k - 1] == a[a.len() - 1]);
                assert(b[0].spec_bits().start as nat == b1);
            } else {
                assert(c[k - 1] == b[k - a.len() - 1]);
                assert(b[k - a.len()].spec_bits().start as nat == (b[k - a.len()
                    - 1].spec_bits().end + 1) as nat);
            }
        }
    }
    assert forall|k: int|
        0 <= k < c.len() implies (#[trigger] c[k]).spec_bits().start <= c[k].spec_bits().end by {
        if k < a.len() {
            assert(c[k] == a[k]);
        } else {
            assert(c[k] == b[k - a.len()]);
        }
    }
    if c.len() > 0 {
        if b.len() > 0 {
            assert(c.last() == b.last());
        } else {
            assert(c =~= a);
            assert(b1 == b2);
        }
    }
}

/// The fields a data Main item emits pave exactly the stretch its bucket
/// advanced over, and all land in that bucket.
pub proof fn lemma_main_fields_tile(
    item: MainItem,
    stack: Stack,
    off_old: Offsets,
    off_new: Offsets,
    offset: u32,
    r: Result<Vec<Field>, ParserError>,
)
    requires
        is_data_main(item),
        stack.inv(),
        main_item_post(item, stack, off_old, off_new, offset, r),
        r is Ok,
    ensures
        ({
            let d = main_direction(item);
            let id = stack.globals@.last().report_id;
            let v = r.unwrap()@;
            &&& tiles_from(v, off_old.lookup(d, id), off_new.lookup(d, id))
            &&& forall|k: int| 0 <= k < v.len() ==> in_bucket(#[trigger] v[k], d, id)
        }),
{
    let g = stack.globals@.last();
    let d = main_direction(item);
    let id = g.report_id;
    let v = r.unwrap()@;
    let flags = main_flags(item);
    let size = g.report_size.unwrap().0 as nat;
    let count = g.report_count.unwrap().0 as nat;
    if count == 0 {
        assert(v.len() == 0);
    } else {
        let start = off_old.lookup(d, id);
        let nbits = size * count;
        assert(nbits >= 1) by (nonlinear_arith)
            requires
                size >= 1,
                count >= 1,
                nbits == size * count,
        ;
        if flags.is_constant {
            assert(v.len() == 1);
            assert(start + nbits <= usize::MAX);
        } else if flags.is_variable {
            assert(v[0].spec_bits().start as nat == start) by {
                assert(0 * size == 0) by (nonlinear_arith);
                assert((0 + 1) * size == size) by (nonlinear_arith);
                assert(size <= count * size) by (nonlinear_arith)
                    requires
                        count >= 1,
                        size >= 0,
                ;
                assert(count * size == size * count) by (nonlinear_arith);
            }
            assert forall|k: int|
                #![trigger v[k], v[k - 1]]
                1 <= k < v.len() implies v[k].spec_bits().start as nat == (v[k
                - 1].spec_bits().end + 1) as nat by {
                assert((k + 1) * size == k * size + size) by (nonlinear_arith);
                assert(k * size >= 0) by (nonlinear_arith)
                    requires
                        k >= 0,
                        size >= 0,
                ;
                assert((k + 1) * size <= count * size) by (nonlinear_arith)
                    requires
                        k < count,
                        size >= 0,
                ;
                assert(count * size == size * count) by (nonlinear_arith);
                assert(k * size == (k - 1) * size + size) by (nonlinear_arith);
                assert((k - 1) * size >= 0) by (nonlinear_arith)
                    requires
                        k >= 1,
                        size >= 0,
                ;
                assert(k * size <= count * size) by (nonlinear_arith)
                    requires
                        k <= count,
                        size >= 0,
                ;
            }
            assert forall|k: int|
                0 <= k < v.len() implies (#[trigger] v[k]).spec_bits().start <= v[
                k
            ].spec_bits().end && in_bucket(v[k], d, id) by {
                assert((k + 1) * size == k * size + size) by (nonlinear_arith);
                assert(k * size >= 0) by (nonlinear_arith)
                    requires
                        k >= 0,
                        size >= 0,
                ;
                assert((k + 1) * size <= count * size) by (nonlinear_arith)
                    requires
                        k < count,
                        size >= 0,
                ;
                assert(count * size == size * count) by (nonlinear_arith);
                if k > 0 {
                    assert(k * size == (k - 1) * size + size) by (nonlinear_arith);
                    assert((k - 1) * size >= 0) by (nonlinear_arith)
                        requires
                            k >= 1,
                            size >= 0,
                    ;
                    assert(k * size <= count * size) by (nonlinear_arith)
                        requires
                            k <= count,
                            size >= 0,
                    ;
                }
            }
            let k = v.len() - 1;
            assert(v.len() == count);
            assert(start + nbits <= usize::MAX);
            assert(size >= 1);
            assert(count >= 1);
            assert(nbits >= 1) by (nonlinear_arith)
                requires
                    size >= 1,
                    count >= 1,
                    nbits == size * count,
            ;
            assert((k + 1) * size == count * size) by (nonlinear_arith)
                requires
                    k + 1 == count,
            ;
            assert(count * size == size * count) by (nonlinear_arith);
            assert(k * size >= 0) by (nonlinear_arith)
                requires
                    k >= 0,
                    size >= 0,
            ;
            assert(v[k] matches Field::Variable(f) && f.bits == (BitRange {
                start: (start + k * size) as usize,
                end: (start + (k + 1) * size - 1) as usize,
            }));
            match v[k] {
                Field::Variable(f) => {
                    assert(0 <= start + (k + 1) * size - 1 <= usize::MAX);
                    assert(f.bits.end as int == start + (k + 1) * size - 1);
                    assert(f.bits.end + 1 == start + nbits);
                },
                _ => {
                    assert(false);
                },
            }
            assert(v.last() == v[k]);
            assert(v.last().spec_bits().end + 1 == start + nbits);
        } else {
            assert(v.len() == 1);
            assert(start + nbits <= usize::MAX);
        }
    }
}

impl Field {
    /// A structural copy of this field.
    pub fn duplicate(&self) -> (r: Field)
        ensures
            field_eq(r, *self),
    {
        match self {
            Field::Variable(f) => Field::Variable(
                VariableField {
                    usage: f.usage,
                    bits: f.bits,
                    logical_range: f.logical_range,
                    physical_range: f.physical_range,
                    unit: f.unit,
                    unit_exponent: f.unit_exponent,
                    collections: copy_vec(&f.collections),
                    report_id: f.report_id,
                    direction: f.direction,
                },
            ),
            Field::Array(f) => Field::Array(
                ArrayField {
                    usages: copy_vec(&f.usages),
                    bits: f.bits,
                    logical_range: f.logical_range,
                    physical_range: f.physical_range,
                    unit: f.unit,
                    unit_exponent: f.unit_exponent,
                    collections: copy_vec(&f.collections),
                    report_id: f.report_id,
                    direction: f.direction,
                },
            ),
            Field::Constant(f) => Field::Constant(
                ConstantField { bits: f.bits, report_id: f.report_id, direction: f.direction },
            ),
        }
    }
}

/// Are two optional report ids the same?
fn ids_equal(a: Option<ReportId>, b: Option<ReportId>) -> (r: bool)
    ensures
        r == (a == b),
{
    match (a, b) {
        (Option::None, Option::None) => true,
        (Option::Some(x), Option::Some(y)) => x.0 == y.0,
        _ => false,
    }
}

/// Does the field sit in the `(direction, report id)` bucket?
fn matches_bucket(f: &Field, d: Direction, id: Option<ReportId>) -> (b: bool)
    ensures
        b == in_bucket(*f, d, id),
{
    let fd = match f {
        Field::Variable(x) => x.direction,
        Field::Array(x) => x.direction,
        Field::Constant(x) => x.direction,
    };
    let fid = f.report_id();
    fd == d && ids_equal(fid, id)
}

/// Collect the fields of one bucket, in emission order.
fn filter_fields(fields: &Vec<Field>, d: Direction, id: Option<ReportId>) -> (r: Vec<Field>)
    ensures
        seq_field_eq(r@, bucket_of(fields@, d, id)),
{
    let mut r: Vec<Field> = Vec::new();
    let mut i: usize = 0;
    proof {
        assert(fields@.take(0) =~= Seq::<Field>::empty());
    }
    while i < fields.len()
        invariant
            i <= fields@.len(),
            seq_field_eq(r@, bucket_of(fields@.take(i as int), d, id)),
        decreases fields@.len() - i,
    {
        proof {
            assert(fields@.take(i + 1) =~= fields@.take(i as int).push(fields@[i as int]));
            lemma_bucket_push(fields@.take(i as int), fields@[i as int], d, id);
        }
        let f = &fields[i];
        if matches_bucket(f, d, id) {
            r.push(f.duplicate());
        }
        i = i + 1;
    }
    proof {
        assert(fields@.take(fields@.len() as int) =~= fields@);
    }
    r
}

/// Does direction `d` hold a field whose report id presence matches
/// `want_some`?
pub open spec fn has_id_field(fields: Seq<Field>, d: Direction, want_some: bool) -> bool {
    exists|i: int|
        0 <= i < fields.len() && (#[trigger] fields[i]).spec_direction() == d && ((
        fields[i].spec_report_id() is Some) == want_some)
}

/// One direction mixes fields with and without a report id: the descriptor
/// is rejected.
pub open spec fn mixed_ids(fields: Seq<Field>, d: Direction) -> bool {
    has_id_field(fields, d, true) && has_id_field(fields, d, false)
}

/// Scan for a field of direction `d` with (`want_some`) or without a
/// report id.
fn has_field_with(fields: &Vec<Field>, d: Direction, want_some: bool) -> (b: bool)
    ensures
        b == has_id_field(fields@, d, want_some),
{
    let mut i: usize = 0;
    while i < fields.len()
        invariant
            i <= fields@.len(),
            forall|j: int|
                0 <= j < i ==> !((#[trigger] fields@[j]).spec_direction() == d && ((
                fields@[j].spec_report_id() is Some) == want_some)),
        decreases fields@.len() - i,
    {
        let f = &fields[i];
        let fd = match f {
            Field::Variable(x) => x.direction,
            Field::Array(x) => x.direction,
            Field::Constant(x) => x.direction,
        };
        let some = match f.report_id() {
            Some(_) => true,
            None => false,
        };
        if fd == d && some == want_some {
            proof {
                assert((fields@[i as int]).spec_direction() == d && ((fields@[
                    i as int
                ].spec_report_id() is Some) == want_some));
            }
            return true;
        }
        i = i + 1;
    }
    false
}

/// The report id a `Report` groups by, in field form.
pub open spec fn rid_of(id: Option<u8>) -> Option<ReportId> {
    match id {
        None => None,
        Some(n) => Some(ReportId(n)),
    }
}

/// The order reports are listed in: the id-less report first, then ids
/// ascending.
pub open spec fn id_lt(a: Option<u8>, b: Option<u8>) -> bool {
    match (a, b) {
        (Option::None, Option::Some(_)) => true,
        (Option::Some(x), Option::Some(y)) => x < y,
        _ => false,
    }
}

/// One well-built report: right direction, nonempty, its items exactly the
/// bucket's fields in emission order, its size the bucket's final offset.
pub open spec fn report_ok(rp: Report, fields: Seq<Field>, offs: Offsets, d: Direction) -> bool {
    &&& rp.direction == d
    &&& rp.items@.len() > 0
    &&& seq_field_eq(rp.items@, bucket_of(fields, d, rid_of(rp.id)))
    &&& rp.size as nat == offs.lookup(d, rid_of(rp.id))
}

/// Group the emitted fields of one direction into reports, id-less first,
/// then by ascending report id. Fails when the direction mixes fields with
/// and without report ids.
fn assemble_direction(fields: &Vec<Field>, offsets: &Offsets, d: Direction) -> (r: Result<
    Vec<Report>,
    ParserError,
>)
    requires
        offsets.inv(),
    ensures
        match r {
            Ok(rs) => {
                &&& !mixed_ids(fields@, d)
                &&& forall|i: int|
                    0 <= i < rs@.len() ==> report_ok(#[trigger] rs@[i], fields@, *offsets, d)
                &&& forall|i: int, j: int|
                    0 <= i < j < rs@.len() ==> id_lt(#[trigger] rs@[i].id, #[trigger] rs@[j].id)
                &&& forall|i: int, j: int|
                    0 <= i < rs@.len() && 0 <= j < rs@.len() ==> ((#[trigger] rs@[i].id) is Some
                        <==> (#[trigger] rs@[j].id) is Some)
                &&& forall|id: Option<ReportId>|
                    #[trigger] bucket_of(fields@, d, id).len() > 0 ==> exists|i: int|
                        0 <= i < rs@.len() && rid_of(#[trigger] rs@[i].id) == id
            },
            Err(e) => mixed_ids(fields@, d) && (e is InvalidData),
        },
{
    let has_some = has_field_with(fields, d, true);
    let has_none = has_field_with(fields, d, false);
    if has_some && has_none {
        return Err(invalid(0, 0, "all reports of a direction must have report ids, or none"));
    }
    let mut rs: Vec<Report> = Vec::new();
    if !has_some {
        let b = filter_fields(fields, d, None);
        if b.len() > 0 {
            let size = offsets.current(d, None);
            rs.push(Report { id: None, size, items: b, direction: d });
        }
        proof {
            assert forall|id: Option<ReportId>| #[trigger] bucket_of(fields@, d, id).len() > 0
                implies exists|i: int| 0 <= i < rs@.len() && rid_of(#[trigger] rs@[i].id)
                == id by {
                match id {
                    Option::None => {
                        assert(rid_of(rs@[0].id) == id);
                    },
                    Option::Some(_) => {
                        lemma_bucket_witness(fields@, d, id);
                        let j = choose|j: int|
                            0 <= j < fields@.len() && in_bucket(#[trigger] fields@[j], d, id);
                        assert((fields@[j].spec_report_id() is Some) == true);
                        assert(false);
                    },
                }
            }
        }
        Ok(rs)
    } else {
        let mut idv: u16 = 0;
        while idv < 256
            invariant
                offsets.inv(),
                forall|i: int|
                    0 <= i < rs@.len() ==> report_ok(#[trigger] rs@[i], fields@, *offsets, d),
                forall|i: int|
                    0 <= i < rs@.len() ==> ((#[trigger] rs@[i].id) matches Some(x) && (x as int)
                        < idv),
                forall|i: int, j: int|
                    0 <= i < j < rs@.len() ==> id_lt(#[trigger] rs@[i].id, #[trigger] rs@[j].id),
                forall|rid: ReportId|
                    rid.0 < idv ==> (#[trigger] bucket_of(fields@, d, Some(rid)).len() > 0
                        ==> exists|i: int|
                        0 <= i < rs@.len() && rid_of(#[trigger] rs@[i].id) == Some(rid)),
            decreases 256 - idv,
        {
            let rid = ReportId(idv as u8);
            let b = filter_fields(fields, d, Some(rid));
            let ghost rs_old = rs@;
            let ghost blen = b@.len();
            if b.len() > 0 {
                let size = offsets.current(d, Some(rid));
                rs.push(Report { id: Some(idv as u8), size, items: b, direction: d });
            }
            proof {
                assert forall|rid2: ReportId|
                    rid2.0 < idv + 1 implies (#[trigger] bucket_of(fields@, d, Some(rid2)).len()
                    > 0 ==> exists|i: int|
                    0 <= i < rs@.len() && rid_of(#[trigger] rs@[i].id) == Some(rid2)) by {
                    if bucket_of(fields@, d, Some(rid2)).len() > 0 {
                        if rid2.0 < idv {
                            let i = choose|i: int|
                                0 <= i < rs_old.len() && rid_of(#[trigger] rs_old[i].id) == Some(
                                    rid2,
                                );
                            assert(rs@[i] == rs_old[i]);
                            assert(rid_of(rs@[i].id) == Some(rid2));
                        } else {
                            assert(rid2 == rid);
                            assert(blen == bucket_of(fields@, d, Some(rid2)).len());
                            assert(rid_of(rs@[rs@.len() - 1].id) == Some(rid2));
                        }
                    }
                }
            }
            idv = idv + 1;
        }
        proof {
            assert forall|id: Option<ReportId>| #[trigger] bucket_of(fields@, d, id).len() > 0
                implies exists|i: int| 0 <= i < rs@.len() && rid_of(#[trigger] rs@[i].id)
                == id by {
                match id {
                    Option::Some(rid) => {
                        assert(rid.0 < 256);
                    },
                    Option::None => {
                        lemma_bucket_witness(fields@, d, id);
                        let j = choose|j: int|
                            0 <= j < fields@.len() && in_bucket(#[trigger] fields@[j], d, id);
                        assert((fields@[j].spec_report_id() is Some) == false);
                        assert(false);
                    },
                }
            }
        }
        Ok(rs)
    }
}

/// An item that can neither emit fields nor fail: anything but a data Main
/// item or a Global Pop.
pub open spec fn benign_item(m: crate::hid::RawModel) -> bool {
    match crate::hid::spec_classify(m) {
        crate::hid::ItemType::Main(mi) => !is_data_main(mi),
        crate::hid::ItemType::Global(crate::hid::GlobalItem::Pop) => false,
        _ => true,
    }
}

/// The descriptor decodes and every item is benign: such a descriptor
/// parses to an empty report set.
pub open spec fn all_benign(bytes: Seq<u8>) -> bool {
    match crate::hid::decode_from(bytes, 0) {
        Ok(ms) => forall|i: int| 0 <= i < ms.len() ==> benign_item(#[trigger] ms[i]),
        Err(_) => false,
    }
}

/// Everything a direction's report list satisfies after a successful
/// parse: per-report direction, nonemptiness, gap- and overlap-free
/// paving of `[0, size)`, fields grouped by the report's own id, report
/// ids strictly ascending, and ids present on all reports or on none.
pub open spec fn dir_reports_ok(rs: Seq<Report>, d: Direction) -> bool {
    &&& forall|i: int| 0 <= i < rs.len() ==> (#[trigger] rs[i]).direction == d
    &&& forall|i: int| 0 <= i < rs.len() ==> (#[trigger] rs[i]).items@.len() > 0
    &&& forall|i: int| 0 <= i < rs.len() ==> tiles((#[trigger] rs[i]).items@, rs[i].size as nat)
    &&& forall|i: int, k: int|
        0 <= i < rs.len() && 0 <= k < rs[i].items@.len() ==> in_bucket(
            #[trigger] rs[i].items@[k],
            d,
            rid_of(rs[i].id),
        )
    &&& forall|i: int, j: int|
        0 <= i < j < rs.len() ==> id_lt(#[trigger] rs[i].id, #[trigger] rs[j].id)
    &&& forall|i: int, j: int|
        0 <= i < rs.len() && 0 <= j < rs.len() ==> ((#[trigger] rs[i].id) is Some <==> (
        #[trigger] rs[j].id) is Some)
}

/// The whole parser state between two items, as the step relation sees
/// it.
pub ghost struct PState {
    pub stack: Stack,
    pub offsets: Offsets,
    pub fields: Seq<Field>,
}

/// The locals snapshot, by value.
pub ghost struct LocalsModel {
    pub usages: Seq<LocalUsage>,
    pub usage_minimum: Option<UsageMinimum>,
    pub usage_maximum: Option<UsageMaximum>,
    pub designator_index: Option<DesignatorIndex>,
    pub designator_minimum: Option<DesignatorMinimum>,
    pub designator_maximum: Option<DesignatorMaximum>,
    pub string_index: Option<StringIndex>,
    pub string_minimum: Option<StringMinimum>,
    pub string_maximum: Option<StringMaximum>,
    pub delimiter: Option<Delimiter>,
}

/// What a locals snapshot holds.
pub open spec fn lview(l: Locals) -> LocalsModel {
    LocalsModel {
        usages: l.usages@,
        usage_minimum: l.usage_minimum,
        usage_maximum: l.usage_maximum,
        designator_index: l.designator_index,
        designator_minimum: l.designator_minimum,
        designator_maximum: l.designator_maximum,
        string_index: l.string_index,
        string_minimum: l.string_minimum,
        string_maximum: l.string_maximum,
        delimiter: l.delimiter,
    }
}

/// Offsets agree bucket for bucket.
pub open spec fn offsets_eq(a: Offsets, b: Offsets) -> bool {
    a.table@ == b.table@
}

/// Nothing observable changed between two states.
pub open spec fn same_state(a: PState, b: PState) -> bool {
    &&& b.stack.globals@ == a.stack.globals@
    &&& lview(b.stack.locals) == lview(a.stack.locals)
    &&& b.stack.collections@ == a.stack.collections@
    &&& offsets_eq(b.offsets, a.offsets)
    &&& b.fields == a.fields
}

/// A global item replaced one slot of the top globals snapshot.
pub open spec fn global_set(a: PState, b: PState, g1: Globals) -> bool {
    &&& a.stack.globals@.len() >= 1
    &&& b.stack.globals@ == a.stack.globals@.update(a.stack.globals@.len() - 1, g1)
    &&& lview(b.stack.locals) == lview(a.stack.locals)
    &&& b.stack.collections@ == a.stack.collections@
    &&& offsets_eq(b.offsets, a.offsets)
    &&& b.fields == a.fields
}

/// A local item replaced the locals snapshot.
pub open spec fn local_set(a: PState, b: PState, l1: LocalsModel) -> bool {
    &&& b.stack.globals@ == a.stack.globals@
    &&& lview(b.stack.locals) == l1
    &&& b.stack.collections@ == a.stack.collections@
    &&& offsets_eq(b.offsets, a.offsets)
    &&& b.fields == a.fields
}

/// How one typed item takes the parser from state `a` to state `b`. The
/// whole parse is a chain of these steps; an item on which the parser
/// fails (a Pop of the last snapshot, a rejected Main item) admits no
/// step.
pub open spec fn item_step(t: crate::hid::ItemType, off: u32, a: PState, b: PState) -> bool {
    match t {
        crate::hid::ItemType::Main(crate::hid::MainItem::Collection(c)) => {
            &&& b.stack.globals@ == a.stack.globals@
            &&& b.stack.collections@ == a.stack.collections@.push(Collection(c))
            &&& b.stack.locals.is_default()
            &&& offsets_eq(b.offsets, a.offsets)
            &&& b.fields == a.fields
        },
        crate::hid::ItemType::Main(crate::hid::MainItem::EndCollection) => {
            &&& b.stack.globals@ == a.stack.globals@
            &&& b.stack.collections@ == (if a.stack.collections@.len() > 0 {
                a.stack.collections@.drop_last()
            } else {
                a.stack.collections@
            })
            &&& b.stack.locals.is_default()
            &&& offsets_eq(b.offsets, a.offsets)
            &&& b.fields == a.fields
        },
        crate::hid::ItemType::Main(crate::hid::MainItem::Reserved) => same_state(a, b),
        crate::hid::ItemType::Main(mi) => {
            &&& (exists|v: Vec<Field>|
                main_item_post(mi, a.stack, a.offsets, b.offsets, off, Ok(v)) && b.fields
                    == a.fields + v@)
            &&& b.stack.globals@ == a.stack.globals@
            &&& b.stack.collections@ == a.stack.collections@
            &&& b.stack.locals.is_default()
        },
        crate::hid::ItemType::Global(g) => {
            let top = a.stack.globals@.last();
            match g {
                crate::hid::GlobalItem::UsagePage(x) => global_set(
                    a,
                    b,
                    Globals { usage_page: Some(x), ..top },
                ),
                crate::hid::GlobalItem::LogicalMinimum(x) => global_set(
                    a,
                    b,
                    Globals { logical_minimum: Some(x), ..top },
                ),
                crate::hid::GlobalItem::LogicalMaximum(x) => global_set(
                    a,
                    b,
                    Globals { logical_maximum: Some(x), ..top },
                ),
                crate::hid::GlobalItem::PhysicalMinimum(x) => global_set(
                    a,
                    b,
                    Globals { physical_minimum: Some(x), ..top },
                ),
                crate::hid::GlobalItem::PhysicalMaximum(x) => global_set(
                    a,
                    b,
                    Globals { physical_maximum: Some(x), ..top },
                ),
                crate::hid::GlobalItem::UnitExponent(x) => global_set(
                    a,
                    b,
                    Globals { unit_exponent: Some(x), ..top },
                ),
                crate::hid::GlobalItem::Unit(x) => global_set(
                    a,
                    b,
                    Globals { unit: Some(x), ..top },
                ),
                crate::hid::GlobalItem::ReportSize(x) => global_set(
                    a,
                    b,
                    Globals { report_size: Some(x), ..top },
                ),
                crate::hid::GlobalItem::ReportId(x) => global_set(
                    a,
                    b,
                    Globals { report_id: Some(x), ..top },
                ),
                crate::hid::GlobalItem::ReportCount(x) => global_set(
                    a,
                    b,
                    Globals { report_count: Some(x), ..top },
                ),
                crate::hid::GlobalItem::Push => {
                    &&& b.stack.globals@ == a.stack.globals@.push(a.stack.globals@.last())
                    &&& lview(b.stack.locals) == lview(a.stack.locals)
                    &&& b.stack.collections@ == a.stack.collections@
                    &&& offsets_eq(b.offsets, a.offsets)
                    &&& b.fields == a.fields
                },
                crate::hid::GlobalItem::Pop => {
                    &&& a.stack.globals@.len() > 1
                    &&& b.stack.globals@ == a.stack.globals@.drop_last()
                    &&& lview(b.stack.locals) == lview(a.stack.locals)
                    &&& b.stack.collections@ == a.stack.collections@
                    &&& offsets_eq(b.offsets, a.offsets)
                    &&& b.fields == a.fields
                },
                crate::hid::GlobalItem::Reserved => same_state(a, b),
            }
        },
        crate::hid::ItemType::Local(l) => {
            let cur = lview(a.stack.locals);
            match l {
                crate::hid::LocalItem::Usage { usage_page, usage_id } => local_set(
                    a,
                    b,
                    LocalsModel {
                        usages: cur.usages.push(LocalUsage { usage_page, usage_id }),
                        ..cur
                    },
                ),
                crate::hid::LocalItem::UsageMinimum(x) => local_set(
                    a,
                    b,
                    LocalsModel { usage_minimum: Some(x), ..cur },
                ),
                crate::hid::LocalItem::UsageMaximum(x) => local_set(
                    a,
                    b,
                    LocalsModel { usage_maximum: Some(x), ..cur },
                ),
                crate::hid::LocalItem::DesignatorIndex(x) => local_set(
                    a,
                    b,
                    LocalsModel { designator_index: Some(x), ..cur },
                ),
                crate::hid::LocalItem::DesignatorMinimum(x) => local_set(
                    a,
                    b,
                    LocalsModel { designator_minimum: Some(x), ..cur },
                ),
                crate::hid::LocalItem::DesignatorMaximum(x) => local_set(
                    a,
                    b,
                    LocalsModel { designator_maximum: Some(x), ..cur },
                ),
                crate::hid::LocalItem::StringIndex(x) => local_set(
                    a,
                    b,
                    LocalsModel { string_index: Some(x), ..cur },
                ),
                crate::hid::LocalItem::StringMinimum(x) => local_set(
                    a,
                    b,
                    LocalsModel { string_minimum: Some(x), ..cur },
                ),
                crate::hid::LocalItem::StringMaximum(x) => local_set(
                    a,
                    b,
                    LocalsModel { string_maximum: Some(x), ..cur },
                ),
                crate::hid::LocalItem::Delimiter(x) => local_set(
                    a,
                    b,
                    LocalsModel { delimiter: Some(x), ..cur },
                ),
                crate::hid::LocalItem::Reserved => same_state(a, b),
            }
        },
        crate::hid::ItemType::Long => same_state(a, b),
        crate::hid::ItemType::Reserved => same_state(a, b),
    }
}

/// The error offset carried for the item at byte offset `o`, saturated to
/// the error type's width.
pub open spec fn off32(o: int) -> u32 {
    if o > u32::MAX {
        u32::MAX
    } else {
        o as u32
    }
}

/// Where every parse begins: one default globals snapshot, empty locals,
/// no collections, all bucket offsets zero, nothing emitted.
pub open spec fn initial_state(s: PState) -> bool {
    &&& s.stack.globals@ =~= seq![Globals::spec_default()]
    &&& s.stack.locals.is_default()
    &&& s.stack.collections@ =~= Seq::<Collection>::empty()
    &&& s.offsets.inv()
    &&& (forall|d: Direction, id: Option<ReportId>| #[trigger] s.offsets.lookup(d, id) == 0)
    &&& s.fields =~= Seq::<Field>::empty()
}

/// The state after stepping through the first `k` decoded items.
pub open spec fn fold_reaches(models: Seq<crate::hid::RawModel>, k: int, s: PState) -> bool
    decreases k,
{
    if k <= 0 {
        initial_state(s)
    } else {
        exists|prev: PState|
            fold_reaches(models, k - 1, prev) && #[trigger] item_step(
                crate::hid::spec_classify(models[k - 1]),
                off32(models[k - 1].offset),
                prev,
                s,
            )
    }
}

/// One more item extends a trace by one step.
pub proof fn lemma_fold_step(
    models: Seq<crate::hid::RawModel>,
    k: int,
    prev: PState,
    s: PState,
)
    requires
        0 <= k < models.len(),
        fold_reaches(models, k, prev),
        item_step(crate::hid::spec_classify(models[k]), off32(models[k].offset), prev, s),
    ensures
        fold_reaches(models, k + 1, s),
{
    assert(fold_reaches(models, (k + 1) - 1, prev));
    assert(crate::hid::spec_classify(models[(k + 1) - 1]) == crate::hid::spec_classify(
        models[k],
    ));
    assert(off32(models[(k + 1) - 1].offset) == off32(models[k].offset));
    assert(item_step(
        crate::hid::spec_classify(models[(k + 1) - 1]),
        off32(models[(k + 1) - 1].offset),
        prev,
        s,
    ));
    assert(exists|prev2: PState|
        fold_reaches(models, (k + 1) - 1, prev2) && #[trigger] item_step(
            crate::hid::spec_classify(models[(k + 1) - 1]),
            off32(models[(k + 1) - 1].offset),
            prev2,
            s,
        ));
}

/// Two parser states agree on everything the parse observes: the globals
/// stack, the locals by value, the collection path, every bucket offset,
/// and the emitted fields element-wise.
pub open spec fn obs_eq(a: PState, b: PState) -> bool {
    &&& a.stack.globals@ == b.stack.globals@
    &&& lview(a.stack.locals) == lview(b.stack.locals)
    &&& a.stack.collections@ == b.stack.collections@
    &&& a.offsets.inv()
    &&& b.offsets.inv()
    &&& forall|d: Direction, id: Option<ReportId>|
        #[trigger] a.offsets.lookup(d, id) == b.offsets.lookup(d, id)
    &&& seq_field_eq(a.fields, b.fields)
}

/// Two default locals snapshots hold the same values.
proof fn lemma_default_lview(l1: Locals, l2: Locals)
    requires
        l1.is_default(),
        l2.is_default(),
    ensures
        lview(l1) == lview(l2),
{
    assert(l1.usages@ =~= l2.usages@);
}

/// Element-wise field equality concatenates.
proof fn lemma_seq_field_eq_add(a: Seq<Field>, b: Seq<Field>, c: Seq<Field>, d: Seq<Field>)
    requires
        seq_field_eq(a, b),
        seq_field_eq(c, d),
    ensures
        seq_field_eq(a + c, b + d),
{
    assert forall|k: int| 0 <= k < (a + c).len() implies field_eq(
        #[trigger] (a + c)[k],
        (b + d)[k],
    ) by {
        if k < a.len() {
            assert((a + c)[k] == a[k]);
            assert((b + d)[k] == b[k]);
        } else {
            assert((a + c)[k] == c[k - a.len()]);
            assert((b + d)[k] == d[k - a.len()]);
        }
    }
}

/// Mixed-id presence depends only on field observables.
proof fn lemma_mixed_field_eq(a: Seq<Field>, b: Seq<Field>, d: Direction)
    requires
        seq_field_eq(a, b),
    ensures
        mixed_ids(a, d) == mixed_ids(b, d),
{
    assert forall|w: bool| #[trigger] has_id_field(a, d, w) == has_id_field(b, d, w) by {
        if has_id_field(a, d, w) {
            let i = choose|i: int|
                0 <= i < a.len() && (#[trigger] a[i]).spec_direction() == d && ((
                a[i].spec_report_id() is Some) == w);
            lemma_field_eq_attrs(a[i], b[i]);
            assert((b[i]).spec_direction() == d && ((b[i].spec_report_id() is Some) == w));
        }
        if has_id_field(b, d, w) {
            let i = choose|i: int|
                0 <= i < b.len() && (#[trigger] b[i]).spec_direction() == d && ((
                b[i].spec_report_id() is Some) == w);
            lemma_field_eq_attrs(a[i], b[i]);
            assert((a[i]).spec_direction() == d && ((a[i].spec_report_id() is Some) == w));
        }
    }
}

/// Usage resolution reads the locals only by value.
proof fn lemma_compile_usages_congruence(g: Globals, l1: Locals, l2: Locals)
    requires
        lview(l1) == lview(l2),
    ensures
        spec_compile_usages(g, l1) == spec_compile_usages(g, l2),
{
    assert(l1.usages@ == l2.usages@);
    assert(l1.usage_minimum == l2.usage_minimum);
    assert(l1.usage_maximum == l2.usage_maximum);
    match l1.usage_minimum {
        Some(mn) => {
            match (l1.usage_maximum, g.usage_page) {
                (Some(mx), Some(up)) => {
                    assert(spec_compile_usages(g, l1).unwrap() =~= spec_compile_usages(
                        g,
                        l2,
                    ).unwrap());
                },
                _ => {},
            }
        },
        None => {
            assert(usages_resolvable(g, l1) == usages_resolvable(g, l2)) by {
                if usages_resolvable(g, l1) {
                    assert forall|i: int|
                        0 <= i < l2.usages@.len() implies ((#[trigger] l2.usages@[i]).usage_page
                        is Some || g.usage_page is Some) by {
                        assert(l1.usages@[i] == l2.usages@[i]);
                    }
                }
                if usages_resolvable(g, l2) {
                    assert forall|i: int|
                        0 <= i < l1.usages@.len() implies ((#[trigger] l1.usages@[i]).usage_page
                        is Some || g.usage_page is Some) by {
                        assert(l1.usages@[i] == l2.usages@[i]);
                    }
                }
            }
            if l1.usages@.len() > 0 && usages_resolvable(g, l1) {
                assert(spec_compile_usages(g, l1).unwrap() =~= spec_compile_usages(
                    g,
                    l2,
                ).unwrap());
            }
        },
    }
}

/// The compiler's postcondition is a function of the observable state:
/// against observably equal states it decides success identically, emits
/// element-wise equal fields, and leaves every bucket at the same offset.
proof fn lemma_main_post_congruence(
    item: MainItem,
    s1: Stack,
    o1a: Offsets,
    o1b: Offsets,
    r1: Result<Vec<Field>, ParserError>,
    off1: u32,
    s2: Stack,
    o2a: Offsets,
    o2b: Offsets,
    r2: Result<Vec<Field>, ParserError>,
    off2: u32,
)
    requires
        is_data_main(item),
        s1.globals@ == s2.globals@,
        lview(s1.locals) == lview(s2.locals),
        s1.collections@ == s2.collections@,
        o1a.inv(),
        o2a.inv(),
        forall|d: Direction, id: Option<ReportId>|
            #[trigger] o1a.lookup(d, id) == o2a.lookup(d, id),
        main_item_post(item, s1, o1a, o1b, off1, r1),
        main_item_post(item, s2, o2a, o2b, off2, r2),
    ensures
        (r1 is Ok) == (r2 is Ok),
        (r1 is Ok && r2 is Ok) ==> seq_field_eq(r1.unwrap()@, r2.unwrap()@),
        o1b.inv(),
        o2b.inv(),
        forall|d: Direction, id: Option<ReportId>|
            #[trigger] o1b.lookup(d, id) == o2b.lookup(d, id),
{
    let g = s1.globals@.last();
    let flags = main_flags(item);
    let d = main_direction(item);
    let id = g.report_id;
    assert(s2.globals@.last() == g);
    lemma_compile_usages_congruence(g, s1.locals, s2.locals);
    assert(o2a.lookup(d, id) == o1a.lookup(d, id));
    if g.report_size is None || g.report_size == Some(ReportSize(0)) || g.report_count is None {
    } else {
        let size = g.report_size.unwrap().0 as nat;
        let count = g.report_count.unwrap().0 as nat;
        let start = o1a.lookup(d, id);
        if r1 is Ok && r2 is Ok {
            let v1 = r1.unwrap()@;
            let v2 = r2.unwrap()@;
            if flags.is_constant {
                if count > 0 {
                    assert(v1 =~= v2);
                }
            } else {
                if count > 0 {
                    let us = spec_compile_usages(g, s1.locals).unwrap();
                    if flags.is_variable {
                        assert forall|k: int| 0 <= k < v1.len() implies field_eq(
                            #[trigger] v1[k],
                            v2[k],
                        ) by {
                            assert(v1[k] matches Field::Variable(_));
                            assert(v2[k] matches Field::Variable(_));
                        }
                    } else {
                        assert forall|k: int| 0 <= k < v1.len() implies field_eq(
                            #[trigger] v1[k],
                            v2[k],
                        ) by {
                            assert(v1[k] matches Field::Array(_));
                            assert(v2[k] matches Field::Array(_));
                        }
                    }
                }
            }
        }
    }
    assert forall|d2: Direction, id2: Option<ReportId>| #[trigger] o1b.lookup(d2, id2)
        == o2b.lookup(d2, id2) by {
        assert(o1a.lookup(d2, id2) == o2a.lookup(d2, id2));
    }
}

/// Offsets copied table-for-table from offset tables that agree bucket
/// by bucket still agree bucket by bucket.
proof fn lemma_offsets_eq_lookups(a1: Offsets, a2: Offsets, b1: Offsets, b2: Offsets)
    requires
        a1.inv(),
        a2.inv(),
        forall|d: Direction, id: Option<ReportId>|
            #[trigger] a1.lookup(d, id) == a2.lookup(d, id),
        offsets_eq(b1, a1),
        offsets_eq(b2, a2),
    ensures
        b1.inv(),
        b2.inv(),
        forall|d: Direction, id: Option<ReportId>|
            #[trigger] b1.lookup(d, id) == b2.lookup(d, id),
{
    assert forall|d: Direction, id: Option<ReportId>| #[trigger] b1.lookup(d, id) == b2.lookup(
        d,
        id,
    ) by {
        assert(a1.lookup(d, id) == a2.lookup(d, id));
    }
}

/// One step from observably equal states lands in observably equal
/// states: the step relation is deterministic in everything the parse
/// observes.
proof fn lemma_step_obs(
    t: crate::hid::ItemType,
    off1: u32,
    off2: u32,
    a1: PState,
    b1: PState,
    a2: PState,
    b2: PState,
)
    requires
        obs_eq(a1, a2),
        item_step(t, off1, a1, b1),
        item_step(t, off2, a2, b2),
    ensures
        obs_eq(b1, b2),
{
    match t {
        crate::hid::ItemType::Main(crate::hid::MainItem::Collection(_)) => {
            lemma_default_lview(b1.stack.locals, b2.stack.locals);
            lemma_offsets_eq_lookups(a1.offsets, a2.offsets, b1.offsets, b2.offsets);
        },
        crate::hid::ItemType::Main(crate::hid::MainItem::EndCollection) => {
            lemma_default_lview(b1.stack.locals, b2.stack.locals);
            lemma_offsets_eq_lookups(a1.offsets, a2.offsets, b1.offsets, b2.offsets);
        },
        crate::hid::ItemType::Main(crate::hid::MainItem::Reserved) => {
            lemma_offsets_eq_lookups(a1.offsets, a2.offsets, b1.offsets, b2.offsets);
        },
        crate::hid::ItemType::Main(mi) => {
            lemma_default_lview(b1.stack.locals, b2.stack.locals);
            let v1 = choose|v: Vec<Field>|
                main_item_post(mi, a1.stack, a1.offsets, b1.offsets, off1, Ok(v)) && b1.fields
                    == a1.fields + v@;
            let v2 = choose|v: Vec<Field>|
                main_item_post(mi, a2.stack, a2.offsets, b2.offsets, off2, Ok(v)) && b2.fields
                    == a2.fields + v@;
            lemma_main_post_congruence(
                mi,
                a1.stack,
                a1.offsets,
                b1.offsets,
                Ok(v1),
                off1,
                a2.stack,
                a2.offsets,
                b2.offsets,
                Ok(v2),
                off2,
            );
            lemma_seq_field_eq_add(a1.fields, a2.fields, v1@, v2@);
        },
        crate::hid::ItemType::Global(_) => {
            lemma_offsets_eq_lookups(a1.offsets, a2.offsets, b1.offsets, b2.offsets);
        },
        crate::hid::ItemType::Local(_) => {
            lemma_offsets_eq_lookups(a1.offsets, a2.offsets, b1.offsets, b2.offsets);
        },
        crate::hid::ItemType::Long => {
            lemma_offsets_eq_lookups(a1.offsets, a2.offsets, b1.offsets, b2.offsets);
        },
        crate::hid::ItemType::Reserved => {
            lemma_offsets_eq_lookups(a1.offsets, a2.offsets, b1.offsets, b2.offsets);
        },
    }
}

/// Any two states a trace can reach after the same items agree on every
/// observable.
proof fn lemma_fold_obs(models: Seq<crate::hid::RawModel>, k: int, s1: PState, s2: PState)
    requires
        fold_reaches(models, k, s1),
        fold_reaches(models, k, s2),
    ensures
        obs_eq(s1, s2),
    decreases k,
{
    if k <= 0 {
        assert(s1.stack.globals@ == s2.stack.globals@);
        lemma_default_lview(s1.stack.locals, s2.stack.locals);
        assert(s1.stack.collections@ == s2.stack.collections@);
        assert(seq_field_eq(s1.fields, s2.fields));
    } else {
        let p1 = choose|p: PState|
            fold_reaches(models, k - 1, p) && #[trigger] item_step(
                crate::hid::spec_classify(models[k - 1]),
                off32(models[k - 1].offset),
                p,
                s1,
            );
        let p2 = choose|p: PState|
            fold_reaches(models, k - 1, p) && #[trigger] item_step(
                crate::hid::spec_classify(models[k - 1]),
                off32(models[k - 1].offset),
                p,
                s2,
            );
        lemma_fold_obs(models, k - 1, p1, p2);
        lemma_step_obs(
            crate::hid::spec_classify(models[k - 1]),
            off32(models[k - 1].offset),
            off32(models[k - 1].offset),
            p1,
            s1,
            p2,
            s2,
        );
    }
}

/// A trace that runs past item `k` passed through some state at `k` and
/// stepped over item `k` from it.
proof fn lemma_fold_prefix(models: Seq<crate::hid::RawModel>, m: int, k: int, s: PState)
    requires
        0 <= k < m,
        fold_reaches(models, m, s),
    ensures
        exists|p: PState, q: PState|
            fold_reaches(models, k, p) && #[trigger] item_step(
                crate::hid::spec_classify(models[k]),
                off32(models[k].offset),
                p,
                q,
            ),
    decreases m,
{
    let prev = choose|p: PState|
        fold_reaches(models, m - 1, p) && #[trigger] item_step(
            crate::hid::spec_classify(models[m - 1]),
            off32(models[m - 1].offset),
            p,
            s,
        );
    if k == m - 1 {
        assert(fold_reaches(models, k, prev) && item_step(
            crate::hid::spec_classify(models[k]),
            off32(models[k].offset),
            prev,
            s,
        ));
    } else {
        lemma_fold_prefix(models, m - 1, k, prev);
    }
}

/// The parse of `bytes` runs to completion in state `s`.
pub open spec fn parse_trace(bytes: Seq<u8>, s: PState) -> bool {
    match crate::hid::decode_from(bytes, 0) {
        Ok(ms) => fold_reaches(ms, ms.len() as int, s),
        Err(_) => false,
    }
}

/// Some complete trace parses `bytes` and no direction of its fields
/// mixes report-id presence: the hypothesis under which success is owed.
pub open spec fn clean_trace_exists(bytes: Seq<u8>) -> bool {
    exists|s: PState|
        #[trigger] parse_trace(bytes, s) && (forall|d: Direction| !mixed_ids(s.fields, d))
}

/// Once the compiler rejects item `i` against the state the items so far
/// determine, no trace runs to completion: every trace passes through an
/// observably equal state at `i`, where the compiler decides the same
/// way.
proof fn lemma_no_trace_past_failed_main(
    bytes: Seq<u8>,
    models: Seq<crate::hid::RawModel>,
    i: int,
    mi: MainItem,
    stack: Stack,
    off_before: Offsets,
    off_now: Offsets,
    fields: Seq<Field>,
    off_err: u32,
    e: ParserError,
)
    requires
        crate::hid::decode_from(bytes, 0) == Ok::<Seq<crate::hid::RawModel>, ParserError>(models),
        0 <= i < models.len(),
        crate::hid::spec_classify(models[i]) == crate::hid::ItemType::Main(mi),
        is_data_main(mi),
        off_err == off32(models[i].offset),
        fold_reaches(models, i, PState { stack: stack, offsets: off_before, fields: fields }),
        off_before.inv(),
        main_item_post(mi, stack, off_before, off_now, off_err, Err(e)),
    ensures
        forall|s: PState| !#[trigger] parse_trace(bytes, s),
{
    assert forall|s: PState| !#[trigger] parse_trace(bytes, s) by {
        if parse_trace(bytes, s) {
            assert(fold_reaches(models, models.len() as int, s));
            lemma_fold_prefix(models, models.len() as int, i, s);
            let (p, q) = choose|p: PState, q: PState|
                fold_reaches(models, i, p) && #[trigger] item_step(
                    crate::hid::spec_classify(models[i]),
                    off32(models[i].offset),
                    p,
                    q,
                );
            let exec = PState { stack: stack, offsets: off_before, fields: fields };
            lemma_fold_obs(models, i, p, exec);
            let v = choose|v: Vec<Field>|
                main_item_post(mi, p.stack, p.offsets, q.offsets, off32(models[i].offset), Ok(v))
                    && q.fields == p.fields + v@;
            lemma_main_post_congruence(
                mi,
                stack,
                off_before,
                off_now,
                Err(e),
                off_err,
                p.stack,
                p.offsets,
                q.offsets,
                Ok(v),
                off32(models[i].offset),
            );
            assert(false);
        }
    }
}

/// Once a Pop finds only the initial snapshot, no trace runs to
/// completion: every trace reaches an observably equal stack there, and
/// the step relation admits no Pop at height one.
proof fn lemma_no_trace_past_failed_pop(
    bytes: Seq<u8>,
    models: Seq<crate::hid::RawModel>,
    i: int,
    stack: Stack,
    offs: Offsets,
    fields: Seq<Field>,
)
    requires
        crate::hid::decode_from(bytes, 0) == Ok::<Seq<crate::hid::RawModel>, ParserError>(models),
        0 <= i < models.len(),
        crate::hid::spec_classify(models[i]) == crate::hid::ItemType::Global(
            crate::hid::GlobalItem::Pop,
        ),
        fold_reaches(models, i, PState { stack: stack, offsets: offs, fields: fields }),
        offs.inv(),
        stack.globals@.len() <= 1,
    ensures
        forall|s: PState| !#[trigger] parse_trace(bytes, s),
{
    assert forall|s: PState| !#[trigger] parse_trace(bytes, s) by {
        if parse_trace(bytes, s) {
            assert(fold_reaches(models, models.len() as int, s));
            lemma_fold_prefix(models, models.len() as int, i, s);
            let (p, q) = choose|p: PState, q: PState|
                fold_reaches(models, i, p) && #[trigger] item_step(
                    crate::hid::spec_classify(models[i]),
                    off32(models[i].offset),
                    p,
                    q,
                );
            let exec = PState { stack: stack, offsets: offs, fields: fields };
            lemma_fold_obs(models, i, p, exec);
            assert(p.stack.globals@.len() > 1);
            assert(false);
        }
    }
}

/// A direction the emitted fields mix stays mixed in every complete
/// trace: all traces emit observably the same fields.
proof fn lemma_trace_fields_mixed(
    bytes: Seq<u8>,
    models: Seq<crate::hid::RawModel>,
    stack: Stack,
    offs: Offsets,
    fields: Seq<Field>,
    d: Direction,
)
    requires
        crate::hid::decode_from(bytes, 0) == Ok::<Seq<crate::hid::RawModel>, ParserError>(models),
        fold_reaches(
            models,
            models.len() as int,
            PState { stack: stack, offsets: offs, fields: fields },
        ),
        offs.inv(),
        mixed_ids(fields, d),
    ensures
        forall|s: PState| #[trigger] parse_trace(bytes, s) ==> mixed_ids(s.fields, d),
{
    assert forall|s: PState| #[trigger] parse_trace(bytes, s) implies mixed_ids(s.fields, d) by {
        assert(fold_reaches(models, models.len() as int, s));
        let exec = PState { stack: stack, offsets: offs, fields: fields };
        lemma_fold_obs(models, models.len() as int, s, exec);
        lemma_mixed_field_eq(s.fields, fields, d);
    }
}

/// The descriptor groups exactly the fields the trace emitted: per
/// direction no mixed ids, each report one whole bucket in emission order
/// with the bucket's final offset as its size, and a report for every
/// nonempty bucket.
pub open spec fn assembled_from(rd: ReportDescriptor, s: PState) -> bool {
    &&& forall|d: Direction| !#[trigger] mixed_ids(s.fields, d)
    &&& forall|d: Direction, i: int|
        0 <= i < reports_of(rd, d).len() ==> report_ok(
            #[trigger] reports_of(rd, d)[i],
            s.fields,
            s.offsets,
            d,
        )
    &&& forall|d: Direction, id: Option<ReportId>|
        #[trigger] bucket_of(s.fields, d, id).len() > 0 ==> exists|i: int|
            0 <= i < reports_of(rd, d).len() && rid_of(#[trigger] reports_of(rd, d)[i].id) == id
}

/// The reports of one direction.
pub open spec fn reports_of(rd: ReportDescriptor, d: Direction) -> Seq<Report> {
    match d {
        Direction::Input => rd.input_reports@,
        Direction::Output => rd.output_reports@,
        Direction::Feature => rd.feature_reports@,
    }
}

/// The contract of a whole parse. A descriptor too short for its last
/// item fails with `OutOfBounds`, and that is the only error adversarial
/// truncation can cause; every semantic rejection is `InvalidData`.
/// Success is owed: whenever a complete trace of the step relation
/// parses the bytes and no direction of its fields mixes report-id
/// presence, the function returns `Ok` — and any `Ok` descriptor is the
/// grouping of such a trace's fields and satisfies every direction's
/// layout laws. A well-formed descriptor whose items are all benign
/// parses to an empty descriptor.
pub open spec fn parse_post(bytes: Seq<u8>, r: Result<ReportDescriptor, ParserError>) -> bool {
    match r {
        Ok(rd) => {
            &&& crate::hid::decode_from(bytes, 0) is Ok
            &&& forall|d: Direction| dir_reports_ok(#[trigger] reports_of(rd, d), d)
            &&& (exists|s: PState| #[trigger] parse_trace(bytes, s) && assembled_from(rd, s))
            &&& (all_benign(bytes) ==> forall|d: Direction| (#[trigger] reports_of(rd, d)).len()
                == 0)
        },
        Err(e) => {
            &&& ((e is OutOfBounds) <==> (crate::hid::decode_from(bytes, 0) is Err))
            &&& !all_benign(bytes)
            &&& (crate::hid::decode_from(bytes, 0) is Ok ==> !clean_trace_exists(bytes))
        },
    }
}

/// The parse is deterministic in outcome: any two results the parse
/// contract admits for the same bytes — two calls, or the entry point
/// beside the parser itself — agree on success, and on failure carry the
/// same error kind.
pub proof fn lemma_parse_deterministic_kind(
    bytes: Seq<u8>,
    r1: Result<ReportDescriptor, ParserError>,
    r2: Result<ReportDescriptor, ParserError>,
)
    requires
        parse_post(bytes, r1),
        parse_post(bytes, r2),
    ensures
        (r1 is Ok) == (r2 is Ok),
        (r1 is Err && r2 is Err) ==> ((r1.unwrap_err() is OutOfBounds) == (r2.unwrap_err()
            is OutOfBounds)),
{
    if r1 is Ok && r2 is Err {
        let s = choose|s: PState|
            #[trigger] parse_trace(bytes, s) && assembled_from(r1.unwrap(), s);
        assert(parse_trace(bytes, s) && (forall|d: Direction| !mixed_ids(s.fields, d)));
        assert(clean_trace_exists(bytes));
        assert(false);
    }
    if r2 is Ok && r1 is Err {
        let s = choose|s: PState|
            #[trigger] parse_trace(bytes, s) && assembled_from(r2.unwrap(), s);
        assert(parse_trace(bytes, s) && (forall|d: Direction| !mixed_ids(s.fields, d)));
        assert(clean_trace_exists(bytes));
        assert(false);
    }
}

/// Two reports with the same id, the same size, and observably equal
/// fields.
pub open spec fn report_matches(a: Report, b: Report) -> bool {
    &&& a.id == b.id
    &&& a.size == b.size
    &&& seq_field_eq(a.items@, b.items@)
}

/// Direction `d` of descriptor `rd` holds a report matching `rp`.
pub open spec fn has_matching_report(rd: ReportDescriptor, d: Direction, rp: Report) -> bool {
    exists|j: int|
        0 <= j < reports_of(rd, d).len() && report_matches(rp, #[trigger] reports_of(rd, d)[j])
}

/// The parse is deterministic in substance: any two descriptors the
/// contract admits for the same bytes carry, direction for direction, the
/// same reports — same ids, same sizes, observably equal fields. Applied
/// both ways round it makes the two report sets coincide.
pub proof fn lemma_parse_deterministic_tree(
    bytes: Seq<u8>,
    rd1: ReportDescriptor,
    rd2: ReportDescriptor,
)
    requires
        parse_post(bytes, Ok(rd1)),
        parse_post(bytes, Ok(rd2)),
    ensures
        forall|d: Direction, i: int|
            0 <= i < reports_of(rd1, d).len() ==> has_matching_report(
                rd2,
                d,
                #[trigger] reports_of(rd1, d)[i],
            ),
{
    let s1 = choose|s: PState| #[trigger] parse_trace(bytes, s) && assembled_from(rd1, s);
    let s2 = choose|s: PState| #[trigger] parse_trace(bytes, s) && assembled_from(rd2, s);
    match crate::hid::decode_from(bytes, 0) {
        Ok(ms) => {
            assert(fold_reaches(ms, ms.len() as int, s1));
            assert(fold_reaches(ms, ms.len() as int, s2));
            lemma_fold_obs(ms, ms.len() as int, s1, s2);
        },
        Err(_) => {
            assert(false);
        },
    }
    assert forall|d: Direction, i: int|
        0 <= i < reports_of(rd1, d).len() implies has_matching_report(
        rd2,
        d,
        #[trigger] reports_of(rd1, d)[i],
    ) by {
        let rp = reports_of(rd1, d)[i];
        let rid = rid_of(rp.id);
        assert(report_ok(rp, s1.fields, s1.offsets, d));
        lemma_bucket_field_eq(s1.fields, s2.fields, d, rid);
        assert(bucket_of(s2.fields, d, rid).len() > 0);
        let j = choose|j: int|
            0 <= j < reports_of(rd2, d).len() && rid_of(
                #[trigger] reports_of(rd2, d)[j].id,
            ) == rid;
        let rq = reports_of(rd2, d)[j];
        assert(report_ok(rq, s2.fields, s2.offsets, d));
        assert(rq.id == rp.id) by {
            match rp.id {
                Some(_) => {
                    assert(rq.id is Some);
                },
                None => {
                    assert(rq.id is None);
                },
            }
        }
        assert(rq.size == rp.size) by {
            assert(s1.offsets.lookup(d, rid) == s2.offsets.lookup(d, rid));
        }
        assert(seq_field_eq(rp.items@, rq.items@)) by {
            lemma_seq_field_eq_trans(rp.items@, bucket_of(s1.fields, d, rid), bucket_of(
                s2.fields,
                d,
                rid,
            ));
            lemma_seq_field_eq_symm(rq.items@, bucket_of(s2.fields, d, rid));
            lemma_seq_field_eq_trans(rp.items@, bucket_of(s2.fields, d, rid), rq.items@);
        }
        assert(report_matches(reports_of(rd1, d)[i], reports_of(rd2, d)[j]));
        assert(has_matching_report(rd2, d, reports_of(rd1, d)[i]));
    }
}

/// Decoding fails only by running out of bytes.
pub proof fn lemma_decode_err_oob(bytes: Seq<u8>, pos: int)
    requires
        0 <= pos <= bytes.len(),
        crate::hid::decode_from(bytes, pos) is Err,
    ensures
        crate::hid::decode_from(bytes, pos) == Err::<Seq<crate::hid::RawModel>, ParserError>(
            ParserError::OutOfBounds,
        ),
    decreases bytes.len() - pos,
{
    if pos < bytes.len() {
        match crate::hid::decode_step(bytes, pos) {
            Err(_) => {},
            Ok((m, next)) => {
                if pos < next <= bytes.len() {
                    lemma_decode_err_oob(bytes, next);
                }
            },
        }
    }
}

/// A direction assembled from well-grouped reports satisfies its layout
/// laws.
proof fn lemma_dir_ok(rs: Seq<Report>, fields: Seq<Field>, offs: Offsets, d: Direction)
    requires
        forall|i: int| 0 <= i < rs.len() ==> report_ok(#[trigger] rs[i], fields, offs, d),
        forall|i: int, j: int|
            0 <= i < j < rs.len() ==> id_lt(#[trigger] rs[i].id, #[trigger] rs[j].id),
        forall|i: int, j: int|
            0 <= i < rs.len() && 0 <= j < rs.len() ==> ((#[trigger] rs[i].id) is Some <==> (
            #[trigger] rs[j].id) is Some),
        forall|d2: Direction, id2: Option<ReportId>|
            tiles(#[trigger] bucket_of(fields, d2, id2), offs.lookup(d2, id2)),
    ensures
        dir_reports_ok(rs, d),
{
    assert forall|i: int| 0 <= i < rs.len() implies tiles(
        (#[trigger] rs[i]).items@,
        rs[i].size as nat,
    ) by {
        let bk = bucket_of(fields, d, rid_of(rs[i].id));
        assert(tiles(bk, offs.lookup(d, rid_of(rs[i].id))));
        lemma_tiles_field_eq(rs[i].items@, bk, 0, offs.lookup(d, rid_of(rs[i].id)));
    }
    assert forall|i: int, k: int|
        0 <= i < rs.len() && 0 <= k < rs[i].items@.len() implies in_bucket(
        #[trigger] rs[i].items@[k],
        d,
        rid_of(rs[i].id),
    ) by {
        let bk = bucket_of(fields, d, rid_of(rs[i].id));
        lemma_bucket_members(fields, d, rid_of(rs[i].id));
        lemma_field_eq_attrs(rs[i].items@[k], bk[k]);
    }
}

/// With nothing emitted there is nothing to group.
proof fn lemma_empty_fields_no_reports(rs: Seq<Report>, fields: Seq<Field>, offs: Offsets, d: Direction)
    requires
        fields.len() == 0,
        forall|i: int| 0 <= i < rs.len() ==> report_ok(#[trigger] rs[i], fields, offs, d),
    ensures
        rs.len() == 0,
{
    if rs.len() > 0 {
        let rp = rs[0];
        assert(report_ok(rp, fields, offs, d));
        assert(bucket_of(fields, d, rid_of(rp.id)) =~= Seq::<Field>::empty());
        assert(false);
    }
}

/// Parse a report descriptor: decode the items, fold them over the
/// stacked state, and group the emitted fields into per-direction
/// reports.
#[verifier::rlimit(100)]
pub fn parse_report_descriptor(bytes: &[u8]) -> (r: Result<ReportDescriptor, ParserError>)
    ensures
        parse_post(bytes@, r),
{
    let items = match crate::hid::decode_items(bytes) {
        Ok(v) => v,
        Err(e) => {
            proof {
                lemma_decode_err_oob(bytes@, 0);
            }
            return Err(e);
        },
    };
    let ghost models = crate::hid::raw_views(items@);
    let mut stack = Stack::new();
    let mut offsets = Offsets::new();
    let mut fields: Vec<Field> = Vec::new();
    proof {
        assert forall|d: Direction, id: Option<ReportId>| tiles(
            #[trigger] bucket_of(fields@, d, id),
            offsets.lookup(d, id),
        ) by {
            assert(bucket_of(fields@, d, id) =~= Seq::<Field>::empty());
        }
        assert(initial_state(PState { stack: stack, offsets: offsets, fields: fields@ }));
    }
    let n = items.len();
    let mut i: usize = 0;
    while i < n
        invariant
            n == items@.len(),
            i <= n,
            stack.inv(),
            offsets.inv(),
            models == crate::hid::raw_views(items@),
            crate::hid::decode_from(bytes@, 0) == Ok::<Seq<crate::hid::RawModel>, ParserError>(
                models,
            ),
            forall|j: int| 0 <= j < items@.len() ==> (#[trigger] items@[j]).wf(),
            forall|d: Direction, id: Option<ReportId>|
                tiles(#[trigger] bucket_of(fields@, d, id), offsets.lookup(d, id)),
            (forall|j: int| 0 <= j < models.len() ==> benign_item(#[trigger] models[j]))
                ==> fields@.len() == 0,
            fold_reaches(models, i as int, PState { stack: stack, offsets: offsets, fields: fields@ }),
        decreases n - i,
    {
        let it = &items[i];
        let ghost s_prev = PState { stack: stack, offsets: offsets, fields: fields@ };
        proof {
            assert(models[i as int] == it@);
        }
        let t = crate::hid::classify(it);
        let off_err: u32 = if it.offset > u32::MAX as usize {
            u32::MAX
        } else {
            it.offset as u32
        };
        match t {
            crate::hid::ItemType::Main(crate::hid::MainItem::Collection(c)) => {
                stack.collections.push(Collection(c));
                stack.reset_locals();
            },
            crate::hid::ItemType::Main(crate::hid::MainItem::EndCollection) => {
                let _ = stack.collections.pop();
                stack.reset_locals();
            },
            crate::hid::ItemType::Main(crate::hid::MainItem::Reserved) => {},
            crate::hid::ItemType::Main(mi) => {
                let ghost off_before = offsets;
                let ghost pre_fields = fields@;
                let ghost d0 = main_direction(mi);
                let ghost id0 = stack.globals@.last().report_id;
                let res = handle_main_item(&mi, &stack, &mut offsets, off_err);
                proof {
                    assert(!benign_item(models[i as int]));
                    if res is Ok {
                        lemma_main_fields_tile(mi, stack, off_before, offsets, off_err, res);
                    }
                }
                match res {
                    Ok(mut v) => {
                        let ghost vg = v;
                        proof {
                            let newf = v@;
                            assert forall|d: Direction, id: Option<ReportId>| tiles(
                                #[trigger] bucket_of(pre_fields + newf, d, id),
                                offsets.lookup(d, id),
                            ) by {
                                lemma_bucket_add(pre_fields, newf, d, id);
                                if d == d0 && id == id0 {
                                    lemma_bucket_all(newf, d, id);
                                    lemma_tiles_concat(
                                        bucket_of(pre_fields, d, id),
                                        newf,
                                        0,
                                        off_before.lookup(d, id),
                                        offsets.lookup(d, id),
                                    );
                                } else {
                                    lemma_bucket_none(newf, d, id);
                                    assert(bucket_of(pre_fields, d, id) + Seq::<Field>::empty()
                                        =~= bucket_of(pre_fields, d, id));
                                }
                            }
                        }
                        fields.append(&mut v);
                        stack.reset_locals();
                        proof {
                            let s_now = PState {
                                stack: stack,
                                offsets: offsets,
                                fields: fields@,
                            };
                            assert(main_item_post(
                                mi,
                                s_prev.stack,
                                s_prev.offsets,
                                s_now.offsets,
                                off_err,
                                Ok(vg),
                            ));
                            assert(s_now.fields == s_prev.fields + vg@);
                            assert(item_step(t, off_err, s_prev, s_now));
                        }
                    },
                    Err(e) => {
                        proof {
                            assert(!(e is OutOfBounds));
                            lemma_not_benign_witness(bytes@, models, i as int);
                            assert(off_err == off32(models[i as int].offset));
                            assert(offsets.inv());
                            lemma_no_trace_past_failed_main(
                                bytes@,
                                models,
                                i as int,
                                mi,
                                stack,
                                s_prev.offsets,
                                offsets,
                                s_prev.fields,
                                off_err,
                                e,
                            );
                            assert(!clean_trace_exists(bytes@)) by {
                                if clean_trace_exists(bytes@) {
                                    let s_c = choose|s: PState|
                                        #[trigger] parse_trace(bytes@, s) && (forall|
                                            d: Direction,
                                        |
                                            !mixed_ids(s.fields, d));
                                    assert(false);
                                }
                            }
                        }
                        return Err(e);
                    },
                }
            },
            crate::hid::ItemType::Global(crate::hid::GlobalItem::UsagePage(x)) => {
                let gl = stack.globals();
                gl.usage_page = Some(x);
            },
            crate::hid::ItemType::Global(crate::hid::GlobalItem::LogicalMinimum(x)) => {
                let gl = stack.globals();
                gl.logical_minimum = Some(x);
            },
            crate::hid::ItemType::Global(crate::hid::GlobalItem::LogicalMaximum(x)) => {
                let gl = stack.globals();
                gl.logical_maximum = Some(x);
            },
            crate::hid::ItemType::Global(crate::hid::GlobalItem::PhysicalMinimum(x)) => {
                let gl = stack.globals();
                gl.physical_minimum = Some(x);
            },
            crate::hid::ItemType::Global(crate::hid::GlobalItem::PhysicalMaximum(x)) => {
                let gl = stack.globals();
                gl.physical_maximum = Some(x);
            },
            crate::hid::ItemType::Global(crate::hid::GlobalItem::UnitExponent(x)) => {
                let gl = stack.globals();
                gl.unit_exponent = Some(x);
            },
            crate::hid::ItemType::Global(crate::hid::GlobalItem::Unit(x)) => {
                let gl = stack.globals();
                gl.unit = Some(x);
            },
            crate::hid::ItemType::Global(crate::hid::GlobalItem::ReportSize(x)) => {
                let gl = stack.globals();
                gl.report_size = Some(x);
            },
            crate::hid::ItemType::Global(crate::hid::GlobalItem::ReportId(x)) => {
                let gl = stack.globals();
                gl.report_id = Some(x);
            },
            crate::hid::ItemType::Global(crate::hid::GlobalItem::ReportCount(x)) => {
                let gl = stack.globals();
                gl.report_count = Some(x);
            },
            crate::hid::ItemType::Global(crate::hid::GlobalItem::Push) => {
                stack.push();
            },
            crate::hid::ItemType::Global(crate::hid::GlobalItem::Pop) => {
                if !stack.pop() {
                    proof {
                        assert(!benign_item(models[i as int]));
                        lemma_not_benign_witness(bytes@, models, i as int);
                        assert(stack.globals@.len() <= 1);
                        lemma_no_trace_past_failed_pop(
                            bytes@,
                            models,
                            i as int,
                            stack,
                            s_prev.offsets,
                            s_prev.fields,
                        );
                        assert(!clean_trace_exists(bytes@)) by {
                            if clean_trace_exists(bytes@) {
                                let s_c = choose|s: PState|
                                    #[trigger] parse_trace(bytes@, s) && (forall|d: Direction|
                                        !mixed_ids(s.fields, d));
                                assert(false);
                            }
                        }
                    }
                    return Err(invalid(off_err, 0, "pop from a globals stack of height one"));
                }
            },
            crate::hid::ItemType::Global(crate::hid::GlobalItem::Reserved) => {},
            crate::hid::ItemType::Local(crate::hid::LocalItem::Usage { usage_page, usage_id }) => {
                let lo = stack.locals();
                lo.usages.push(LocalUsage { usage_page, usage_id });
            },
            crate::hid::ItemType::Local(crate::hid::LocalItem::UsageMinimum(x)) => {
                let lo = stack.locals();
                lo.usage_minimum = Some(x);
            },
            crate::hid::ItemType::Local(crate::hid::LocalItem::UsageMaximum(x)) => {
                let lo = stack.locals();
                lo.usage_maximum = Some(x);
            },
            crate::hid::ItemType::Local(crate::hid::LocalItem::DesignatorIndex(x)) => {
                let lo = stack.locals();
                lo.designator_index = Some(x);
            },
            crate::hid::ItemType::Local(crate::hid::LocalItem::DesignatorMinimum(x)) => {
                let lo = stack.locals();
                lo.designator_minimum = Some(x);
            },
            crate::hid::ItemType::Local(crate::hid::LocalItem::DesignatorMaximum(x)) => {
                let lo = stack.locals();
                lo.designator_maximum = Some(x);
            },
            crate::hid::ItemType::Local(crate::hid::LocalItem::StringIndex(x)) => {
                let lo = stack.locals();
                lo.string_index = Some(x);
            },
            crate::hid::ItemType::Local(crate::hid::LocalItem::StringMinimum(x)) => {
                let lo = stack.locals();
                lo.string_minimum = Some(x);
            },
            crate::hid::ItemType::Local(crate::hid::LocalItem::StringMaximum(x)) => {
                let lo = stack.locals();
                lo.string_maximum = Some(x);
            },
            crate::hid::ItemType::Local(crate::hid::LocalItem::Delimiter(x)) => {
                let lo = stack.locals();
                lo.delimiter = Some(x);
            },
            crate::hid::ItemType::Local(crate::hid::LocalItem::Reserved) => {},
            crate::hid::ItemType::Long => {},
            crate::hid::ItemType::Reserved => {},
        }
        proof {
            let s_now = PState { stack: stack, offsets: offsets, fields: fields@ };
            assert(models.len() == items@.len());
            assert(off_err == off32(models[i as int].offset));
            assert(item_step(t, off_err, s_prev, s_now));
            assert(item_step(
                crate::hid::spec_classify(models[i as int]),
                off32(models[i as int].offset),
                s_prev,
                s_now,
            ));
            lemma_fold_step(models, i as int, s_prev, s_now);
        }
        i = i + 1;
    }
    let input_reports = match assemble_direction(&fields, &offsets, Direction::Input) {
        Ok(v) => v,
        Err(e) => {
            proof {
                lemma_parse_mixed_not_benign(bytes@, models, fields@, Direction::Input);
                assert(models.len() == items@.len());
                lemma_trace_fields_mixed(bytes@, models, stack, offsets, fields@, Direction::Input);
                assert(!clean_trace_exists(bytes@)) by {
                    if clean_trace_exists(bytes@) {
                        let s_c = choose|s: PState|
                            #[trigger] parse_trace(bytes@, s) && (forall|d: Direction|
                                !mixed_ids(s.fields, d));
                        assert(mixed_ids(s_c.fields, Direction::Input));
                        assert(false);
                    }
                }
            }
            return Err(e);
        },
    };
    let output_reports = match assemble_direction(&fields, &offsets, Direction::Output) {
        Ok(v) => v,
        Err(e) => {
            proof {
                lemma_parse_mixed_not_benign(bytes@, models, fields@, Direction::Output);
                assert(models.len() == items@.len());
                lemma_trace_fields_mixed(bytes@, models, stack, offsets, fields@, Direction::Output);
                assert(!clean_trace_exists(bytes@)) by {
                    if clean_trace_exists(bytes@) {
                        let s_c = choose|s: PState|
                            #[trigger] parse_trace(bytes@, s) && (forall|d: Direction|
                                !mixed_ids(s.fields, d));
                        assert(mixed_ids(s_c.fields, Direction::Output));
                        assert(false);
                    }
                }
            }
            return Err(e);
        },
    };
    let feature_reports = match assemble_direction(&fields, &offsets, Direction::Feature) {
        Ok(v) => v,
        Err(e) => {
            proof {
                lemma_parse_mixed_not_benign(bytes@, models, fields@, Direction::Feature);
                assert(models.len() == items@.len());
                lemma_trace_fields_mixed(bytes@, models, stack, offsets, fields@, Direction::Feature);
                assert(!clean_trace_exists(bytes@)) by {
                    if clean_trace_exists(bytes@) {
                        let s_c = choose|s: PState|
                            #[trigger] parse_trace(bytes@, s) && (forall|d: Direction|
                                !mixed_ids(s.fields, d));
                        assert(mixed_ids(s_c.fields, Direction::Feature));
                        assert(false);
                    }
                }
            }
            return Err(e);
        },
    };
    let rd = ReportDescriptor { input_reports, output_reports, feature_reports };
    proof {
        let s_fin = PState { stack: stack, offsets: offsets, fields: fields@ };
        assert(s_fin.fields == fields@);
        assert(s_fin.offsets == offsets);
        assert(parse_trace(bytes@, s_fin));
        assert forall|d: Direction| !#[trigger] mixed_ids(s_fin.fields, d) by {
            // the three assemblies each ruled out mixed ids for their direction
            assert(d == Direction::Input || d == Direction::Output || d == Direction::Feature);
        }
        assert forall|d: Direction, i2: int|
            0 <= i2 < reports_of(rd, d).len() implies report_ok(
            #[trigger] reports_of(rd, d)[i2],
            s_fin.fields,
            s_fin.offsets,
            d,
        ) by {
            if d == Direction::Input {
                assert(reports_of(rd, d) == rd.input_reports@);
            } else if d == Direction::Output {
                assert(reports_of(rd, d) == rd.output_reports@);
            } else {
                assert(reports_of(rd, d) == rd.feature_reports@);
            }
        }
        assert forall|d: Direction, id: Option<ReportId>|
            #[trigger] bucket_of(s_fin.fields, d, id).len() > 0 implies exists|i2: int|
            0 <= i2 < reports_of(rd, d).len() && rid_of(#[trigger] reports_of(rd, d)[i2].id)
            == id by {
            assert(bucket_of(fields@, d, id).len() > 0);
            if d == Direction::Input {
                assert(reports_of(rd, d) == rd.input_reports@);
            } else if d == Direction::Output {
                assert(reports_of(rd, d) == rd.output_reports@);
            } else {
                assert(reports_of(rd, d) == rd.feature_reports@);
            }
        }
        assert(assembled_from(rd, s_fin));
        lemma_dir_ok(rd.input_reports@, fields@, offsets, Direction::Input);
        lemma_dir_ok(rd.output_reports@, fields@, offsets, Direction::Output);
        lemma_dir_ok(rd.feature_reports@, fields@, offsets, Direction::Feature);
        assert forall|d: Direction| dir_reports_ok(#[trigger] reports_of(rd, d), d) by {
            if d == Direction::Input {
                assert(reports_of(rd, d) == rd.input_reports@);
            } else if d == Direction::Output {
                assert(reports_of(rd, d) == rd.output_reports@);
            } else {
                assert(reports_of(rd, d) == rd.feature_reports@);
            }
        }
        if all_benign(bytes@) {
            lemma_benign_models(bytes@, models);
            assert(fields@.len() == 0);
            lemma_empty_fields_no_reports(rd.input_reports@, fields@, offsets, Direction::Input);
            lemma_empty_fields_no_reports(rd.output_reports@, fields@, offsets, Direction::Output);
            lemma_empty_fields_no_reports(
                rd.feature_reports@,
                fields@,
                offsets,
                Direction::Feature,
            );
            assert forall|d: Direction| (#[trigger] reports_of(rd, d)).len() == 0 by {
                if d == Direction::Input {
                    assert(reports_of(rd, d) == rd.input_reports@);
                } else if d == Direction::Output {
                    assert(reports_of(rd, d) == rd.output_reports@);
                } else {
                    assert(reports_of(rd, d) == rd.feature_reports@);
                }
            }
        }
    }
    Ok(rd)
}

/// When every decoded item is benign, that holds of the decoded models.
proof fn lemma_benign_models(bytes: Seq<u8>, models: Seq<crate::hid::RawModel>)
    requires
        crate::hid::decode_from(bytes, 0) == Ok::<Seq<crate::hid::RawModel>, ParserError>(models),
        all_benign(bytes),
    ensures
        forall|j: int| 0 <= j < models.len() ==> benign_item(#[trigger] models[j]),
{
    match crate::hid::decode_from(bytes, 0) {
        Ok(ms) => {
            assert(ms == models);
            assert forall|j: int| 0 <= j < models.len() implies benign_item(
                #[trigger] models[j],
            ) by {
                assert(benign_item(ms[j]));
            }
        },
        Err(_) => {},
    }
}

/// One non-benign item refutes `all_benign`.
proof fn lemma_not_benign_witness(bytes: Seq<u8>, models: Seq<crate::hid::RawModel>, i: int)
    requires
        crate::hid::decode_from(bytes, 0) == Ok::<Seq<crate::hid::RawModel>, ParserError>(models),
        0 <= i < models.len(),
        !benign_item(models[i]),
    ensures
        !all_benign(bytes),
{
    if all_benign(bytes) {
        lemma_benign_models(bytes, models);
    }
}

/// A direction that mixes fields with and without report ids emitted at
/// least one field, so some item was not benign.
proof fn lemma_parse_mixed_not_benign(
    bytes: Seq<u8>,
    models: Seq<crate::hid::RawModel>,
    fields: Seq<Field>,
    d: Direction,
)
    requires
        crate::hid::decode_from(bytes, 0) == Ok::<Seq<crate::hid::RawModel>, ParserError>(models),
        (forall|j: int| 0 <= j < models.len() ==> benign_item(#[trigger] models[j]))
            ==> fields.len() == 0,
        mixed_ids(fields, d),
    ensures
        !all_benign(bytes),
{
    if all_benign(bytes) {
        lemma_benign_models(bytes, models);
        assert(fields.len() == 0);
        let i = choose|i: int|
            0 <= i < fields.len() && (#[trigger] fields[i]).spec_direction() == d && ((
            fields[i].spec_report_id() is Some) == true);
        assert(false);
    }
}

impl ReportDescriptor {
    /// Parse a descriptor from its raw bytes.
    pub fn try_from(bytes: &[u8]) -> (r: Result<ReportDescriptor, ParserError>)
        ensures
            parse_post(bytes@, r),
    {
        parse_report_descriptor(bytes)
    }
}

/// In one report, earlier fields end strictly before later fields start:
/// bit ranges never overlap.
#[verifier::rlimit(100)]
pub proof fn lemma_fields_disjoint(fs: Seq<Field>, total: nat, i: int, j: int)
    requires
        tiles(fs, total),
        0 <= i < j < fs.len(),
    ensures
        fs[i].spec_bits().end < fs[j].spec_bits().start,
    decreases j - i,
{
    assert(fs[j].spec_bits().start as nat == (fs[j - 1].spec_bits().end + 1) as nat);
    if j > i + 1 {
        lemma_fields_disjoint(fs, total, i, j - 1);
    }
}

/// Fields of a report, in emission order, have strictly increasing start
/// bits.
pub proof fn lemma_monotonic_offsets(fs: Seq<Field>, total: nat, i: int, j: int)
    requires
        tiles(fs, total),
        0 <= i < j < fs.len(),
    ensures
        fs[i].spec_bits().start < fs[j].spec_bits().start,
{
    lemma_fields_disjoint(fs, total, i, j);
}

/// Every bit of `[base, total)` lies inside some field of the paving.
proof fn lemma_coverage_from(fs: Seq<Field>, base: nat, total: nat, b: nat)
    requires
        tiles_from(fs, base, total),
        base <= b < total,
    ensures
        exists|k: int|
            0 <= k < fs.len() && (#[trigger] fs[k]).spec_bits().start <= b <= fs[
                k
            ].spec_bits().end,
    decreases fs.len(),
{
    assert(fs.len() > 0);
    if b >= fs.last().spec_bits().start {
        let k = fs.len() - 1;
        assert(fs[k].spec_bits().start <= b <= fs[k].spec_bits().end);
    } else {
        let prefix = fs.drop_last();
        let mid = fs.last().spec_bits().start as nat;
        assert(tiles_from(prefix, base, mid)) by {
            if prefix.len() > 0 {
                assert(prefix[0] == fs[0]);
            }
            assert forall|k: int|
                #![trigger prefix[k], prefix[k - 1]]
                1 <= k < prefix.len() implies prefix[k].spec_bits().start as nat == (prefix[k
                - 1].spec_bits().end + 1) as nat by {
                assert(prefix[k] == fs[k]);
                assert(prefix[k - 1] == fs[k - 1]);
            }
            assert forall|k: int|
                0 <= k < prefix.len() implies (#[trigger] prefix[k]).spec_bits().start <= prefix[
                k
            ].spec_bits().end by {
                assert(prefix[k] == fs[k]);
            }
            if prefix.len() > 0 {
                assert(prefix.last() == fs[fs.len() - 2]);
                assert(fs[fs.len() - 1].spec_bits().start as nat == (fs[fs.len()
                    - 2].spec_bits().end + 1) as nat);
            }
        }
        lemma_coverage_from(prefix, base, mid, b);
        let k = choose|k: int|
            0 <= k < prefix.len() && (#[trigger] prefix[k]).spec_bits().start <= b <= prefix[
                k
            ].spec_bits().end;
        assert(fs[k] == prefix[k]);
    }
}

/// Coverage and disjointness: the fields of a report pave `[0, size)`
/// completely, without overlap, and never reach past the report's size.
#[verifier::rlimit(100)]
pub proof fn lemma_report_coverage(fs: Seq<Field>, total: nat)
    requires
        tiles(fs, total),
    ensures
        forall|i: int, j: int|
            0 <= i < j < fs.len() ==> (#[trigger] fs[i]).spec_bits().end < (
            #[trigger] fs[j]).spec_bits().start,
        forall|k: int| 0 <= k < fs.len() ==> (#[trigger] fs[k]).spec_bits().end < total,
{
    assert forall|i: int, j: int|
        0 <= i < j < fs.len() implies (#[trigger] fs[i]).spec_bits().end < (
    #[trigger] fs[j]).spec_bits().start by {
        lemma_fields_disjoint(fs, total, i, j);
    }
    assert forall|k: int| 0 <= k < fs.len() implies (#[trigger] fs[k]).spec_bits().end
        < total by {
        if k < fs.len() - 1 {
            lemma_fields_disjoint(fs, total, k, fs.len() - 1);
        }
    }
}

/// Coverage: every bit position below the report's size lies inside some
/// field of the report.
pub proof fn lemma_bit_covered(fs: Seq<Field>, total: nat, b: nat)
    requires
        tiles(fs, total),
        b < total,
    ensures
        exists|k: int|
            0 <= k < fs.len() && (#[trigger] fs[k]).spec_bits().start <= b <= fs[
                k
            ].spec_bits().end,
{
    lemma_coverage_from(fs, 0, total, b);
}

/// A report's size is exactly its payload width: the bit after its last
/// field, with the report-id byte never counted.
pub proof fn lemma_report_size_is_payload_width(fs: Seq<Field>, total: nat)
    requires
        tiles(fs, total),
        fs.len() > 0,
    ensures
        total == fs.last().spec_bits().end + 1,
{
}

/// A global item rewrites only the top snapshot: everything below the top
/// of the globals stack stays as it was.
pub proof fn lemma_global_set_keeps_lower(a: PState, b: PState, g1: Globals)
    requires
        global_set(a, b, g1),
    ensures
        b.stack.globals@.len() == a.stack.globals@.len(),
        b.stack.globals@.drop_last() == a.stack.globals@.drop_last(),
{
    assert(b.stack.globals@.drop_last() =~= a.stack.globals@.drop_last());
}

/// Globals mutated between a Push and its balancing Pop are forgotten:
/// when the steps in between leave everything below the pushed snapshot
/// untouched (as every global item does), the Pop restores exactly the
/// globals in force before the Push.
pub proof fn lemma_pop_restores_pre_push(
    a: PState,
    b: PState,
    c: PState,
    d: PState,
    offp: u32,
    offq: u32,
)
    requires
        item_step(crate::hid::ItemType::Global(crate::hid::GlobalItem::Push), offp, a, b),
        c.stack.globals@.len() == b.stack.globals@.len(),
        c.stack.globals@.drop_last() == b.stack.globals@.drop_last(),
        item_step(crate::hid::ItemType::Global(crate::hid::GlobalItem::Pop), offq, c, d),
    ensures
        d.stack.globals@ == a.stack.globals@,
{
    assert(b.stack.globals@.drop_last() =~= a.stack.globals@);
    assert(d.stack.globals@ =~= a.stack.globals@);
}

/// Push/Pop round-trip: a Push duplicates the top globals snapshot and a
/// balancing Pop drops it, so the globals stack after the Pop equals the
/// stack before the Push.
pub proof fn lemma_push_pop_round_trip(s0: Stack, s1: Stack, s2: Stack)
    requires
        s0.inv(),
        s1.globals@ == s0.globals@.push(s0.globals@.last()),
        s2.globals@ == s1.globals@.drop_last(),
    ensures
        s2.globals@ == s0.globals@,
{
    assert(s1.globals@.drop_last() =~= s0.globals@);
}

/// The bucket index, computed.
fn bucket_idx(d: Direction, id: Option<ReportId>) -> (i: usize)
    ensures
        i as int == bucket_index(d, id),
        i < BUCKET_COUNT,
{
    let dn: usize = match d {
        Direction::Input => 0,
        Direction::Output => 1,
        Direction::Feature => 2,
    };
    let idn: usize = match id {
        None => 0,
        Some(r) => 1 + r.0 as usize,
    };
    dn * 257 + idn
}

} // verus!
