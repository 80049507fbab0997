//! The two item layers of a report descriptor.
//!
//! A *short item* packs data length, item type and tag into one prefix byte
//! and is followed by 0, 1, 2 or 4 little-endian payload bytes. A *long
//! item* (prefix `0xFE`) carries an explicit length byte and tag byte; it is
//! recognised and skipped over but never interpreted. The decoder turns the
//! byte stream into [`RawItem`]s; the classifier maps each raw item to a
//! typed [`ItemType`].

use vstd::prelude::*;

use crate::types::Delimiter;
use crate::types::DesignatorIndex;
use crate::types::DesignatorMaximum;
use crate::types::DesignatorMinimum;
use crate::types::LogicalMaximum;
use crate::types::LogicalMinimum;
use crate::types::PhysicalMaximum;
use crate::types::PhysicalMinimum;
use crate::types::ReportCount;
use crate::types::ReportId;
use crate::types::ReportSize;
use crate::types::StringIndex;
use crate::types::StringMaximum;
use crate::types::StringMinimum;
use crate::types::Unit;
use crate::types::UnitExponent;
use crate::types::UsageId;
use crate::types::UsageMaximum;
use crate::types::UsageMinimum;
use crate::types::UsagePage;
use crate::ParserError;

verus! {

/// Little-endian value of up to four payload bytes, zero-extended.
pub open spec fn le_value(data: Seq<u8>) -> nat {
    if data.len() == 0 {
        0
    } else if data.len() == 1 {
        data[0] as nat
    } else if data.len() == 2 {
        (data[0] + 0x100 * (data[1] as nat)) as nat
    } else {
        (data[0] + 0x100 * (data[1] as nat) + 0x1_0000 * (data[2] as nat) + 0x100_0000 * (
        data[3] as nat)) as nat
    }
}

/// Little-endian value of the payload, sign-extended from its declared
/// width (two's complement). An empty payload counts as zero.
pub open spec fn le_signed(data: Seq<u8>) -> int {
    let v = le_value(data);
    if data.len() == 0 {
        0
    } else if data.len() == 1 {
        if v >= 0x80 {
            v - 0x100
        } else {
            v as int
        }
    } else if data.len() == 2 {
        if v >= 0x8000 {
            v - 0x1_0000
        } else {
            v as int
        }
    } else {
        if v >= 0x8000_0000 {
            v - 0x1_0000_0000
        } else {
            v as int
        }
    }
}

/// Payload length encoded in bits 0-1 of a short item prefix: the code 3
/// stands for four bytes.
pub open spec fn short_data_len(prefix: u8) -> nat {
    if prefix % 4 == 3 {
        4
    } else {
        (prefix % 4) as nat
    }
}

/// Item type encoded in bits 2-3 of a short item prefix.
pub open spec fn short_item_type(prefix: u8) -> nat {
    ((prefix / 4) % 4) as nat
}

/// Tag encoded in bits 4-7 of a short item prefix.
pub open spec fn short_tag(prefix: u8) -> nat {
    (prefix / 16) as nat
}

/// Mathematical image of one decoded item.
pub ghost struct RawModel {
    /// Byte offset of the prefix byte inside the descriptor.
    pub offset: int,
    /// The prefix byte itself (`0xFE` for a long item).
    pub prefix: u8,
    /// The payload bytes, in stream order.
    pub data: Seq<u8>,
    /// Whether this was a long item.
    pub is_long: bool,
    /// The tag byte of a long item; zero for short items.
    pub long_tag: u8,
}

/// One decoded item, still untyped: the prefix byte, its byte offset, and
/// the raw payload.
#[derive(Debug)]
pub struct RawItem {
    pub offset: usize,
    pub prefix: u8,
    pub data: Vec<u8>,
    pub is_long: bool,
    pub long_tag: u8,
}

impl View for RawItem {
    type V = RawModel;

    open spec fn view(&self) -> RawModel {
        RawModel {
            offset: self.offset as int,
            prefix: self.prefix,
            data: self.data@,
            is_long: self.is_long,
            long_tag: self.long_tag,
        }
    }
}

impl RawItem {
    /// A decoded short item carries exactly the payload its prefix declares.
    pub open spec fn wf(self) -> bool {
        !self.is_long ==> self.data@.len() == short_data_len(self.prefix)
    }
}

/// What decoding one item starting at `pos` yields: the item and the
/// position of the next one, or `OutOfBounds` when the stream ends before
/// the declared payload does.
pub open spec fn decode_step(bytes: Seq<u8>, pos: int) -> Result<(RawModel, int), ParserError>
    recommends
        0 <= pos < bytes.len(),
{
    let b = bytes[pos];
    if b == 0xFE {
        if pos + 3 > bytes.len() {
            Err(ParserError::OutOfBounds)
        } else {
            let dlen = bytes[pos + 1] as int;
            if pos + 3 + dlen > bytes.len() {
                Err(ParserError::OutOfBounds)
            } else {
                Ok(
                    (
                        RawModel {
                            offset: pos,
                            prefix: b,
                            data: bytes.subrange(pos + 3, pos + 3 + dlen),
                            is_long: true,
                            long_tag: bytes[pos + 2],
                        },
                        pos + 3 + dlen,
                    ),
                )
            }
        }
    } else {
        let dlen = short_data_len(b) as int;
        if pos + 1 + dlen > bytes.len() {
            Err(ParserError::OutOfBounds)
        } else {
            Ok(
                (
                    RawModel {
                        offset: pos,
                        prefix: b,
                        data: bytes.subrange(pos + 1, pos + 1 + dlen),
                        is_long: false,
                        long_tag: 0,
                    },
                    pos + 1 + dlen,
                ),
            )
        }
    }
}

/// The whole item stream from `pos` to the end, or the error the first
/// failing item raises. The inner bounds test only keeps the recursion
/// well-founded; [`lemma_decode_step_advances`] shows it never fails.
pub open spec fn decode_from(bytes: Seq<u8>, pos: int) -> Result<Seq<RawModel>, ParserError>
    decreases bytes.len() - pos,
    when 0 <= pos <= bytes.len()
{
    if pos == bytes.len() {
        Ok(Seq::empty())
    } else {
        match decode_step(bytes, pos) {
            Err(e) => Err(e),
            Ok((m, next)) => if pos < next <= bytes.len() {
                match decode_from(bytes, next) {
                    Ok(rest) => Ok(seq![m] + rest),
                    Err(e) => Err(e),
                }
            } else {
                Err(ParserError::OutOfBounds)
            },
        }
    }
}

/// A successful decode step always moves forward and stays inside the
/// stream, and hands back a well-formed payload.
pub proof fn lemma_decode_step_advances(bytes: Seq<u8>, pos: int)
    requires
        0 <= pos < bytes.len(),
        decode_step(bytes, pos) matches Ok((m, next)),
    ensures
        decode_step(bytes, pos) matches Ok((m, next)) ==> {
            &&& pos < next <= bytes.len()
            &&& (!m.is_long ==> m.data.len() == short_data_len(m.prefix))
        },
{
}

/// The views of a sequence of decoded items.
pub open spec fn raw_views(items: Seq<RawItem>) -> Seq<RawModel> {
    items.map_values(|it: RawItem| it@)
}

/// Decode the single item starting at `pos` and report where the next one
/// begins.
fn read_item(bytes: &[u8], pos: usize) -> (r: Result<(RawItem, usize), ParserError>)
    requires
        pos < bytes@.len(),
    ensures
        match r {
            Ok((item, next)) => {
                &&& decode_step(bytes@, pos as int) == Ok::<_, ParserError>((item@, next as int))
                &&& pos < next <= bytes@.len()
                &&& item.wf()
            },
            Err(e) => decode_step(bytes@, pos as int) == Err::<(RawModel, int), _>(e),
        },
{
    let len = bytes.len();
    let b = *vstd::slice::slice_index_get(bytes, pos);
    if b == 0xFE {
        if len - pos < 3 {
            return Err(ParserError::OutOfBounds);
        }
        let dlen = *vstd::slice::slice_index_get(bytes, pos + 1) as usize;
        let long_tag = *vstd::slice::slice_index_get(bytes, pos + 2);
        if dlen > len - (pos + 3) {
            return Err(ParserError::OutOfBounds);
        }
        let data = vstd::slice::slice_to_vec(
            vstd::slice::slice_subrange(bytes, pos + 3, pos + 3 + dlen),
        );
        let item = RawItem { offset: pos, prefix: b, data, is_long: true, long_tag };
        Ok((item, pos + 3 + dlen))
    } else {
        let code = b % 4;
        let dlen: usize = if code == 3 {
            4
        } else {
            code as usize
        };
        if dlen > len - (pos + 1) {
            return Err(ParserError::OutOfBounds);
        }
        let data = vstd::slice::slice_to_vec(
            vstd::slice::slice_subrange(bytes, pos + 1, pos + 1 + dlen),
        );
        let item = RawItem { offset: pos, prefix: b, data, is_long: false, long_tag: 0 };
        Ok((item, pos + 1 + dlen))
    }
}

/// Decode the whole descriptor into its item sequence.
///
/// Succeeds exactly when every item's declared payload lies inside the
/// stream; the only failure adversarial bytes can provoke is
/// [`ParserError::OutOfBounds`].
pub fn decode_items(bytes: &[u8]) -> (r: Result<Vec<RawItem>, ParserError>)
    ensures
        match r {
            Ok(items) => {
                &&& decode_from(bytes@, 0) == Ok::<_, ParserError>(raw_views(items@))
                &&& forall|i: int| 0 <= i < items@.len() ==> (#[trigger] items@[i]).wf()
            },
            Err(e) => decode_from(bytes@, 0) == Err::<Seq<RawModel>, _>(e),
        },
{
    let len = bytes.len();
    let mut pos: usize = 0;
    let mut items: Vec<RawItem> = Vec::new();
    while pos < len
        invariant
            pos <= len,
            len == bytes@.len(),
            forall|i: int| 0 <= i < items@.len() ==> (#[trigger] items@[i]).wf(),
            decode_from(bytes@, pos as int) matches Ok(rest) ==> decode_from(bytes@, 0)
                == Ok::<_, ParserError>(raw_views(items@) + rest),
            decode_from(bytes@, pos as int) matches Err(e) ==> decode_from(bytes@, 0) == Err::<
                Seq<RawModel>,
                _,
            >(e),
        decreases len - pos,
    {
        match read_item(bytes, pos) {
            Err(e) => {
                return Err(e);
            },
            Ok((item, next)) => {
                proof {
                    let ghost stepped = decode_from(bytes@, next as int);
                    assert(decode_from(bytes@, pos as int) == (match stepped {
                        Ok(rest) => Ok::<_, ParserError>(seq![item@] + rest),
                        Err(e) => Err::<Seq<RawModel>, _>(e),
                    }));
                    if stepped is Ok {
                        assert(raw_views(items@.push(item)) + stepped.unwrap() =~= raw_views(
                            items@,
                        ) + (seq![item@] + stepped.unwrap()));
                    }
                }
                items.push(item);
                pos = next;
            },
        }
    }
    proof {
        assert(decode_from(bytes@, pos as int) == Ok::<_, ParserError>(Seq::<RawModel>::empty()));
        assert(raw_views(items@) + Seq::<RawModel>::empty() =~= raw_views(items@));
    }
    Ok(items)
}

/// The flag bits of a Main Input/Output/Feature payload. Bits beyond the
/// payload's width read as zero, as the wire format prescribes.
#[derive(Clone, Copy, Debug, PartialEq, Eq, Structural)]
pub struct MainDataFlags {
    pub is_constant: bool,
    pub is_variable: bool,
    pub is_relative: bool,
    pub wraps: bool,
    pub non_linear: bool,
    pub no_preferred_state: bool,
    pub has_null_state: bool,
    pub is_volatile: bool,
    pub is_buffered_bytes: bool,
}

/// A Main item: emits fields or opens/closes a collection.
#[derive(Clone, Copy, Debug)]
pub enum MainItem {
    Input(MainDataFlags),
    Output(MainDataFlags),
    Feature(MainDataFlags),
    Collection(u8),
    EndCollection,
    Reserved,
}

/// A Global item: mutates the stacked persistent state.
#[derive(Clone, Copy, Debug)]
pub enum GlobalItem {
    UsagePage(UsagePage),
    LogicalMinimum(LogicalMinimum),
    LogicalMaximum(LogicalMaximum),
    PhysicalMinimum(PhysicalMinimum),
    PhysicalMaximum(PhysicalMaximum),
    UnitExponent(UnitExponent),
    Unit(Unit),
    ReportSize(ReportSize),
    ReportId(ReportId),
    ReportCount(ReportCount),
    Push,
    Pop,
    Reserved,
}

/// A Local item: applies only to the next Main item.
#[derive(Clone, Copy, Debug)]
pub enum LocalItem {
    /// A four-byte payload embeds the page in its high half; shorter
    /// payloads leave the page to be resolved from the globals.
    Usage { usage_page: Option<UsagePage>, usage_id: UsageId },
    UsageMinimum(UsageMinimum),
    UsageMaximum(UsageMaximum),
    DesignatorIndex(DesignatorIndex),
    DesignatorMinimum(DesignatorMinimum),
    DesignatorMaximum(DesignatorMaximum),
    StringIndex(StringIndex),
    StringMinimum(StringMinimum),
    StringMaximum(StringMaximum),
    Delimiter(Delimiter),
    Reserved,
}

/// The typed form of a raw item.
#[derive(Clone, Copy, Debug)]
pub enum ItemType {
    Main(MainItem),
    Global(GlobalItem),
    Local(LocalItem),
    Long,
    Reserved,
}

/// The Main flag booleans encoded in a payload value.
pub open spec fn flags_of(v: nat) -> MainDataFlags {
    MainDataFlags {
        is_constant: v % 2 == 1,
        is_variable: (v / 2) % 2 == 1,
        is_relative: (v / 4) % 2 == 1,
        wraps: (v / 8) % 2 == 1,
        non_linear: (v / 16) % 2 == 1,
        no_preferred_state: (v / 32) % 2 == 1,
        has_null_state: (v / 64) % 2 == 1,
        is_volatile: (v / 128) % 2 == 1,
        is_buffered_bytes: (v / 256) % 2 == 1,
    }
}

/// The typed item a raw item stands for. Unknown tags classify as the
/// Reserved variant of their layer, never as an error.
pub open spec fn spec_classify(m: RawModel) -> ItemType {
    if m.is_long {
        ItemType::Long
    } else {
        let t = short_item_type(m.prefix);
        let tag = short_tag(m.prefix);
        let v = le_value(m.data);
        let s = le_signed(m.data);
        if t == 0 {
            ItemType::Main(
                if tag == 8 {
                    MainItem::Input(flags_of(v))
                } else if tag == 9 {
                    MainItem::Output(flags_of(v))
                } else if tag == 11 {
                    MainItem::Feature(flags_of(v))
                } else if tag == 10 {
                    MainItem::Collection((v % 0x100) as u8)
                } else if tag == 12 {
                    MainItem::EndCollection
                } else {
                    MainItem::Reserved
                },
            )
        } else if t == 1 {
            ItemType::Global(
                if tag == 0 {
                    GlobalItem::UsagePage(UsagePage((v % 0x1_0000) as u16))
                } else if tag == 1 {
                    GlobalItem::LogicalMinimum(LogicalMinimum(s as i32))
                } else if tag == 2 {
                    GlobalItem::LogicalMaximum(LogicalMaximum(s as i32))
                } else if tag == 3 {
                    GlobalItem::PhysicalMinimum(PhysicalMinimum(s as i32))
                } else if tag == 4 {
                    GlobalItem::PhysicalMaximum(PhysicalMaximum(s as i32))
                } else if tag == 5 {
                    GlobalItem::UnitExponent(UnitExponent(s as i32))
                } else if tag == 6 {
                    GlobalItem::Unit(Unit(v as u32))
                } else if tag == 7 {
                    GlobalItem::ReportSize(ReportSize(v as u32))
                } else if tag == 8 {
                    GlobalItem::ReportId(ReportId((v % 0x100) as u8))
                } else if tag == 9 {
                    GlobalItem::ReportCount(ReportCount(v as u32))
                } else if tag == 10 {
                    GlobalItem::Push
                } else if tag == 11 {
                    GlobalItem::Pop
                } else {
                    GlobalItem::Reserved
                },
            )
        } else if t == 2 {
            ItemType::Local(
                if tag == 0 {
                    LocalItem::Usage {
                        usage_page: if m.data.len() == 4 {
                            Some(UsagePage((v / 0x1_0000) as u16))
                        } else {
                            None
                        },
                        usage_id: UsageId((v % 0x1_0000) as u16),
                    }
                } else if tag == 1 {
                    LocalItem::UsageMinimum(UsageMinimum(v as u32))
                } else if tag == 2 {
                    LocalItem::UsageMaximum(UsageMaximum(v as u32))
                } else if tag == 3 {
                    LocalItem::DesignatorIndex(DesignatorIndex(v as u32))
                } else if tag == 4 {
                    LocalItem::DesignatorMinimum(DesignatorMinimum(v as u32))
                } else if tag == 5 {
                    LocalItem::DesignatorMaximum(DesignatorMaximum(v as u32))
                } else if tag == 7 {
                    LocalItem::StringIndex(StringIndex(v as u32))
                } else if tag == 8 {
                    LocalItem::StringMinimum(StringMinimum(v as u32))
                } else if tag == 9 {
                    LocalItem::StringMaximum(StringMaximum(v as u32))
                } else if tag == 10 {
                    LocalItem::Delimiter(Delimiter(v as u32))
                } else {
                    LocalItem::Reserved
                },
            )
        } else {
            ItemType::Reserved
        }
    }
}

/// The little-endian payload value, zero-extended to 32 bits.
fn item_value(data: &Vec<u8>) -> (v: u32)
    requires
        data@.len() == 0 || data@.len() == 1 || data@.len() == 2 || data@.len() == 4,
    ensures
        v == le_value(data@),
{
    match data.len() {
        0 => 0,
        1 => data[0] as u32,
        2 => data[0] as u32 + 0x100 * (data[1] as u32),
        _ => data[0] as u32 + 0x100 * (data[1] as u32) + 0x1_0000 * (data[2] as u32) + 0x100_0000
            * (data[3] as u32),
    }
}

/// The payload value sign-extended from its declared width.
fn item_signed(data: &Vec<u8>) -> (v: i32)
    requires
        data@.len() == 0 || data@.len() == 1 || data@.len() == 2 || data@.len() == 4,
    ensures
        v as int == le_signed(data@),
{
    let raw = item_value(data);
    match data.len() {
        0 => 0,
        1 => {
            if raw >= 0x80 {
                raw as i32 - 0x100
            } else {
                raw as i32
            }
        },
        2 => {
            if raw >= 0x8000 {
                raw as i32 - 0x1_0000
            } else {
                raw as i32
            }
        },
        _ => {
            if raw >= 0x8000_0000 {
                ((raw as i64) - 0x1_0000_0000i64) as i32
            } else {
                raw as i32
            }
        },
    }
}

/// Map one decoded item to its typed form.
pub fn classify(item: &RawItem) -> (t: ItemType)
    requires
        item.wf(),
    ensures
        t == spec_classify(item@),
{
    if item.is_long {
        return ItemType::Long;
    }
    let t = (item.prefix / 4) % 4;
    let tag = item.prefix / 16;
    let v = item_value(&item.data);
    if t == 0 {
        ItemType::Main(
            if tag == 8 {
                MainItem::Input(decode_flags(v))
            } else if tag == 9 {
                MainItem::Output(decode_flags(v))
            } else if tag == 11 {
                MainItem::Feature(decode_flags(v))
            } else if tag == 10 {
                MainItem::Collection((v % 0x100) as u8)
            } else if tag == 12 {
                MainItem::EndCollection
            } else {
                MainItem::Reserved
            },
        )
    } else if t == 1 {
        ItemType::Global(
            if tag == 0 {
                GlobalItem::UsagePage(UsagePage((v % 0x1_0000) as u16))
            } else if tag == 1 {
                GlobalItem::LogicalMinimum(LogicalMinimum(item_signed(&item.data)))
            } else if tag == 2 {
                GlobalItem::LogicalMaximum(LogicalMaximum(item_signed(&item.data)))
            } else if tag == 3 {
                GlobalItem::PhysicalMinimum(PhysicalMinimum(item_signed(&item.data)))
            } else if tag == 4 {
                GlobalItem::PhysicalMaximum(PhysicalMaximum(item_signed(&item.data)))
            } else if tag == 5 {
                GlobalItem::UnitExponent(UnitExponent(item_signed(&item.data)))
            } else if tag == 6 {
                GlobalItem::Unit(Unit(v))
            } else if tag == 7 {
                GlobalItem::ReportSize(ReportSize(v))
            } else if tag == 8 {
                GlobalItem::ReportId(ReportId((v % 0x100) as u8))
            } else if tag == 9 {
                GlobalItem::ReportCount(ReportCount(v))
            } else if tag == 10 {
                GlobalItem::Push
            } else if tag == 11 {
                GlobalItem::Pop
            } else {
                GlobalItem::Reserved
            },
        )
    } else if t == 2 {
        ItemType::Local(
            if tag == 0 {
                LocalItem::Usage {
                    usage_page: if item.data.len() == 4 {
                        Some(UsagePage((v / 0x1_0000) as u16))
                    } else {
                        None
                    },
                    usage_id: UsageId((v % 0x1_0000) as u16),
                }
            } else if tag == 1 {
                LocalItem::UsageMinimum(UsageMinimum(v))
            } else if tag == 2 {
                LocalItem::UsageMaximum(UsageMaximum(v))
            } else if tag == 3 {
                LocalItem::DesignatorIndex(DesignatorIndex(v))
            } else if tag == 4 {
                LocalItem::DesignatorMinimum(DesignatorMinimum(v))
            } else if tag == 5 {
                LocalItem::DesignatorMaximum(DesignatorMaximum(v))
            } else if tag == 7 {
                LocalItem::StringIndex(StringIndex(v))
            } else if tag == 8 {
                LocalItem::StringMinimum(StringMinimum(v))
            } else if tag == 9 {
                LocalItem::StringMaximum(StringMaximum(v))
            } else if tag == 10 {
                LocalItem::Delimiter(Delimiter(v))
            } else {
                LocalItem::Reserved
            },
        )
    } else {
        ItemType::Reserved
    }
}

/// Unpack the Main flag bits of a payload value.
fn decode_flags(v: u32) -> (f: MainDataFlags)
    ensures
        f == flags_of(v as nat),
{
    MainDataFlags {
        is_constant: v % 2 == 1,
        is_variable: (v / 2) % 2 == 1,
        is_relative: (v / 4) % 2 == 1,
        wraps: (v / 8) % 2 == 1,
        non_linear: (v / 16) % 2 == 1,
        no_preferred_state: (v / 32) % 2 == 1,
        has_null_state: (v / 64) % 2 == 1,
        is_volatile: (v / 128) % 2 == 1,
        is_buffered_bytes: (v / 256) % 2 == 1,
    }
}

} // verus!
