use hidparse::hid::decode_items;
use hidparse::parse_report_descriptor;
use hidparse::types::ReportId;
use hidparse::types::UnitExponent;
use hidparse::Collection;
use hidparse::Direction;
use hidparse::Field;
use hidparse::ParserError;
use hidparse::Report;
use hidparse::ReportDescriptor;
use hidparse::VariableField;

fn parse(bytes: &[u8]) -> ReportDescriptor {
    ReportDescriptor::try_from(bytes).expect("descriptor should parse")
}

fn as_var(f: &Field) -> &VariableField {
    match f {
        Field::Variable(v) => v,
        _ => panic!("expected a variable field"),
    }
}

#[test]
fn it_works() {}

#[test]
fn mouse_boot_descriptor() {
    let bytes: Vec<u8> = vec![
        0x05, 0x01, 0x09, 0x02, 0xA1, 0x01, 0x09, 0x01, 0xA1, 0x00, 0x05, 0x09, 0x19, 0x01,
        0x29, 0x03, 0x15, 0x00, 0x25, 0x01, 0x95, 0x03, 0x75, 0x01, 0x81, 0x02, 0x95, 0x01,
        0x75, 0x05, 0x81, 0x03, 0x05, 0x01, 0x09, 0x30, 0x09, 0x31, 0x15, 0x81, 0x25, 0x7F,
        0x75, 0x08, 0x95, 0x02, 0x81, 0x06, 0xC0, 0xC0,
    ];
    let rd = parse(&bytes);
    assert_eq!(rd.input_reports.len(), 1);
    assert_eq!(rd.output_reports.len(), 0);
    assert_eq!(rd.feature_reports.len(), 0);
    let report: &Report = &rd.input_reports[0];
    assert_eq!(report.id, None);
    assert_eq!(report.size, 24);
    assert_eq!(report.items.len(), 6);
    for (k, item) in report.items.iter().take(3).enumerate() {
        let f = as_var(item);
        assert_eq!(f.usage.usage_page.0, 9);
        assert_eq!(f.usage.usage_id.0, (k + 1) as u16);
        assert_eq!(f.bits.start, k);
        assert_eq!(f.bits.end, k);
        assert_eq!(f.logical_range.minimum.0, 0);
        assert_eq!(f.logical_range.maximum.0, 1);
        assert_eq!(f.collections, vec![Collection(1), Collection(0)]);
        assert_eq!(f.report_id, None);
        assert!(matches!(f.direction, Direction::Input));
    }
    match &report.items[3] {
        Field::Constant(c) => {
            assert_eq!(c.bits.start, 3);
            assert_eq!(c.bits.end, 7);
        },
        _ => panic!("expected a constant field"),
    }
    let x = as_var(&report.items[4]);
    assert_eq!(x.usage.usage_page.0, 1);
    assert_eq!(x.usage.usage_id.0, 0x30);
    assert_eq!(x.bits.start, 8);
    assert_eq!(x.bits.end, 15);
    assert_eq!(x.logical_range.minimum.0, -127);
    assert_eq!(x.logical_range.maximum.0, 127);
    let y = as_var(&report.items[5]);
    assert_eq!(y.usage.usage_id.0, 0x31);
    assert_eq!(y.bits.start, 16);
    assert_eq!(y.bits.end, 23);
}

#[test]
fn keyboard_with_report_ids() {
    let bytes: Vec<u8> = vec![
        0x05, 0x01, 0x09, 0x06, 0xA1, 0x01, // keyboard application collection
        0x85, 0x01, // report id 1
        0x05, 0x07, 0x19, 0xE0, 0x29, 0xE7, 0x15, 0x00, 0x25, 0x01, 0x75, 0x01, 0x95, 0x08,
        0x81, 0x02, // 8 modifier bits
        0x85, 0x02, // report id 2
        0x19, 0x00, 0x29, 0xFF, 0x15, 0x00, 0x26, 0xFF, 0x00, 0x75, 0x08, 0x95, 0x01, 0x81,
        0x00, // one key array slot
        0xC0,
    ];
    let rd = parse(&bytes);
    assert_eq!(rd.input_reports.len(), 2);
    let first = &rd.input_reports[0];
    let second = &rd.input_reports[1];
    assert_eq!(first.id, Some(1));
    assert_eq!(first.size, 8);
    assert_eq!(first.items.len(), 8);
    assert_eq!(second.id, Some(2));
    assert_eq!(second.size, 8);
    assert_eq!(second.items.len(), 1);
    match &second.items[0] {
        Field::Array(a) => {
            assert_eq!(a.usages.len(), 256);
            assert_eq!(a.usages[0].usage_page.0, 7);
            assert_eq!(a.usages[255].usage_id.0, 0xFF);
            assert_eq!(a.bits.start, 0);
            assert_eq!(a.bits.end, 7);
            assert_eq!(a.report_id, Some(ReportId(2)));
        },
        _ => panic!("expected an array field"),
    }
}

#[test]
fn push_pop_restores_globals() {
    let bytes: Vec<u8> = vec![
        0x05, 0x01, // usage page 1
        0xA4, // push
        0x05, 0x09, // inner usage page 9
        0x09, 0x01, 0x15, 0x00, 0x25, 0x01, 0x75, 0x01, 0x95, 0x01, 0x81, 0x02,
        0xB4, // pop: back to usage page 1
        0x09, 0x02, 0x15, 0x00, 0x25, 0x01, 0x75, 0x01, 0x95, 0x01, 0x81, 0x02,
    ];
    let rd = parse(&bytes);
    assert_eq!(rd.input_reports.len(), 1);
    let report = &rd.input_reports[0];
    assert_eq!(report.items.len(), 2);
    let inner = as_var(&report.items[0]);
    assert_eq!(inner.usage.usage_page.0, 9);
    assert_eq!(inner.usage.usage_id.0, 1);
    let outer = as_var(&report.items[1]);
    assert_eq!(outer.usage.usage_page.0, 1);
    assert_eq!(outer.usage.usage_id.0, 2);
    assert_eq!(report.size, 2);
}

#[test]
fn inner_scope_sees_parent_usage_page() {
    let bytes: Vec<u8> = vec![
        0x05, 0x01, // usage page 1
        0xA4, // push: inner scope starts from a copy
        0x09, 0x01, 0x15, 0x00, 0x25, 0x01, 0x75, 0x01, 0x95, 0x01, 0x81, 0x02, 0xB4,
    ];
    let rd = parse(&bytes);
    let f = as_var(&rd.input_reports[0].items[0]);
    assert_eq!(f.usage.usage_page.0, 1);
}

#[test]
fn usage_range_expansion() {
    let bytes: Vec<u8> = vec![
        0x05, 0x01, 0x15, 0x00, 0x25, 0x01, 0x19, 0x01, 0x29, 0x05, 0x95, 0x05, 0x75, 0x01,
        0x81, 0x02,
    ];
    let rd = parse(&bytes);
    let report = &rd.input_reports[0];
    assert_eq!(report.items.len(), 5);
    for (k, item) in report.items.iter().enumerate() {
        let f = as_var(item);
        assert_eq!(f.usage.usage_page.0, 1);
        assert_eq!(f.usage.usage_id.0, (k + 1) as u16);
        assert_eq!(f.bits.start, k);
        assert_eq!(f.bits.end, k);
    }
    assert_eq!(report.size, 5);
}

#[test]
fn usage_page_embedded_in_local() {
    let bytes: Vec<u8> = vec![
        0x05, 0x0C, 0x15, 0x00, 0x25, 0x01, 0x75, 0x01, 0x95, 0x01, // globals
        0x0B, 0x30, 0x00, 0x01, 0x00, // usage with embedded page 1, id 0x30
        0x81, 0x02, // field takes the embedded page
        0x09, 0x31, 0x81, 0x02, // next field falls back to the global page
    ];
    let rd = parse(&bytes);
    let report = &rd.input_reports[0];
    assert_eq!(report.items.len(), 2);
    let embedded = as_var(&report.items[0]);
    assert_eq!(embedded.usage.usage_page.0, 1);
    assert_eq!(embedded.usage.usage_id.0, 0x30);
    let global = as_var(&report.items[1]);
    assert_eq!(global.usage.usage_page.0, 0x0C);
    assert_eq!(global.usage.usage_id.0, 0x31);
}

#[test]
fn truncated_input_is_out_of_bounds() {
    // the last item claims two payload bytes but only one remains
    let bytes: Vec<u8> = vec![0x05, 0x01, 0x16, 0x81];
    let r = ReportDescriptor::try_from(&bytes[..]);
    assert!(matches!(r, Err(ParserError::OutOfBounds)));
}

#[test]
fn usage_queue_consumed_in_order() {
    let bytes: Vec<u8> = vec![
        0x05, 0x01, 0x09, 0x30, 0x09, 0x31, 0x15, 0x00, 0x25, 0x01, 0x75, 0x01, 0x95, 0x02,
        0x81, 0x02,
    ];
    let rd = parse(&bytes);
    let report = &rd.input_reports[0];
    assert_eq!(as_var(&report.items[0]).usage.usage_id.0, 0x30);
    assert_eq!(as_var(&report.items[1]).usage.usage_id.0, 0x31);
}

#[test]
fn usages_stick_to_tail() {
    let bytes: Vec<u8> = vec![
        0x05, 0x01, 0x09, 0x30, 0x15, 0x00, 0x25, 0x01, 0x75, 0x01, 0x95, 0x03, 0x81, 0x02,
    ];
    let rd = parse(&bytes);
    let report = &rd.input_reports[0];
    assert_eq!(report.items.len(), 3);
    for item in &report.items {
        assert_eq!(as_var(item).usage.usage_id.0, 0x30);
    }
}

#[test]
fn constant_field_needs_no_usage() {
    let bytes: Vec<u8> = vec![0x05, 0x01, 0x75, 0x01, 0x95, 0x08, 0x81, 0x01];
    let rd = parse(&bytes);
    let report = &rd.input_reports[0];
    assert_eq!(report.size, 8);
    match &report.items[0] {
        Field::Constant(c) => {
            assert_eq!(c.bits.start, 0);
            assert_eq!(c.bits.end, 7);
            assert_eq!(c.report_id, None);
        },
        _ => panic!("expected a constant field"),
    }
}

#[test]
fn output_and_feature_reports_are_separate() {
    let bytes: Vec<u8> = vec![
        0x05, 0x01, 0x09, 0x01, 0x15, 0x00, 0x25, 0x01, 0x75, 0x01, 0x95, 0x01, //
        0x91, 0x02, // output
        0x09, 0x02, 0xB1, 0x02, // feature
    ];
    let rd = parse(&bytes);
    assert_eq!(rd.input_reports.len(), 0);
    assert_eq!(rd.output_reports.len(), 1);
    assert_eq!(rd.feature_reports.len(), 1);
    assert!(matches!(rd.output_reports[0].direction, Direction::Output));
    assert!(matches!(rd.feature_reports[0].direction, Direction::Feature));
    // each direction's bit offsets start at zero
    assert_eq!(as_var(&rd.output_reports[0].items[0]).bits.start, 0);
    assert_eq!(as_var(&rd.feature_reports[0].items[0]).bits.start, 0);
}

#[test]
fn unit_and_exponent_carried() {
    let bytes: Vec<u8> = vec![
        0x05, 0x01, 0x09, 0x01, 0x15, 0x00, 0x25, 0x01, 0x66, 0x11, 0x00, 0x55, 0x0D, 0x75,
        0x01, 0x95, 0x01, 0x81, 0x02,
    ];
    let rd = parse(&bytes);
    let f = as_var(&rd.input_reports[0].items[0]);
    assert_eq!(f.unit.map(|u| u.0), Some(0x11));
    assert_eq!(f.unit_exponent, Some(UnitExponent(0x0D)));
}

#[test]
fn physical_range_needs_both_bounds() {
    let with_both: Vec<u8> = vec![
        0x05, 0x01, 0x09, 0x01, 0x15, 0x00, 0x25, 0x01, 0x35, 0x00, 0x45, 0x64, 0x75, 0x08,
        0x95, 0x01, 0x81, 0x02,
    ];
    let rd = parse(&with_both);
    let f = as_var(&rd.input_reports[0].items[0]);
    let pr = f.physical_range.expect("physical range should be present");
    assert_eq!(pr.minimum.0, 0);
    assert_eq!(pr.maximum.0, 100);

    let with_one: Vec<u8> = vec![
        0x05, 0x01, 0x09, 0x01, 0x15, 0x00, 0x25, 0x01, 0x35, 0x00, 0x75, 0x08, 0x95, 0x01,
        0x81, 0x02,
    ];
    let rd = parse(&with_one);
    let f = as_var(&rd.input_reports[0].items[0]);
    assert!(f.physical_range.is_none());
}

#[test]
fn missing_report_size_is_invalid() {
    let bytes: Vec<u8> = vec![0x05, 0x01, 0x09, 0x01, 0x15, 0x00, 0x25, 0x01, 0x95, 0x01, 0x81, 0x02];
    let r = ReportDescriptor::try_from(&bytes[..]);
    assert!(matches!(r, Err(ParserError::InvalidData { .. })));
}

#[test]
fn missing_usage_is_invalid() {
    let bytes: Vec<u8> = vec![0x05, 0x01, 0x15, 0x00, 0x25, 0x01, 0x75, 0x01, 0x95, 0x01, 0x81, 0x02];
    let r = ReportDescriptor::try_from(&bytes[..]);
    assert!(matches!(r, Err(ParserError::InvalidData { .. })));
}

#[test]
fn zero_count_still_requires_the_globals() {
    // report count 0, but the logical range is missing: rejected, not skipped
    let bytes: Vec<u8> = vec![0x05, 0x01, 0x75, 0x01, 0x95, 0x00, 0x09, 0x01, 0x81, 0x02];
    let r = ReportDescriptor::try_from(&bytes[..]);
    assert!(matches!(r, Err(ParserError::InvalidData { .. })));
}

#[test]
fn zero_count_still_requires_a_usage() {
    // report count 0 and a full logical range, but no usage: rejected
    let bytes: Vec<u8> = vec![
        0x05, 0x01, 0x15, 0x00, 0x25, 0x01, 0x75, 0x01, 0x95, 0x00, 0x81, 0x02,
    ];
    let r = ReportDescriptor::try_from(&bytes[..]);
    assert!(matches!(r, Err(ParserError::InvalidData { .. })));
}

#[test]
fn zero_count_with_valid_state_emits_nothing() {
    let bytes: Vec<u8> = vec![
        0x05, 0x01, 0x09, 0x01, 0x15, 0x00, 0x25, 0x01, 0x75, 0x01, 0x95, 0x00, 0x81, 0x02,
    ];
    let rd = parse(&bytes);
    assert_eq!(rd.input_reports.len(), 0);
}

#[test]
fn zero_count_constant_emits_nothing() {
    let bytes: Vec<u8> = vec![0x05, 0x01, 0x75, 0x01, 0x95, 0x00, 0x81, 0x01];
    let rd = parse(&bytes);
    assert_eq!(rd.input_reports.len(), 0);
}

#[test]
fn collection_boundary_discards_pending_usage() {
    // a Usage queued before a Collection must not survive the boundary:
    // the data Main item inside the collection has no usage and fails
    let bytes: Vec<u8> = vec![
        0x05, 0x01, 0x09, 0x01, // usage queued
        0xA1, 0x01, // collection boundary resets locals
        0x15, 0x00, 0x25, 0x01, 0x75, 0x01, 0x95, 0x01, 0x81, 0x02, 0xC0,
    ];
    let r = ReportDescriptor::try_from(&bytes[..]);
    assert!(matches!(r, Err(ParserError::InvalidData { .. })));
}

#[test]
fn crossed_logical_range_is_invalid() {
    let bytes: Vec<u8> = vec![
        0x05, 0x01, 0x09, 0x01, 0x15, 0x05, 0x25, 0x01, 0x75, 0x01, 0x95, 0x01, 0x81, 0x02,
    ];
    let r = ReportDescriptor::try_from(&bytes[..]);
    assert!(matches!(r, Err(ParserError::InvalidData { .. })));
}

#[test]
fn pop_without_push_is_invalid() {
    let bytes: Vec<u8> = vec![0xB4];
    let r = ReportDescriptor::try_from(&bytes[..]);
    assert!(matches!(r, Err(ParserError::InvalidData { .. })));
}

#[test]
fn mixed_report_ids_in_one_direction_is_invalid() {
    let bytes: Vec<u8> = vec![
        0x05, 0x01, 0x15, 0x00, 0x25, 0x01, 0x75, 0x01, 0x95, 0x01, 0x09, 0x01, 0x81, 0x02,
        0x85, 0x01, 0x09, 0x02, 0x81, 0x02,
    ];
    let r = ReportDescriptor::try_from(&bytes[..]);
    assert!(matches!(r, Err(ParserError::InvalidData { .. })));
}

#[test]
fn empty_descriptor_parses_empty() {
    let rd = parse(&[]);
    assert_eq!(rd.input_reports.len(), 0);
    assert_eq!(rd.output_reports.len(), 0);
    assert_eq!(rd.feature_reports.len(), 0);
}

#[test]
fn long_items_are_skipped() {
    let bytes: Vec<u8> = vec![0xFE, 0x02, 0x00, 0xAA, 0xBB];
    let rd = parse(&bytes);
    assert_eq!(rd.input_reports.len(), 0);

    let items = decode_items(&bytes).expect("long item should decode");
    assert_eq!(items.len(), 1);
    assert!(items[0].is_long);
    assert_eq!(items[0].long_tag, 0x00);
    assert_eq!(items[0].data, vec![0xAA, 0xBB]);
}

#[test]
fn truncated_long_item_is_out_of_bounds() {
    let bytes: Vec<u8> = vec![0xFE, 0x05, 0x00, 0xAA];
    assert!(matches!(decode_items(&bytes), Err(ParserError::OutOfBounds)));
}

#[test]
fn decoder_reports_offsets() {
    let bytes: Vec<u8> = vec![0x05, 0x01, 0x75, 0x01];
    let items = decode_items(&bytes).expect("items should decode");
    assert_eq!(items.len(), 2);
    assert_eq!(items[0].offset, 0);
    assert_eq!(items[1].offset, 2);
    assert_eq!(items[0].data, vec![0x01]);
}

#[test]
fn unknown_tags_are_not_errors() {
    // a reserved main tag and a reserved global tag, then nothing
    let bytes: Vec<u8> = vec![0xF0, 0xF4];
    let rd = parse(&bytes);
    assert_eq!(rd.input_reports.len(), 0);
}

#[test]
fn parse_entry_point_matches_try_from() {
    let bytes: Vec<u8> = vec![0x05, 0x01, 0x75, 0x01, 0x95, 0x08, 0x81, 0x01];
    let direct = parse_report_descriptor(&bytes).expect("should parse");
    assert_eq!(direct.input_reports.len(), 1);
    assert_eq!(direct.input_reports[0].size, 8);
}

#[test]
fn stray_end_collection_is_tolerated() {
    let rd = parse(&[0xC0]);
    assert_eq!(rd.input_reports.len(), 0);
}

#[test]
fn directions_sharing_an_id_have_independent_offsets() {
    let bytes: Vec<u8> = vec![
        0x05, 0x01, 0x85, 0x01, // usage page 1, report id 1
        0x09, 0x01, 0x15, 0x00, 0x25, 0x01, 0x75, 0x08, 0x95, 0x01, 0x81, 0x02, // input
        0x09, 0x02, 0x91, 0x02, // output, same id
    ];
    let rd = parse(&bytes);
    assert_eq!(rd.input_reports.len(), 1);
    assert_eq!(rd.output_reports.len(), 1);
    let input = &rd.input_reports[0];
    let output = &rd.output_reports[0];
    assert_eq!(input.id, Some(1));
    assert_eq!(output.id, Some(1));
    // each direction's payload starts at bit zero and covers its own size
    assert_eq!(as_var(&input.items[0]).bits.start, 0);
    assert_eq!(as_var(&output.items[0]).bits.start, 0);
    assert_eq!(input.size, 8);
    assert_eq!(output.size, 8);
}

#[test]
fn sign_extension_of_four_byte_payloads() {
    let bytes: Vec<u8> = vec![
        0x05, 0x01, 0x09, 0x01, 0x17, 0x00, 0x00, 0x00, 0x80, 0x27, 0xFF, 0xFF, 0xFF, 0x7F,
        0x75, 0x20, 0x95, 0x01, 0x81, 0x02,
    ];
    let rd = parse(&bytes);
    let f = as_var(&rd.input_reports[0].items[0]);
    assert_eq!(f.logical_range.minimum.0, i32::MIN);
    assert_eq!(f.logical_range.maximum.0, i32::MAX);
}

#[test]
fn sign_extension_of_two_byte_payloads() {
    let bytes: Vec<u8> = vec![
        0x05, 0x01, 0x09, 0x01, 0x16, 0x00, 0x80, 0x26, 0xFF, 0x7F, 0x75, 0x10, 0x95, 0x01,
        0x81, 0x02,
    ];
    let rd = parse(&bytes);
    let f = as_var(&rd.input_reports[0].items[0]);
    assert_eq!(f.logical_range.minimum.0, -32768);
    assert_eq!(f.logical_range.maximum.0, 32767);
    assert_eq!(f.bits.start, 0);
    assert_eq!(f.bits.end, 15);
}
