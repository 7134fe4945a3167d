use erc7562_trace::builder::{StorageAccess, TraceBuilder};
use erc7562_trace::codec::{decode_config, encode_config, encode_frame};
use erc7562_trace::config::Erc7562ValidationTracerConfig;
use erc7562_trace::frame::{check_frame_consistency, CallFrameWithOpCodes, CallLogFrame};
use erc7562_trace::wire::{WireKey, WireValue};
use erc7562_trace::TraceError;

fn addr(b: u8) -> Vec<u8> {
    vec![b; 20]
}

fn word(b: u8) -> Vec<u8> {
    vec![b; 32]
}

fn finish_ok(b: &mut TraceBuilder, gas_used: u64) -> Option<CallFrameWithOpCodes> {
    b.exit_call(gas_used, None, String::new(), String::new(), false, false)
        .expect("exit with open frame")
}

#[test]
fn tree_order_follows_entry_not_return() {
    let mut b = TraceBuilder::new(Erc7562ValidationTracerConfig::new());
    b.enter_call(0xf1, addr(1), addr(2), 1000, word(0), vec![]);
    b.enter_call(0xf1, addr(2), addr(3), 400, word(0), vec![0xaa]);
    b.enter_call(0xf1, addr(3), addr(4), 100, word(0), vec![]);
    assert!(finish_ok(&mut b, 50).is_none()); // grandchild under A returns
    assert!(finish_ok(&mut b, 200).is_none()); // A returns
    b.enter_call(0xfa, addr(2), addr(5), 300, word(0), vec![]);
    assert!(finish_ok(&mut b, 100).is_none()); // B returns
    let root = finish_ok(&mut b, 900).expect("root comes back");
    assert_eq!(root.children.len(), 2);
    assert_eq!(root.children[0].to, addr(3)); // A entered first
    assert_eq!(root.children[1].to, addr(5)); // B entered second
    assert_eq!(root.children[0].children.len(), 1);
    assert_eq!(root.children[0].children[0].to, addr(4));
    assert_eq!(root.children[1].children.len(), 0);
}

#[test]
fn ignored_opcodes_are_not_counted() {
    let cfg = Erc7562ValidationTracerConfig {
        stack_top_items_size: 3,
        ignored_opcodes: vec![0x01],
        with_log: true,
    };
    let mut b = TraceBuilder::new(cfg);
    b.enter_call(0xf1, addr(1), addr(2), 1000, word(0), vec![]);
    for _ in 0..3 {
        b.record_step(0x01, None).unwrap();
    }
    for _ in 0..2 {
        b.record_step(0x02, None).unwrap();
    }
    let root = finish_ok(&mut b, 10).unwrap();
    assert_eq!(root.used_opcodes, vec![(0x02u8, 2u64)]);
}

#[test]
fn slot_reads_keep_every_value_in_order() {
    let mut b = TraceBuilder::new(Erc7562ValidationTracerConfig::new());
    b.enter_call(0xf1, addr(1), addr(2), 1000, word(0), vec![]);
    b.record_step(
        0x54,
        Some(StorageAccess::Read("0xabc:0x0".to_string(), "1".to_string())),
    )
    .unwrap();
    b.record_step(
        0x54,
        Some(StorageAccess::Read("0xabc:0x0".to_string(), "2".to_string())),
    )
    .unwrap();
    let root = finish_ok(&mut b, 10).unwrap();
    assert_eq!(root.accessed_slots.reads.len(), 1);
    assert_eq!(root.accessed_slots.reads[0].0, "0xabc:0x0");
    assert_eq!(root.accessed_slots.reads[0].1, vec!["1".to_string(), "2".to_string()]);
}

#[test]
fn writes_and_transient_accesses_are_counted_apart() {
    let mut b = TraceBuilder::new(Erc7562ValidationTracerConfig::new());
    b.enter_call(0xf1, addr(1), addr(2), 1000, word(0), vec![]);
    b.record_step(0x55, Some(StorageAccess::Write("k".to_string()))).unwrap();
    b.record_step(0x55, Some(StorageAccess::Write("k".to_string()))).unwrap();
    b.record_step(0x5c, Some(StorageAccess::TransientRead("k".to_string()))).unwrap();
    b.record_step(0x5d, Some(StorageAccess::TransientWrite("k".to_string()))).unwrap();
    let root = finish_ok(&mut b, 10).unwrap();
    assert_eq!(root.accessed_slots.writes, vec![("k".to_string(), 2u64)]);
    assert_eq!(root.accessed_slots.transient_reads, vec![("k".to_string(), 1u64)]);
    assert_eq!(root.accessed_slots.transient_writes, vec![("k".to_string(), 1u64)]);
    assert!(root.accessed_slots.reads.is_empty());
}

#[test]
fn logs_are_dropped_at_emission_when_disabled() {
    let cfg = Erc7562ValidationTracerConfig {
        stack_top_items_size: 0,
        ignored_opcodes: vec![],
        with_log: false,
    };
    let mut b = TraceBuilder::new(cfg);
    b.enter_call(0xf1, addr(1), addr(2), 1000, word(0), vec![]);
    for _ in 0..4 {
        b.record_log(CallLogFrame { topics: vec![word(7)], data: vec![1, 2, 3] }).unwrap();
    }
    let root = finish_ok(&mut b, 10).unwrap();
    assert!(root.logs.is_empty());
}

#[test]
fn logs_are_kept_in_emission_order_when_enabled() {
    let mut b = TraceBuilder::new(Erc7562ValidationTracerConfig::new());
    b.enter_call(0xf1, addr(1), addr(2), 1000, word(0), vec![]);
    b.record_log(CallLogFrame { topics: vec![word(1)], data: vec![1] }).unwrap();
    b.record_log(CallLogFrame { topics: vec![word(2)], data: vec![2] }).unwrap();
    let root = finish_ok(&mut b, 10).unwrap();
    assert_eq!(root.logs.len(), 2);
    assert_eq!(root.logs[0].data, vec![1]);
    assert_eq!(root.logs[1].data, vec![2]);
}

#[test]
fn code_access_records_size_once_and_external_addresses_once() {
    let mut b = TraceBuilder::new(Erc7562ValidationTracerConfig::new());
    b.enter_call(0xf1, addr(1), addr(2), 1000, word(0), vec![]);
    b.record_code_access(addr(9), 123, 0x3b, true).unwrap();
    b.record_code_access(addr(9), 456, 0x3c, true).unwrap();
    let root = finish_ok(&mut b, 10).unwrap();
    assert_eq!(root.contract_size.len(), 1);
    assert_eq!(root.contract_size[0].0, addr(9));
    assert_eq!(root.contract_size[0].1.contract_size, 123);
    assert_eq!(root.contract_size[0].1.opcode, 0x3b);
    assert_eq!(root.ext_code_access_info, vec![addr(9)]);
}

#[test]
fn records_without_an_open_frame_are_rejected() {
    let mut b = TraceBuilder::new(Erc7562ValidationTracerConfig::new());
    assert_eq!(b.record_step(0x01, None), Err(TraceError::InvalidTraceSequence));
    assert_eq!(
        b.record_log(CallLogFrame { topics: vec![], data: vec![] }),
        Err(TraceError::InvalidTraceSequence)
    );
    assert_eq!(
        b.record_code_access(addr(1), 0, 0x3b, false),
        Err(TraceError::InvalidTraceSequence)
    );
    match b.exit_call(0, None, String::new(), String::new(), false, false) {
        Err(TraceError::InvalidTraceSequence) => {},
        _ => panic!("exit without enter must be rejected"),
    }
}

#[test]
fn default_configuration_has_documented_values() {
    let c = Erc7562ValidationTracerConfig::new();
    assert_eq!(c.stack_top_items_size, 3);
    assert!(c.ignored_opcodes.is_empty());
    assert!(c.with_log);
}

#[test]
fn decoding_empty_object_yields_default_configuration() {
    let c = decode_config(&WireValue::Obj(vec![])).expect("empty object decodes");
    assert_eq!(c.stack_top_items_size, 3);
    assert!(c.ignored_opcodes.is_empty());
    assert!(c.with_log);
}

#[test]
fn config_encode_then_decode_is_identity() {
    let c = Erc7562ValidationTracerConfig {
        stack_top_items_size: 7,
        ignored_opcodes: vec![0x01, 0x60],
        with_log: false,
    };
    let d = decode_config(&encode_config(&c)).expect("round trip decodes");
    assert_eq!(d.stack_top_items_size, 7);
    assert_eq!(d.ignored_opcodes, vec![0x01, 0x60]);
    assert!(!d.with_log);
}

#[test]
fn malformed_configuration_is_rejected() {
    let w = WireValue::Obj(vec![(WireKey::StackTopItemsSize, WireValue::Bool(true))]);
    assert_eq!(decode_config(&w), Err(TraceError::MalformedWireData));
    let dup = WireValue::Obj(vec![(
        WireKey::IgnoredOpcodes,
        WireValue::Arr(vec![WireValue::UInt(1), WireValue::UInt(1)]),
    )]);
    assert_eq!(decode_config(&dup), Err(TraceError::MalformedWireData));
}

#[test]
fn encoded_frame_omits_absent_output_and_empty_logs() {
    let mut b = TraceBuilder::new(Erc7562ValidationTracerConfig::new());
    b.enter_call(0xf1, addr(1), addr(2), 1000, word(0), vec![]);
    let root = finish_ok(&mut b, 10).unwrap();
    let w = encode_frame(&root);
    match w {
        WireValue::Obj(fields) => {
            assert!(fields.iter().all(|(k, _)| *k != WireKey::Output));
            assert!(fields.iter().all(|(k, _)| *k != WireKey::Logs));
            assert!(fields.iter().any(|(k, _)| *k == WireKey::Children));
            assert!(fields.iter().any(|(k, _)| *k == WireKey::GasUsed));
        },
        _ => panic!("a frame encodes as an object"),
    }
}

#[test]
fn encoded_frame_keeps_present_output_and_logs() {
    let mut b = TraceBuilder::new(Erc7562ValidationTracerConfig::new());
    b.enter_call(0xf1, addr(1), addr(2), 1000, word(0), vec![]);
    b.record_log(CallLogFrame { topics: vec![word(1)], data: vec![9] }).unwrap();
    let root = b
        .exit_call(10, Some(vec![0xde, 0xad]), String::new(), String::new(), false, false)
        .unwrap()
        .unwrap();
    let w = encode_frame(&root);
    match w {
        WireValue::Obj(fields) => {
            assert!(fields.iter().any(|(k, _)| *k == WireKey::Output));
            assert!(fields.iter().any(|(k, _)| *k == WireKey::Logs));
        },
        _ => panic!("a frame encodes as an object"),
    }
}

#[test]
fn gas_checker_accepts_conserving_trees() {
    let mut b = TraceBuilder::new(Erc7562ValidationTracerConfig::new());
    b.enter_call(0xf1, addr(1), addr(2), 1000, word(0), vec![]);
    b.enter_call(0xf1, addr(2), addr(3), 400, word(0), vec![]);
    finish_ok(&mut b, 300);
    let root = finish_ok(&mut b, 900).unwrap();
    assert!(check_frame_consistency(&root));
}

#[test]
fn gas_checker_rejects_overdrawn_children() {
    let mut b = TraceBuilder::new(Erc7562ValidationTracerConfig::new());
    b.enter_call(0xf1, addr(1), addr(2), 100, word(0), vec![]);
    b.enter_call(0xf1, addr(2), addr(3), 80, word(0), vec![]);
    finish_ok(&mut b, 10);
    b.enter_call(0xf1, addr(2), addr(4), 80, word(0), vec![]);
    finish_ok(&mut b, 10);
    let root = finish_ok(&mut b, 90).unwrap();
    // the two children were allotted 160 against the parent's 100
    assert!(!check_frame_consistency(&root));
}

#[test]
fn out_of_gas_frames_carry_an_error() {
    let mut b = TraceBuilder::new(Erc7562ValidationTracerConfig::new());
    b.enter_call(0xf1, addr(1), addr(2), 100, word(0), vec![]);
    let root = b
        .exit_call(100, None, "out of gas".to_string(), String::new(), true, true)
        .unwrap()
        .unwrap();
    assert!(root.out_of_gas);
    assert!(!root.error.is_empty());
    assert!(check_frame_consistency(&root));
}

#[test]
fn checker_rejects_out_of_gas_without_error() {
    let mut b = TraceBuilder::new(Erc7562ValidationTracerConfig::new());
    b.enter_call(0xf1, addr(1), addr(2), 100, word(0), vec![]);
    let mut root = finish_ok(&mut b, 50).unwrap();
    root.out_of_gas = true; // forged record: flag set, error left empty
    assert!(!check_frame_consistency(&root));
}
