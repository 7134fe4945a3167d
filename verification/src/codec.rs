//! Wire codec for the finished trace: encoding to the wire object tree and
//! decoding back, with the round-trip law. The encoder omits `output` when
//! absent and `logs` when empty; the decoder restores them and applies each
//! container's zero or empty value for any missing field. The configuration
//! decoder applies its own defaults: three stack items, no ignored opcode,
//! logs kept.

use vstd::prelude::*;

use crate::assoc::{has_key, keys_unique, lemma_unique_head_not_in_tail};
use crate::builder::bytes_eq;
use crate::TraceError;
use crate::config::{ConfigModel, Erc7562ValidationTracerConfig};
use crate::frame::{
    addrs_model, frame_model, frame_models, frame_wf, lemma_frame_models, logs_model, sizes_model,
    CallFrameWithOpCodes, CallLogFrame, ContractSizeWithOpCode, FrameModel, LogModel,
};
use crate::slots::{count_map_model, read_map_model, AccessedSlots, SlotsModel};
use crate::wire::{
    lemma_obj_get_at, lemma_obj_get_concat, lemma_obj_get_decreases, lemma_wire_models,
    lemma_wire_models_push, lemma_wire_obj_model, lemma_wire_obj_model_push,
    lemma_wire_table_model, lemma_wire_table_model_push, obj_get, wire_model, wire_models,
    wire_obj_model, wire_table_model, MapKey, MapKeyModel, WireKey, WireModel, WireValue,
};

verus! {

/// A byte string of `n` zeroes: the zero address or the zero word.
pub open spec fn zero_bytes(n: nat) -> Seq<u8> {
    Seq::new(n, |i: int| 0u8)
}

// ---------------------------------------------------------------------------
// Encoding, at the model level.
// ---------------------------------------------------------------------------

/// Wire entries of a counter map.
pub open spec fn spec_encode_counts(s: Seq<(Seq<char>, u64)>) -> Seq<(MapKeyModel, WireModel)> {
    Seq::new(s.len(), |i: int| (MapKeyModel::Text(s[i].0), WireModel::UInt(s[i].1)))
}

/// Wire nodes of a string list.
pub open spec fn spec_encode_texts(s: Seq<Seq<char>>) -> Seq<WireModel> {
    Seq::new(s.len(), |i: int| WireModel::Text(s[i]))
}

/// Wire entries of the read map.
pub open spec fn spec_encode_reads(
    s: Seq<(Seq<char>, Seq<Seq<char>>)>,
) -> Seq<(MapKeyModel, WireModel)> {
    Seq::new(
        s.len(),
        |i: int| (MapKeyModel::Text(s[i].0), WireModel::Arr(spec_encode_texts(s[i].1))),
    )
}

/// Wire form of the ledger.
pub open spec fn spec_encode_slots(sl: SlotsModel) -> WireModel {
    WireModel::Obj(
        seq![
            (WireKey::Reads, WireModel::Table(spec_encode_reads(sl.reads))),
            (WireKey::Writes, WireModel::Table(spec_encode_counts(sl.writes))),
            (WireKey::TransientReads, WireModel::Table(spec_encode_counts(sl.transient_reads))),
            (WireKey::TransientWrites, WireModel::Table(spec_encode_counts(sl.transient_writes))),
        ],
    )
}

/// Wire nodes of a byte-string list.
pub open spec fn spec_encode_bytes_list(s: Seq<Seq<u8>>) -> Seq<WireModel> {
    Seq::new(s.len(), |i: int| WireModel::Bytes(s[i]))
}

/// Wire entries of the opcode-count map.
pub open spec fn spec_encode_opcodes(s: Seq<(u8, u64)>) -> Seq<(MapKeyModel, WireModel)> {
    Seq::new(s.len(), |i: int| (MapKeyModel::Byte(s[i].0), WireModel::UInt(s[i].1)))
}

/// Wire form of one contract-size record.
pub open spec fn spec_encode_size(c: ContractSizeWithOpCode) -> WireModel {
    WireModel::Obj(
        seq![
            (WireKey::ContractSize, WireModel::UInt(c.contract_size as u64)),
            (WireKey::Opcode, WireModel::UInt(c.opcode as u64)),
        ],
    )
}

/// Wire entries of the contract-size map.
pub open spec fn spec_encode_sizes(
    s: Seq<(Seq<u8>, ContractSizeWithOpCode)>,
) -> Seq<(MapKeyModel, WireModel)> {
    Seq::new(s.len(), |i: int| (MapKeyModel::Addr(s[i].0), spec_encode_size(s[i].1)))
}

/// Wire form of one log record.
pub open spec fn spec_encode_log(l: LogModel) -> WireModel {
    WireModel::Obj(
        seq![
            (WireKey::Topics, WireModel::Arr(spec_encode_bytes_list(l.topics))),
            (WireKey::Data, WireModel::Bytes(l.data)),
        ],
    )
}

/// Wire nodes of a log list.
pub open spec fn spec_encode_logs(s: Seq<LogModel>) -> Seq<WireModel> {
    Seq::new(s.len(), |i: int| spec_encode_log(s[i]))
}

/// Wire nodes of the ignored-opcode set.
pub open spec fn spec_encode_opcode_list(s: Seq<u8>) -> Seq<WireModel> {
    Seq::new(s.len(), |i: int| WireModel::UInt(s[i] as u64))
}

/// Wire form of a configuration.
pub open spec fn spec_encode_config(c: ConfigModel) -> WireModel {
    WireModel::Obj(
        seq![
            (WireKey::StackTopItemsSize, WireModel::UInt(c.stack_top_items_size as u64)),
            (WireKey::IgnoredOpcodes, WireModel::Arr(spec_encode_opcode_list(c.ignored_opcodes))),
            (WireKey::WithLog, WireModel::Bool(c.with_log)),
        ],
    )
}

/// The fields of a frame's wire object, in schema order: `output` stands only
/// when present, `logs` only when non-empty.
pub open spec fn frame_fields(m: FrameModel) -> Seq<(WireKey, WireModel)>
    decreases m, 0int,
{
    let head = seq![
        (WireKey::Type, WireModel::UInt(m.kind as u64)),
        (WireKey::From, WireModel::Bytes(m.from)),
        (WireKey::Gas, WireModel::UInt(m.gas)),
        (WireKey::GasUsed, WireModel::UInt(m.gas_used)),
        (WireKey::To, WireModel::Bytes(m.to)),
        (WireKey::Input, WireModel::Bytes(m.input)),
    ];
    let out = match m.output {
        Some(b) => seq![(WireKey::Output, WireModel::Bytes(b))],
        None => Seq::empty(),
    };
    let mid = seq![
        (WireKey::Error, WireModel::Text(m.error)),
        (WireKey::RevertReason, WireModel::Text(m.revert_reason)),
    ];
    let lg = if m.logs.len() > 0 {
        seq![(WireKey::Logs, WireModel::Arr(spec_encode_logs(m.logs)))]
    } else {
        Seq::empty()
    };
    let tail = seq![
        (WireKey::Value, WireModel::Bytes(m.value)),
        (WireKey::RevertedSnapshot, WireModel::Bool(m.reverted_snapshot)),
        (WireKey::AccessedSlots, spec_encode_slots(m.accessed_slots)),
        (WireKey::ExtCodeAccessInfo, WireModel::Arr(spec_encode_bytes_list(m.ext_code_access_info))),
        (WireKey::UsedOpcodes, WireModel::Table(spec_encode_opcodes(m.used_opcodes))),
        (WireKey::ContractSize, WireModel::Table(spec_encode_sizes(m.contract_size))),
        (WireKey::OutOfGas, WireModel::Bool(m.out_of_gas)),
        (WireKey::Children, WireModel::Arr(spec_encode_frames(m.children))),
    ];
    head + out + mid + lg + tail
}

/// Wire form of a frame.
pub open spec fn spec_encode_frame(m: FrameModel) -> WireModel
    decreases m, 1int,
{
    WireModel::Obj(frame_fields(m))
}

/// Wire nodes of a frame list.
pub open spec fn spec_encode_frames(s: Seq<FrameModel>) -> Seq<WireModel>
    decreases s, 0int,
{
    if s.len() == 0 {
        Seq::empty()
    } else {
        seq![spec_encode_frame(s[0])] + spec_encode_frames(s.subrange(1, s.len() as int))
    }
}

// ---------------------------------------------------------------------------
// Decoding, at the model level. `None` is a malformed wire value.
// ---------------------------------------------------------------------------

/// A number field, with its default when missing.
pub open spec fn dec_uint(fields: Seq<(WireKey, WireModel)>, k: WireKey, d: u64) -> Option<u64> {
    match obj_get(fields, k) {
        None => Some(d),
        Some(WireModel::UInt(n)) => Some(n),
        Some(_) => None,
    }
}

/// An opcode-sized number field, with its default when missing.
pub open spec fn dec_byte(fields: Seq<(WireKey, WireModel)>, k: WireKey, d: u8) -> Option<u8> {
    match obj_get(fields, k) {
        None => Some(d),
        Some(WireModel::UInt(n)) => if n <= 255 {
            Some(n as u8)
        } else {
            None
        },
        Some(_) => None,
    }
}

/// A byte-string field of exactly `n` bytes, all-zero when missing.
pub open spec fn dec_bytes_n(fields: Seq<(WireKey, WireModel)>, k: WireKey, n: nat) -> Option<
    Seq<u8>,
> {
    match obj_get(fields, k) {
        None => Some(zero_bytes(n)),
        Some(WireModel::Bytes(b)) => if b.len() == n {
            Some(b)
        } else {
            None
        },
        Some(_) => None,
    }
}

/// A byte-string field of any size, empty when missing.
pub open spec fn dec_bytes(fields: Seq<(WireKey, WireModel)>, k: WireKey) -> Option<Seq<u8>> {
    match obj_get(fields, k) {
        None => Some(Seq::empty()),
        Some(WireModel::Bytes(b)) => Some(b),
        Some(_) => None,
    }
}

/// A string field, empty when missing.
pub open spec fn dec_text(fields: Seq<(WireKey, WireModel)>, k: WireKey) -> Option<Seq<char>> {
    match obj_get(fields, k) {
        None => Some(Seq::empty()),
        Some(WireModel::Text(s)) => Some(s),
        Some(_) => None,
    }
}

/// A flag field, false when missing.
pub open spec fn dec_bool(fields: Seq<(WireKey, WireModel)>, k: WireKey) -> Option<bool> {
    match obj_get(fields, k) {
        None => Some(false),
        Some(WireModel::Bool(b)) => Some(b),
        Some(_) => None,
    }
}

/// The optional `output` field: absence is a value, not a fault.
pub open spec fn dec_output(fields: Seq<(WireKey, WireModel)>) -> Option<Option<Seq<u8>>> {
    match obj_get(fields, WireKey::Output) {
        None => Some(None),
        Some(WireModel::Bytes(b)) => Some(Some(b)),
        Some(_) => None,
    }
}

/// A counter table: string keys, number values, no key twice.
pub open spec fn spec_decode_counts(entries: Seq<(MapKeyModel, WireModel)>) -> Option<
    Seq<(Seq<char>, u64)>,
>
    decreases entries.len(),
{
    if entries.len() == 0 {
        Some(Seq::empty())
    } else {
        match entries[0] {
            (MapKeyModel::Text(k), WireModel::UInt(n)) => match spec_decode_counts(
                entries.subrange(1, entries.len() as int),
            ) {
                Some(tail) => if has_key(tail, k) {
                    None
                } else {
                    Some(seq![(k, n)] + tail)
                },
                None => None,
            },
            _ => None,
        }
    }
}

/// A string list.
pub open spec fn spec_decode_texts(items: Seq<WireModel>) -> Option<Seq<Seq<char>>>
    decreases items.len(),
{
    if items.len() == 0 {
        Some(Seq::empty())
    } else {
        match items[0] {
            WireModel::Text(s) => match spec_decode_texts(items.subrange(1, items.len() as int)) {
                Some(tail) => Some(seq![s] + tail),
                None => None,
            },
            _ => None,
        }
    }
}

/// The read table: string keys, string-list values, no key twice.
pub open spec fn spec_decode_reads(entries: Seq<(MapKeyModel, WireModel)>) -> Option<
    Seq<(Seq<char>, Seq<Seq<char>>)>,
>
    decreases entries.len(),
{
    if entries.len() == 0 {
        Some(Seq::empty())
    } else {
        match entries[0] {
            (MapKeyModel::Text(k), WireModel::Arr(vs)) => match (
                spec_decode_texts(vs),
                spec_decode_reads(entries.subrange(1, entries.len() as int)),
            ) {
                (Some(vals), Some(tail)) => if has_key(tail, k) {
                    None
                } else {
                    Some(seq![(k, vals)] + tail)
                },
                _ => None,
            },
            _ => None,
        }
    }
}

/// The opcode-count table: opcode keys, number values, no key twice.
pub open spec fn spec_decode_opcodes(entries: Seq<(MapKeyModel, WireModel)>) -> Option<
    Seq<(u8, u64)>,
>
    decreases entries.len(),
{
    if entries.len() == 0 {
        Some(Seq::empty())
    } else {
        match entries[0] {
            (MapKeyModel::Byte(b), WireModel::UInt(n)) => match spec_decode_opcodes(
                entries.subrange(1, entries.len() as int),
            ) {
                Some(tail) => if has_key(tail, b) {
                    None
                } else {
                    Some(seq![(b, n)] + tail)
                },
                None => None,
            },
            _ => None,
        }
    }
}

/// One contract-size record: `contractSize` defaults to zero, `opcode` has
/// intrinsic meaning and is required.
pub open spec fn spec_decode_size(w: WireModel) -> Option<ContractSizeWithOpCode> {
    match w {
        WireModel::Obj(sf) => {
            let size = match obj_get(sf, WireKey::ContractSize) {
                None => Some(0usize),
                Some(WireModel::UInt(n)) => if n <= usize::MAX as u64 {
                    Some(n as usize)
                } else {
                    None
                },
                Some(_) => None,
            };
            let op = match obj_get(sf, WireKey::Opcode) {
                Some(WireModel::UInt(n)) => if n <= 255 {
                    Some(n as u8)
                } else {
                    None
                },
                _ => None,
            };
            match (size, op) {
                (Some(s), Some(o)) => Some(ContractSizeWithOpCode { contract_size: s, opcode: o }),
                _ => None,
            }
        },
        _ => None,
    }
}

/// The contract-size table: address keys, record values, no key twice.
pub open spec fn spec_decode_sizes(entries: Seq<(MapKeyModel, WireModel)>) -> Option<
    Seq<(Seq<u8>, ContractSizeWithOpCode)>,
>
    decreases entries.len(),
{
    if entries.len() == 0 {
        Some(Seq::empty())
    } else {
        match entries[0].0 {
            MapKeyModel::Addr(a) => match (
                spec_decode_size(entries[0].1),
                spec_decode_sizes(entries.subrange(1, entries.len() as int)),
            ) {
                (Some(c), Some(tail)) => if a.len() == 20 && !has_key(tail, a) {
                    Some(seq![(a, c)] + tail)
                } else {
                    None
                },
                _ => None,
            },
            _ => None,
        }
    }
}

/// An address list: 20-byte entries, none twice.
pub open spec fn spec_decode_addr_list(items: Seq<WireModel>) -> Option<Seq<Seq<u8>>>
    decreases items.len(),
{
    if items.len() == 0 {
        Some(Seq::empty())
    } else {
        match items[0] {
            WireModel::Bytes(b) => match spec_decode_addr_list(
                items.subrange(1, items.len() as int),
            ) {
                Some(tail) => if b.len() == 20 && !tail.contains(b) {
                    Some(seq![b] + tail)
                } else {
                    None
                },
                None => None,
            },
            _ => None,
        }
    }
}

/// A topic list: 32-byte words.
pub open spec fn spec_decode_words(items: Seq<WireModel>) -> Option<Seq<Seq<u8>>>
    decreases items.len(),
{
    if items.len() == 0 {
        Some(Seq::empty())
    } else {
        match items[0] {
            WireModel::Bytes(b) => match spec_decode_words(items.subrange(1, items.len() as int)) {
                Some(tail) => if b.len() == 32 {
                    Some(seq![b] + tail)
                } else {
                    None
                },
                None => None,
            },
            _ => None,
        }
    }
}

/// One log record.
pub open spec fn spec_decode_log(w: WireModel) -> Option<LogModel> {
    match w {
        WireModel::Obj(lf) => {
            let topics = match obj_get(lf, WireKey::Topics) {
                None => Some(Seq::<Seq<u8>>::empty()),
                Some(WireModel::Arr(ts)) => spec_decode_words(ts),
                Some(_) => None,
            };
            let data = dec_bytes(lf, WireKey::Data);
            match (topics, data) {
                (Some(t), Some(d)) => Some(LogModel { topics: t, data: d }),
                _ => None,
            }
        },
        _ => None,
    }
}

/// A log list.
pub open spec fn spec_decode_logs(items: Seq<WireModel>) -> Option<Seq<LogModel>>
    decreases items.len(),
{
    if items.len() == 0 {
        Some(Seq::empty())
    } else {
        match (spec_decode_log(items[0]), spec_decode_logs(items.subrange(1, items.len() as int))) {
            (Some(l), Some(tail)) => Some(seq![l] + tail),
            _ => None,
        }
    }
}

/// The ledger object.
pub open spec fn spec_decode_slots(fields: Seq<(WireKey, WireModel)>) -> Option<SlotsModel> {
    let reads = match obj_get(fields, WireKey::Reads) {
        None => Some(Seq::<(Seq<char>, Seq<Seq<char>>)>::empty()),
        Some(WireModel::Table(es)) => spec_decode_reads(es),
        Some(_) => None,
    };
    let writes = match obj_get(fields, WireKey::Writes) {
        None => Some(Seq::<(Seq<char>, u64)>::empty()),
        Some(WireModel::Table(es)) => spec_decode_counts(es),
        Some(_) => None,
    };
    let tr = match obj_get(fields, WireKey::TransientReads) {
        None => Some(Seq::<(Seq<char>, u64)>::empty()),
        Some(WireModel::Table(es)) => spec_decode_counts(es),
        Some(_) => None,
    };
    let tw = match obj_get(fields, WireKey::TransientWrites) {
        None => Some(Seq::<(Seq<char>, u64)>::empty()),
        Some(WireModel::Table(es)) => spec_decode_counts(es),
        Some(_) => None,
    };
    match (reads, writes, tr, tw) {
        (Some(r), Some(w), Some(t1), Some(t2)) => Some(
            SlotsModel { reads: r, writes: w, transient_reads: t1, transient_writes: t2 },
        ),
        _ => None,
    }
}

/// A configuration, with the documented defaults for missing fields.
pub open spec fn spec_decode_config(w: WireModel) -> Option<ConfigModel> {
    match w {
        WireModel::Obj(fields) => {
            let sz = match obj_get(fields, WireKey::StackTopItemsSize) {
                None => Some(3usize),
                Some(WireModel::UInt(n)) => if n <= usize::MAX as u64 {
                    Some(n as usize)
                } else {
                    None
                },
                Some(_) => None,
            };
            let ign = match obj_get(fields, WireKey::IgnoredOpcodes) {
                None => Some(Seq::<u8>::empty()),
                Some(WireModel::Arr(items)) => spec_decode_opcode_list(items),
                Some(_) => None,
            };
            let wl = match obj_get(fields, WireKey::WithLog) {
                None => Some(true),
                Some(WireModel::Bool(b)) => Some(b),
                Some(_) => None,
            };
            match (sz, ign, wl) {
                (Some(s), Some(i), Some(l)) => Some(
                    ConfigModel { stack_top_items_size: s, ignored_opcodes: i, with_log: l },
                ),
                _ => None,
            }
        },
        _ => None,
    }
}

/// The ignored-opcode set: opcode-sized numbers, none twice.
pub open spec fn spec_decode_opcode_list(items: Seq<WireModel>) -> Option<Seq<u8>>
    decreases items.len(),
{
    if items.len() == 0 {
        Some(Seq::empty())
    } else {
        match items[0] {
            WireModel::UInt(n) => if n <= 255 {
                match spec_decode_opcode_list(items.subrange(1, items.len() as int)) {
                    Some(tail) => if tail.contains(n as u8) {
                        None
                    } else {
                        Some(seq![n as u8] + tail)
                    },
                    None => None,
                }
            } else {
                None
            },
            _ => None,
        }
    }
}

/// A frame and, through `Children`, its whole subtree.
pub open spec fn spec_decode_frame(w: WireModel) -> Option<FrameModel>
    decreases w via spec_decode_frame_decreases
{
    match w {
        WireModel::Obj(fields) => {
            let kind = dec_byte(fields, WireKey::Type, 0);
            let from = dec_bytes_n(fields, WireKey::From, 20);
            let gas = dec_uint(fields, WireKey::Gas, 0);
            let gas_used = dec_uint(fields, WireKey::GasUsed, 0);
            let to = dec_bytes_n(fields, WireKey::To, 20);
            let input = dec_bytes(fields, WireKey::Input);
            let output = dec_output(fields);
            let error = dec_text(fields, WireKey::Error);
            let revert_reason = dec_text(fields, WireKey::RevertReason);
            let logs = match obj_get(fields, WireKey::Logs) {
                None => Some(Seq::<LogModel>::empty()),
                Some(WireModel::Arr(items)) => spec_decode_logs(items),
                Some(_) => None,
            };
            let value = dec_bytes_n(fields, WireKey::Value, 32);
            let reverted_snapshot = dec_bool(fields, WireKey::RevertedSnapshot);
            let slots = match obj_get(fields, WireKey::AccessedSlots) {
                None => Some(SlotsModel::empty()),
                Some(WireModel::Obj(sf)) => spec_decode_slots(sf),
                Some(_) => None,
            };
            let ext = match obj_get(fields, WireKey::ExtCodeAccessInfo) {
                None => Some(Seq::<Seq<u8>>::empty()),
                Some(WireModel::Arr(items)) => spec_decode_addr_list(items),
                Some(_) => None,
            };
            let ops = match obj_get(fields, WireKey::UsedOpcodes) {
                None => Some(Seq::<(u8, u64)>::empty()),
                Some(WireModel::Table(es)) => spec_decode_opcodes(es),
                Some(_) => None,
            };
            let sizes = match obj_get(fields, WireKey::ContractSize) {
                None => Some(Seq::<(Seq<u8>, ContractSizeWithOpCode)>::empty()),
                Some(WireModel::Table(es)) => spec_decode_sizes(es),
                Some(_) => None,
            };
            let out_of_gas = dec_bool(fields, WireKey::OutOfGas);
            let children = match obj_get(fields, WireKey::Children) {
                None => Some(Seq::<FrameModel>::empty()),
                Some(WireModel::Arr(cs)) => spec_decode_frames(cs),
                Some(_) => None,
            };
            if kind is Some && from is Some && gas is Some && gas_used is Some && to is Some
                && input is Some && output is Some && error is Some && revert_reason is Some
                && logs is Some && value is Some && reverted_snapshot is Some && slots is Some
                && ext is Some && ops is Some && sizes is Some && out_of_gas is Some
                && children is Some {
                Some(
                    FrameModel {
                        kind: kind->0,
                        from: from->0,
                        gas: gas->0,
                        gas_used: gas_used->0,
                        to: to->0,
                        input: input->0,
                        output: output->0,
                        error: error->0,
                        revert_reason: revert_reason->0,
                        logs: logs->0,
                        value: value->0,
                        reverted_snapshot: reverted_snapshot->0,
                        accessed_slots: slots->0,
                        ext_code_access_info: ext->0,
                        used_opcodes: ops->0,
                        contract_size: sizes->0,
                        out_of_gas: out_of_gas->0,
                        children: children->0,
                    },
                )
            } else {
                None
            }
        },
        _ => None,
    }
}

/// A frame list.
pub open spec fn spec_decode_frames(items: Seq<WireModel>) -> Option<Seq<FrameModel>>
    decreases items,
{
    if items.len() == 0 {
        Some(Seq::empty())
    } else {
        match (
            spec_decode_frame(items[0]),
            spec_decode_frames(items.subrange(1, items.len() as int)),
        ) {
            (Some(f), Some(tail)) => Some(seq![f] + tail),
            _ => None,
        }
    }
}

#[via_fn]
proof fn spec_decode_frame_decreases(w: WireModel) {
    match w {
        WireModel::Obj(fields) => {
            if obj_get(fields, WireKey::Children) is Some {
                lemma_obj_get_decreases(fields, WireKey::Children);
                let v = obj_get(fields, WireKey::Children)->Some_0;
                match v {
                    WireModel::Arr(cs) => {
                        assert(decreases_to!(v => cs));
                    },
                    _ => {},
                }
            }
        },
        _ => {},
    }
}

/// Where each field of a frame's wire object is found, and that `output` and
/// `logs` stand exactly when present and non-empty.
#[verifier::rlimit(100)]
pub proof fn lemma_frame_fields_get(m: FrameModel)
    ensures
        obj_get(frame_fields(m), WireKey::Type) == Some(WireModel::UInt(m.kind as u64)),
        obj_get(frame_fields(m), WireKey::From) == Some(WireModel::Bytes(m.from)),
        obj_get(frame_fields(m), WireKey::Gas) == Some(WireModel::UInt(m.gas)),
        obj_get(frame_fields(m), WireKey::GasUsed) == Some(WireModel::UInt(m.gas_used)),
        obj_get(frame_fields(m), WireKey::To) == Some(WireModel::Bytes(m.to)),
        obj_get(frame_fields(m), WireKey::Input) == Some(WireModel::Bytes(m.input)),
        obj_get(frame_fields(m), WireKey::Output) == (match m.output {
            Some(b) => Some(WireModel::Bytes(b)),
            None => None::<WireModel>,
        }),
        obj_get(frame_fields(m), WireKey::Error) == Some(WireModel::Text(m.error)),
        obj_get(frame_fields(m), WireKey::RevertReason) == Some(WireModel::Text(m.revert_reason)),
        obj_get(frame_fields(m), WireKey::Logs) == (if m.logs.len() > 0 {
            Some(WireModel::Arr(spec_encode_logs(m.logs)))
        } else {
            None::<WireModel>
        }),
        obj_get(frame_fields(m), WireKey::Value) == Some(WireModel::Bytes(m.value)),
        obj_get(frame_fields(m), WireKey::RevertedSnapshot) == Some(WireModel::Bool(m.reverted_snapshot)),
        obj_get(frame_fields(m), WireKey::AccessedSlots) == Some(spec_encode_slots(m.accessed_slots)),
        obj_get(frame_fields(m), WireKey::ExtCodeAccessInfo) == Some(WireModel::Arr(spec_encode_bytes_list(m.ext_code_access_info))),
        obj_get(frame_fields(m), WireKey::UsedOpcodes) == Some(WireModel::Table(spec_encode_opcodes(m.used_opcodes))),
        obj_get(frame_fields(m), WireKey::ContractSize) == Some(WireModel::Table(spec_encode_sizes(m.contract_size))),
        obj_get(frame_fields(m), WireKey::OutOfGas) == Some(WireModel::Bool(m.out_of_gas)),
        obj_get(frame_fields(m), WireKey::Children) == Some(WireModel::Arr(spec_encode_frames(m.children))),
{
    if m.output is Some {
        if m.logs.len() > 0 {
            let flat = seq![
                (WireKey::Type, WireModel::UInt(m.kind as u64)),
                (WireKey::From, WireModel::Bytes(m.from)),
                (WireKey::Gas, WireModel::UInt(m.gas)),
                (WireKey::GasUsed, WireModel::UInt(m.gas_used)),
                (WireKey::To, WireModel::Bytes(m.to)),
                (WireKey::Input, WireModel::Bytes(m.input)),
                (WireKey::Output, WireModel::Bytes(m.output->Some_0)),
                (WireKey::Error, WireModel::Text(m.error)),
                (WireKey::RevertReason, WireModel::Text(m.revert_reason)),
                (WireKey::Logs, WireModel::Arr(spec_encode_logs(m.logs))),
                (WireKey::Value, WireModel::Bytes(m.value)),
                (WireKey::RevertedSnapshot, WireModel::Bool(m.reverted_snapshot)),
                (WireKey::AccessedSlots, spec_encode_slots(m.accessed_slots)),
                (WireKey::ExtCodeAccessInfo, WireModel::Arr(spec_encode_bytes_list(m.ext_code_access_info))),
                (WireKey::UsedOpcodes, WireModel::Table(spec_encode_opcodes(m.used_opcodes))),
                (WireKey::ContractSize, WireModel::Table(spec_encode_sizes(m.contract_size))),
                (WireKey::OutOfGas, WireModel::Bool(m.out_of_gas)),
                (WireKey::Children, WireModel::Arr(spec_encode_frames(m.children))),
            ];
            assert(frame_fields(m) =~= flat);
            lemma_obj_get_at(flat, WireKey::Type, 0);
            lemma_obj_get_at(flat, WireKey::From, 1);
            lemma_obj_get_at(flat, WireKey::Gas, 2);
            lemma_obj_get_at(flat, WireKey::GasUsed, 3);
            lemma_obj_get_at(flat, WireKey::To, 4);
            lemma_obj_get_at(flat, WireKey::Input, 5);
            lemma_obj_get_at(flat, WireKey::Output, 6);
            lemma_obj_get_at(flat, WireKey::Error, 7);
            lemma_obj_get_at(flat, WireKey::RevertReason, 8);
            lemma_obj_get_at(flat, WireKey::Logs, 9);
            lemma_obj_get_at(flat, WireKey::Value, 10);
            lemma_obj_get_at(flat, WireKey::RevertedSnapshot, 11);
            lemma_obj_get_at(flat, WireKey::AccessedSlots, 12);
            lemma_obj_get_at(flat, WireKey::ExtCodeAccessInfo, 13);
            lemma_obj_get_at(flat, WireKey::UsedOpcodes, 14);
            lemma_obj_get_at(flat, WireKey::ContractSize, 15);
            lemma_obj_get_at(flat, WireKey::OutOfGas, 16);
            lemma_obj_get_at(flat, WireKey::Children, 17);
        } else {
            let flat = seq![
                (WireKey::Type, WireModel::UInt(m.kind as u64)),
                (WireKey::From, WireModel::Bytes(m.from)),
                (WireKey::Gas, WireModel::UInt(m.gas)),
                (WireKey::GasUsed, WireModel::UInt(m.gas_used)),
                (WireKey::To, WireModel::Bytes(m.to)),
                (WireKey::Input, WireModel::Bytes(m.input)),
                (WireKey::Output, WireModel::Bytes(m.output->Some_0)),
                (WireKey::Error, WireModel::Text(m.error)),
                (WireKey::RevertReason, WireModel::Text(m.revert_reason)),
                (WireKey::Value, WireModel::Bytes(m.value)),
                (WireKey::RevertedSnapshot, WireModel::Bool(m.reverted_snapshot)),
                (WireKey::AccessedSlots, spec_encode_slots(m.accessed_slots)),
                (WireKey::ExtCodeAccessInfo, WireModel::Arr(spec_encode_bytes_list(m.ext_code_access_info))),
                (WireKey::UsedOpcodes, WireModel::Table(spec_encode_opcodes(m.used_opcodes))),
                (WireKey::ContractSize, WireModel::Table(spec_encode_sizes(m.contract_size))),
                (WireKey::OutOfGas, WireModel::Bool(m.out_of_gas)),
                (WireKey::Children, WireModel::Arr(spec_encode_frames(m.children))),
            ];
            assert(frame_fields(m) =~= flat);
            lemma_obj_get_at(flat, WireKey::Type, 0);
            lemma_obj_get_at(flat, WireKey::From, 1);
            lemma_obj_get_at(flat, WireKey::Gas, 2);
            lemma_obj_get_at(flat, WireKey::GasUsed, 3);
            lemma_obj_get_at(flat, WireKey::To, 4);
            lemma_obj_get_at(flat, WireKey::Input, 5);
            lemma_obj_get_at(flat, WireKey::Output, 6);
            lemma_obj_get_at(flat, WireKey::Error, 7);
            lemma_obj_get_at(flat, WireKey::RevertReason, 8);
            lemma_obj_get_at(flat, WireKey::Value, 9);
            lemma_obj_get_at(flat, WireKey::RevertedSnapshot, 10);
            lemma_obj_get_at(flat, WireKey::AccessedSlots, 11);
            lemma_obj_get_at(flat, WireKey::ExtCodeAccessInfo, 12);
            lemma_obj_get_at(flat, WireKey::UsedOpcodes, 13);
            lemma_obj_get_at(flat, WireKey::ContractSize, 14);
            lemma_obj_get_at(flat, WireKey::OutOfGas, 15);
            lemma_obj_get_at(flat, WireKey::Children, 16);
            lemma_obj_get_at(flat, WireKey::Logs, 17);
        }
    } else {
        if m.logs.len() > 0 {
            let flat = seq![
                (WireKey::Type, WireModel::UInt(m.kind as u64)),
                (WireKey::From, WireModel::Bytes(m.from)),
                (WireKey::Gas, WireModel::UInt(m.gas)),
                (WireKey::GasUsed, WireModel::UInt(m.gas_used)),
                (WireKey::To, WireModel::Bytes(m.to)),
                (WireKey::Input, WireModel::Bytes(m.input)),
                (WireKey::Error, WireModel::Text(m.error)),
                (WireKey::RevertReason, WireModel::Text(m.revert_reason)),
                (WireKey::Logs, WireModel::Arr(spec_encode_logs(m.logs))),
                (WireKey::Value, WireModel::Bytes(m.value)),
                (WireKey::RevertedSnapshot, WireModel::Bool(m.reverted_snapshot)),
                (WireKey::AccessedSlots, spec_encode_slots(m.accessed_slots)),
                (WireKey::ExtCodeAccessInfo, WireModel::Arr(spec_encode_bytes_list(m.ext_code_access_info))),
                (WireKey::UsedOpcodes, WireModel::Table(spec_encode_opcodes(m.used_opcodes))),
                (WireKey::ContractSize, WireModel::Table(spec_encode_sizes(m.contract_size))),
                (WireKey::OutOfGas, WireModel::Bool(m.out_of_gas)),
                (WireKey::Children, WireModel::Arr(spec_encode_frames(m.children))),
            ];
            assert(frame_fields(m) =~= flat);
            lemma_obj_get_at(flat, WireKey::Type, 0);
            lemma_obj_get_at(flat, WireKey::From, 1);
            lemma_obj_get_at(flat, WireKey::Gas, 2);
            lemma_obj_get_at(flat, WireKey::GasUsed, 3);
            lemma_obj_get_at(flat, WireKey::To, 4);
            lemma_obj_get_at(flat, WireKey::Input, 5);
            lemma_obj_get_at(flat, WireKey::Error, 6);
            lemma_obj_get_at(flat, WireKey::RevertReason, 7);
            lemma_obj_get_at(flat, WireKey::Logs, 8);
            lemma_obj_get_at(flat, WireKey::Value, 9);
            lemma_obj_get_at(flat, WireKey::RevertedSnapshot, 10);
            lemma_obj_get_at(flat, WireKey::AccessedSlots, 11);
            lemma_obj_get_at(flat, WireKey::ExtCodeAccessInfo, 12);
            lemma_obj_get_at(flat, WireKey::UsedOpcodes, 13);
            lemma_obj_get_at(flat, WireKey::ContractSize, 14);
            lemma_obj_get_at(flat, WireKey::OutOfGas, 15);
            lemma_obj_get_at(flat, WireKey::Children, 16);
            lemma_obj_get_at(flat, WireKey::Output, 17);
        } else {
            let flat = seq![
                (WireKey::Type, WireModel::UInt(m.kind as u64)),
                (WireKey::From, WireModel::Bytes(m.from)),
                (WireKey::Gas, WireModel::UInt(m.gas)),
                (WireKey::GasUsed, WireModel::UInt(m.gas_used)),
                (WireKey::To, WireModel::Bytes(m.to)),
                (WireKey::Input, WireModel::Bytes(m.input)),
                (WireKey::Error, WireModel::Text(m.error)),
                (WireKey::RevertReason, WireModel::Text(m.revert_reason)),
                (WireKey::Value, WireModel::Bytes(m.value)),
                (WireKey::RevertedSnapshot, WireModel::Bool(m.reverted_snapshot)),
                (WireKey::AccessedSlots, spec_encode_slots(m.accessed_slots)),
                (WireKey::ExtCodeAccessInfo, WireModel::Arr(spec_encode_bytes_list(m.ext_code_access_info))),
                (WireKey::UsedOpcodes, WireModel::Table(spec_encode_opcodes(m.used_opcodes))),
                (WireKey::ContractSize, WireModel::Table(spec_encode_sizes(m.contract_size))),
                (WireKey::OutOfGas, WireModel::Bool(m.out_of_gas)),
                (WireKey::Children, WireModel::Arr(spec_encode_frames(m.children))),
            ];
            assert(frame_fields(m) =~= flat);
            lemma_obj_get_at(flat, WireKey::Type, 0);
            lemma_obj_get_at(flat, WireKey::From, 1);
            lemma_obj_get_at(flat, WireKey::Gas, 2);
            lemma_obj_get_at(flat, WireKey::GasUsed, 3);
            lemma_obj_get_at(flat, WireKey::To, 4);
            lemma_obj_get_at(flat, WireKey::Input, 5);
            lemma_obj_get_at(flat, WireKey::Error, 6);
            lemma_obj_get_at(flat, WireKey::RevertReason, 7);
            lemma_obj_get_at(flat, WireKey::Value, 8);
            lemma_obj_get_at(flat, WireKey::RevertedSnapshot, 9);
            lemma_obj_get_at(flat, WireKey::AccessedSlots, 10);
            lemma_obj_get_at(flat, WireKey::ExtCodeAccessInfo, 11);
            lemma_obj_get_at(flat, WireKey::UsedOpcodes, 12);
            lemma_obj_get_at(flat, WireKey::ContractSize, 13);
            lemma_obj_get_at(flat, WireKey::OutOfGas, 14);
            lemma_obj_get_at(flat, WireKey::Children, 15);
            lemma_obj_get_at(flat, WireKey::Output, 16);
            lemma_obj_get_at(flat, WireKey::Logs, 16);
        }
    }
}

// ---------------------------------------------------------------------------
// The round-trip law: encoding a well-formed value and decoding it yields
// the value back, empty-collection omission and restoration included.
// ---------------------------------------------------------------------------

proof fn lemma_rt_texts(s: Seq<Seq<char>>)
    ensures
        spec_decode_texts(spec_encode_texts(s)) == Some(s),
    decreases s.len(),
{
    if s.len() > 0 {
        let e = spec_encode_texts(s);
        let st = s.subrange(1, s.len() as int);
        assert(e.subrange(1, e.len() as int) =~= spec_encode_texts(st));
        lemma_rt_texts(st);
        assert(seq![s[0]] + st =~= s);
    } else {
        assert(spec_encode_texts(s).len() == 0);
        assert(s =~= Seq::<Seq<char>>::empty());
    }
}

proof fn lemma_rt_counts(s: Seq<(Seq<char>, u64)>)
    requires
        keys_unique(s),
    ensures
        spec_decode_counts(spec_encode_counts(s)) == Some(s),
    decreases s.len(),
{
    if s.len() > 0 {
        let e = spec_encode_counts(s);
        let st = s.subrange(1, s.len() as int);
        assert(e.subrange(1, e.len() as int) =~= spec_encode_counts(st));
        lemma_rt_counts(st);
        lemma_unique_head_not_in_tail(s);
        assert(seq![s[0]] + st =~= s);
    } else {
        assert(spec_encode_counts(s).len() == 0);
        assert(s =~= Seq::<(Seq<char>, u64)>::empty());
    }
}

proof fn lemma_rt_reads(s: Seq<(Seq<char>, Seq<Seq<char>>)>)
    requires
        keys_unique(s),
    ensures
        spec_decode_reads(spec_encode_reads(s)) == Some(s),
    decreases s.len(),
{
    if s.len() > 0 {
        let e = spec_encode_reads(s);
        let st = s.subrange(1, s.len() as int);
        assert(e.subrange(1, e.len() as int) =~= spec_encode_reads(st));
        lemma_rt_texts(s[0].1);
        lemma_rt_reads(st);
        lemma_unique_head_not_in_tail(s);
        assert(seq![s[0]] + st =~= s);
    } else {
        assert(spec_encode_reads(s).len() == 0);
        assert(s =~= Seq::<(Seq<char>, Seq<Seq<char>>)>::empty());
    }
}

proof fn lemma_rt_opcodes(s: Seq<(u8, u64)>)
    requires
        keys_unique(s),
    ensures
        spec_decode_opcodes(spec_encode_opcodes(s)) == Some(s),
    decreases s.len(),
{
    if s.len() > 0 {
        let e = spec_encode_opcodes(s);
        let st = s.subrange(1, s.len() as int);
        assert(e.subrange(1, e.len() as int) =~= spec_encode_opcodes(st));
        lemma_rt_opcodes(st);
        lemma_unique_head_not_in_tail(s);
        assert(seq![s[0]] + st =~= s);
    } else {
        assert(spec_encode_opcodes(s).len() == 0);
        assert(s =~= Seq::<(u8, u64)>::empty());
    }
}

proof fn lemma_rt_size(c: ContractSizeWithOpCode)
    ensures
        spec_decode_size(spec_encode_size(c)) == Some(c),
{
    let sf = seq![
        (WireKey::ContractSize, WireModel::UInt(c.contract_size as u64)),
        (WireKey::Opcode, WireModel::UInt(c.opcode as u64)),
    ];
    lemma_obj_get_at(sf, WireKey::ContractSize, 0);
    lemma_obj_get_at(sf, WireKey::Opcode, 1);
}

proof fn lemma_rt_sizes(s: Seq<(Seq<u8>, ContractSizeWithOpCode)>)
    requires
        keys_unique(s),
        forall|i: int| 0 <= i < s.len() ==> (#[trigger] s[i]).0.len() == 20,
    ensures
        spec_decode_sizes(spec_encode_sizes(s)) == Some(s),
    decreases s.len(),
{
    if s.len() > 0 {
        let e = spec_encode_sizes(s);
        let st = s.subrange(1, s.len() as int);
        assert(e.subrange(1, e.len() as int) =~= spec_encode_sizes(st));
        lemma_rt_size(s[0].1);
        lemma_rt_sizes(st);
        lemma_unique_head_not_in_tail(s);
        assert(seq![s[0]] + st =~= s);
    } else {
        assert(spec_encode_sizes(s).len() == 0);
        assert(s =~= Seq::<(Seq<u8>, ContractSizeWithOpCode)>::empty());
    }
}

proof fn lemma_rt_addrs(s: Seq<Seq<u8>>)
    requires
        forall|i: int, j: int| 0 <= i < j < s.len() ==> s[i] != s[j],
        forall|i: int| 0 <= i < s.len() ==> (#[trigger] s[i]).len() == 20,
    ensures
        spec_decode_addr_list(spec_encode_bytes_list(s)) == Some(s),
    decreases s.len(),
{
    if s.len() > 0 {
        let e = spec_encode_bytes_list(s);
        let st = s.subrange(1, s.len() as int);
        assert(e.subrange(1, e.len() as int) =~= spec_encode_bytes_list(st));
        lemma_rt_addrs(st);
        if st.contains(s[0]) {
            let j = choose|j: int| 0 <= j < st.len() && st[j] == s[0];
            assert(s[j + 1] == s[0]);
            assert(false);
        }
        assert(seq![s[0]] + st =~= s);
    } else {
        assert(spec_encode_bytes_list(s).len() == 0);
        assert(s =~= Seq::<Seq<u8>>::empty());
    }
}

proof fn lemma_rt_words(s: Seq<Seq<u8>>)
    requires
        forall|i: int| 0 <= i < s.len() ==> (#[trigger] s[i]).len() == 32,
    ensures
        spec_decode_words(spec_encode_bytes_list(s)) == Some(s),
    decreases s.len(),
{
    if s.len() > 0 {
        let e = spec_encode_bytes_list(s);
        let st = s.subrange(1, s.len() as int);
        assert(e.subrange(1, e.len() as int) =~= spec_encode_bytes_list(st));
        lemma_rt_words(st);
        assert(seq![s[0]] + st =~= s);
    } else {
        assert(spec_encode_bytes_list(s).len() == 0);
        assert(s =~= Seq::<Seq<u8>>::empty());
    }
}

proof fn lemma_rt_log(l: LogModel)
    requires
        l.wf(),
    ensures
        spec_decode_log(spec_encode_log(l)) == Some(l),
{
    let lf = seq![
        (WireKey::Topics, WireModel::Arr(spec_encode_bytes_list(l.topics))),
        (WireKey::Data, WireModel::Bytes(l.data)),
    ];
    lemma_obj_get_at(lf, WireKey::Topics, 0);
    lemma_obj_get_at(lf, WireKey::Data, 1);
    lemma_rt_words(l.topics);
}

proof fn lemma_rt_logs(s: Seq<LogModel>)
    requires
        forall|i: int| 0 <= i < s.len() ==> (#[trigger] s[i]).wf(),
    ensures
        spec_decode_logs(spec_encode_logs(s)) == Some(s),
    decreases s.len(),
{
    if s.len() > 0 {
        let e = spec_encode_logs(s);
        let st = s.subrange(1, s.len() as int);
        assert(e.subrange(1, e.len() as int) =~= spec_encode_logs(st));
        lemma_rt_log(s[0]);
        lemma_rt_logs(st);
        assert(seq![s[0]] + st =~= s);
    } else {
        assert(spec_encode_logs(s).len() == 0);
        assert(s =~= Seq::<LogModel>::empty());
    }
}

proof fn lemma_rt_slots(sl: SlotsModel)
    requires
        sl.wf(),
    ensures
        spec_decode_slots(
            seq![
                (WireKey::Reads, WireModel::Table(spec_encode_reads(sl.reads))),
                (WireKey::Writes, WireModel::Table(spec_encode_counts(sl.writes))),
                (WireKey::TransientReads, WireModel::Table(spec_encode_counts(sl.transient_reads))),
                (
                    WireKey::TransientWrites,
                    WireModel::Table(spec_encode_counts(sl.transient_writes)),
                ),
            ],
        ) == Some(sl),
{
    let sf = seq![
        (WireKey::Reads, WireModel::Table(spec_encode_reads(sl.reads))),
        (WireKey::Writes, WireModel::Table(spec_encode_counts(sl.writes))),
        (WireKey::TransientReads, WireModel::Table(spec_encode_counts(sl.transient_reads))),
        (WireKey::TransientWrites, WireModel::Table(spec_encode_counts(sl.transient_writes))),
    ];
    lemma_obj_get_at(sf, WireKey::Reads, 0);
    lemma_obj_get_at(sf, WireKey::Writes, 1);
    lemma_obj_get_at(sf, WireKey::TransientReads, 2);
    lemma_obj_get_at(sf, WireKey::TransientWrites, 3);
    lemma_rt_reads(sl.reads);
    lemma_rt_counts(sl.writes);
    lemma_rt_counts(sl.transient_reads);
    lemma_rt_counts(sl.transient_writes);
}

proof fn lemma_rt_opcode_list(s: Seq<u8>)
    requires
        forall|i: int, j: int| 0 <= i < j < s.len() ==> s[i] != s[j],
    ensures
        spec_decode_opcode_list(spec_encode_opcode_list(s)) == Some(s),
    decreases s.len(),
{
    if s.len() > 0 {
        let e = spec_encode_opcode_list(s);
        let st = s.subrange(1, s.len() as int);
        assert(e.subrange(1, e.len() as int) =~= spec_encode_opcode_list(st));
        lemma_rt_opcode_list(st);
        if st.contains(s[0]) {
            let j = choose|j: int| 0 <= j < st.len() && st[j] == s[0];
            assert(s[j + 1] == s[0]);
            assert(false);
        }
        assert(seq![s[0]] + st =~= s);
    } else {
        assert(spec_encode_opcode_list(s).len() == 0);
        assert(s =~= Seq::<u8>::empty());
    }
}

/// The round-trip law for configurations: encoding a well-formed
/// configuration and decoding the result yields it back.
pub proof fn lemma_config_round_trip(c: ConfigModel)
    requires
        c.wf(),
    ensures
        spec_decode_config(spec_encode_config(c)) == Some(c),
{
    let fields = seq![
        (WireKey::StackTopItemsSize, WireModel::UInt(c.stack_top_items_size as u64)),
        (WireKey::IgnoredOpcodes, WireModel::Arr(spec_encode_opcode_list(c.ignored_opcodes))),
        (WireKey::WithLog, WireModel::Bool(c.with_log)),
    ];
    lemma_obj_get_at(fields, WireKey::StackTopItemsSize, 0);
    lemma_obj_get_at(fields, WireKey::IgnoredOpcodes, 1);
    lemma_obj_get_at(fields, WireKey::WithLog, 2);
    lemma_rt_opcode_list(c.ignored_opcodes);
}

/// The round-trip law: encoding a well-formed frame tree and decoding the
/// result yields an equal tree, the omitted absent `output` and empty `logs`
/// restored.
#[verifier::rlimit(100)]
pub proof fn lemma_frame_round_trip(m: FrameModel)
    requires
        frame_wf(m),
    ensures
        spec_decode_frame(spec_encode_frame(m)) == Some(m),
    decreases m,
{
    lemma_frame_fields_get(m);
    let fields = frame_fields(m);
    if m.logs.len() == 0 {
        assert(m.logs =~= Seq::<LogModel>::empty());
    } else {
        lemma_rt_logs(m.logs);
    }
    lemma_rt_slots(m.accessed_slots);
    lemma_rt_addrs(m.ext_code_access_info);
    lemma_rt_opcodes(m.used_opcodes);
    lemma_rt_sizes(m.contract_size);
    lemma_rt_frames(m.children);
    assert(spec_decode_frame(spec_encode_frame(m)) == Some(m));
}

/// The round-trip law for a list of well-formed frames.
pub proof fn lemma_rt_frames(s: Seq<FrameModel>)
    requires
        forall|i: int| 0 <= i < s.len() ==> frame_wf(#[trigger] s[i]),
    ensures
        spec_decode_frames(spec_encode_frames(s)) == Some(s),
    decreases s,
{
    if s.len() > 0 {
        let e = spec_encode_frames(s);
        let st = s.subrange(1, s.len() as int);
        assert(e.subrange(1, e.len() as int) =~= spec_encode_frames(st));
        lemma_frame_round_trip(s[0]);
        lemma_rt_frames(st);
        assert(seq![s[0]] + st =~= s);
    } else {
        assert(s =~= Seq::<FrameModel>::empty());
    }
}

// ---------------------------------------------------------------------------
// Encoding, executable.
// ---------------------------------------------------------------------------

/// Models of a string list.
pub open spec fn texts_model(v: Seq<String>) -> Seq<Seq<char>> {
    Seq::new(v.len(), |i: int| v[i]@)
}

/// A fresh byte string with the same bytes.
fn copy_bytes(b: &Vec<u8>) -> (r: Vec<u8>)
    ensures
        r@ == b@,
{
    let mut out: Vec<u8> = Vec::new();
    let n = b.len();
    let mut i: usize = 0;
    while i < n
        invariant
            i <= n,
            n == b@.len(),
            out@ == b@.subrange(0, i as int),
        decreases n - i,
    {
        out.push(b[i]);
        i = i + 1;
        proof {
            assert(out@ =~= b@.subrange(0, i as int));
        }
    }
    proof {
        assert(out@ =~= b@);
    }
    out
}

/// Wire nodes of a string list.
fn encode_texts(v: &Vec<String>) -> (r: Vec<WireValue>)
    ensures
        wire_models(r@) == spec_encode_texts(texts_model(v@)),
{
    let ghost target = spec_encode_texts(texts_model(v@));
    let mut out: Vec<WireValue> = Vec::new();
    let n = v.len();
    let mut i: usize = 0;
    proof {
        assert(wire_models(out@) =~= target.subrange(0, 0));
    }
    while i < n
        invariant
            i <= n,
            n == v@.len(),
            target == spec_encode_texts(texts_model(v@)),
            wire_models(out@) == target.subrange(0, i as int),
        decreases n - i,
    {
        proof {
            lemma_wire_models_push(out@, WireValue::Text(v@[i as int]));
        }
        out.push(WireValue::Text(v[i].clone()));
        i = i + 1;
        proof {
            assert(wire_models(out@) =~= target.subrange(0, i as int));
        }
    }
    proof {
        assert(target.subrange(0, n as int) =~= target);
    }
    out
}

/// Wire nodes of a byte-string list.
fn encode_bytes_vals(v: &Vec<Vec<u8>>) -> (r: Vec<WireValue>)
    ensures
        wire_models(r@) == spec_encode_bytes_list(addrs_model(v@)),
{
    let ghost target = spec_encode_bytes_list(addrs_model(v@));
    let mut out: Vec<WireValue> = Vec::new();
    let n = v.len();
    let mut i: usize = 0;
    proof {
        assert(wire_models(out@) =~= target.subrange(0, 0));
    }
    while i < n
        invariant
            i <= n,
            n == v@.len(),
            target == spec_encode_bytes_list(addrs_model(v@)),
            wire_models(out@) == target.subrange(0, i as int),
        decreases n - i,
    {
        let b = copy_bytes(&v[i]);
        proof {
            lemma_wire_models_push(out@, WireValue::Bytes(b));
        }
        out.push(WireValue::Bytes(b));
        i = i + 1;
        proof {
            assert(wire_models(out@) =~= target.subrange(0, i as int));
        }
    }
    proof {
        assert(target.subrange(0, n as int) =~= target);
    }
    out
}

/// Wire entries of a counter map.
fn encode_counts(v: &Vec<(String, u64)>) -> (r: Vec<(MapKey, WireValue)>)
    ensures
        wire_table_model(r@) == spec_encode_counts(count_map_model(v@)),
{
    let ghost target = spec_encode_counts(count_map_model(v@));
    let mut out: Vec<(MapKey, WireValue)> = Vec::new();
    let n = v.len();
    let mut i: usize = 0;
    proof {
        assert(wire_table_model(out@) =~= target.subrange(0, 0));
    }
    while i < n
        invariant
            i <= n,
            n == v@.len(),
            target == spec_encode_counts(count_map_model(v@)),
            wire_table_model(out@) == target.subrange(0, i as int),
        decreases n - i,
    {
        let entry = (MapKey::Text(v[i].0.clone()), WireValue::UInt(v[i].1));
        proof {
            lemma_wire_table_model_push(out@, entry);
        }
        out.push(entry);
        i = i + 1;
        proof {
            assert(wire_table_model(out@) =~= target.subrange(0, i as int));
        }
    }
    proof {
        assert(target.subrange(0, n as int) =~= target);
    }
    out
}

/// Wire entries of the read map.
fn encode_reads(v: &Vec<(String, Vec<String>)>) -> (r: Vec<(MapKey, WireValue)>)
    ensures
        wire_table_model(r@) == spec_encode_reads(read_map_model(v@)),
{
    let ghost target = spec_encode_reads(read_map_model(v@));
    let mut out: Vec<(MapKey, WireValue)> = Vec::new();
    let n = v.len();
    let mut i: usize = 0;
    proof {
        assert(wire_table_model(out@) =~= target.subrange(0, 0));
    }
    while i < n
        invariant
            i <= n,
            n == v@.len(),
            target == spec_encode_reads(read_map_model(v@)),
            wire_table_model(out@) == target.subrange(0, i as int),
        decreases n - i,
    {
        let vals = encode_texts(&v[i].1);
        let entry = (MapKey::Text(v[i].0.clone()), WireValue::Arr(vals));
        proof {
            assert(read_map_model(v@)[i as int].1 =~= texts_model(v@[i as int].1@));
            lemma_wire_table_model_push(out@, entry);
        }
        out.push(entry);
        i = i + 1;
        proof {
            assert(wire_table_model(out@) =~= target.subrange(0, i as int));
        }
    }
    proof {
        assert(target.subrange(0, n as int) =~= target);
    }
    out
}

/// Wire entries of the opcode-count map.
fn encode_opcodes(v: &Vec<(u8, u64)>) -> (r: Vec<(MapKey, WireValue)>)
    ensures
        wire_table_model(r@) == spec_encode_opcodes(v@),
{
    let ghost target = spec_encode_opcodes(v@);
    let mut out: Vec<(MapKey, WireValue)> = Vec::new();
    let n = v.len();
    let mut i: usize = 0;
    proof {
        assert(wire_table_model(out@) =~= target.subrange(0, 0));
    }
    while i < n
        invariant
            i <= n,
            n == v@.len(),
            target == spec_encode_opcodes(v@),
            wire_table_model(out@) == target.subrange(0, i as int),
        decreases n - i,
    {
        let entry = (MapKey::Byte(v[i].0), WireValue::UInt(v[i].1));
        proof {
            lemma_wire_table_model_push(out@, entry);
        }
        out.push(entry);
        i = i + 1;
        proof {
            assert(wire_table_model(out@) =~= target.subrange(0, i as int));
        }
    }
    proof {
        assert(target.subrange(0, n as int) =~= target);
    }
    out
}

/// Wire form of one contract-size record.
fn encode_size_obj(c: &ContractSizeWithOpCode) -> (r: WireValue)
    ensures
        r@ == spec_encode_size(*c),
{
    let mut fields: Vec<(WireKey, WireValue)> = Vec::new();
    proof {
        lemma_wire_obj_model_push(
            fields@,
            (WireKey::ContractSize, WireValue::UInt(c.contract_size as u64)),
        );
    }
    fields.push((WireKey::ContractSize, WireValue::UInt(c.contract_size as u64)));
    proof {
        lemma_wire_obj_model_push(fields@, (WireKey::Opcode, WireValue::UInt(c.opcode as u64)));
    }
    fields.push((WireKey::Opcode, WireValue::UInt(c.opcode as u64)));
    proof {
        assert(wire_obj_model(fields@) =~= seq![
            (WireKey::ContractSize, WireModel::UInt(c.contract_size as u64)),
            (WireKey::Opcode, WireModel::UInt(c.opcode as u64)),
        ]);
    }
    WireValue::Obj(fields)
}

/// Wire entries of the contract-size map.
fn encode_sizes(v: &Vec<(Vec<u8>, ContractSizeWithOpCode)>) -> (r: Vec<(MapKey, WireValue)>)
    ensures
        wire_table_model(r@) == spec_encode_sizes(sizes_model(v@)),
{
    let ghost target = spec_encode_sizes(sizes_model(v@));
    let mut out: Vec<(MapKey, WireValue)> = Vec::new();
    let n = v.len();
    let mut i: usize = 0;
    proof {
        assert(wire_table_model(out@) =~= target.subrange(0, 0));
    }
    while i < n
        invariant
            i <= n,
            n == v@.len(),
            target == spec_encode_sizes(sizes_model(v@)),
            wire_table_model(out@) == target.subrange(0, i as int),
        decreases n - i,
    {
        let so = encode_size_obj(&v[i].1);
        let entry = (MapKey::Addr(copy_bytes(&v[i].0)), so);
        proof {
            lemma_wire_table_model_push(out@, entry);
        }
        out.push(entry);
        i = i + 1;
        proof {
            assert(wire_table_model(out@) =~= target.subrange(0, i as int));
        }
    }
    proof {
        assert(target.subrange(0, n as int) =~= target);
    }
    out
}

/// Wire form of one log record.
fn encode_log(l: &CallLogFrame) -> (r: WireValue)
    ensures
        r@ == spec_encode_log(l@),
{
    let topics = encode_bytes_vals(&l.topics);
    let data = copy_bytes(&l.data);
    let mut fields: Vec<(WireKey, WireValue)> = Vec::new();
    proof {
        assert(addrs_model(l.topics@) =~= l@.topics);
        lemma_wire_obj_model_push(fields@, (WireKey::Topics, WireValue::Arr(topics)));
    }
    let entry0 = (WireKey::Topics, WireValue::Arr(topics));
    fields.push(entry0);
    proof {
        lemma_wire_obj_model_push(fields@, (WireKey::Data, WireValue::Bytes(data)));
    }
    fields.push((WireKey::Data, WireValue::Bytes(data)));
    proof {
        assert(wire_obj_model(fields@) =~= seq![
            (WireKey::Topics, WireModel::Arr(spec_encode_bytes_list(l@.topics))),
            (WireKey::Data, WireModel::Bytes(l@.data)),
        ]);
    }
    WireValue::Obj(fields)
}

/// Wire nodes of a log list.
fn encode_logs(v: &Vec<CallLogFrame>) -> (r: Vec<WireValue>)
    ensures
        wire_models(r@) == spec_encode_logs(logs_model(v@)),
{
    let ghost target = spec_encode_logs(logs_model(v@));
    let mut out: Vec<WireValue> = Vec::new();
    let n = v.len();
    let mut i: usize = 0;
    proof {
        assert(wire_models(out@) =~= target.subrange(0, 0));
    }
    while i < n
        invariant
            i <= n,
            n == v@.len(),
            target == spec_encode_logs(logs_model(v@)),
            wire_models(out@) == target.subrange(0, i as int),
        decreases n - i,
    {
        let lw = encode_log(&v[i]);
        proof {
            lemma_wire_models_push(out@, lw);
        }
        out.push(lw);
        i = i + 1;
        proof {
            assert(wire_models(out@) =~= target.subrange(0, i as int));
        }
    }
    proof {
        assert(target.subrange(0, n as int) =~= target);
    }
    out
}

/// Wire form of the ledger.
fn encode_slots(a: &AccessedSlots) -> (r: WireValue)
    ensures
        r@ == spec_encode_slots(a@),
{
    let reads = encode_reads(&a.reads);
    let writes = encode_counts(&a.writes);
    let tr = encode_counts(&a.transient_reads);
    let tw = encode_counts(&a.transient_writes);
    let mut fields: Vec<(WireKey, WireValue)> = Vec::new();
    proof {
        lemma_wire_obj_model_push(fields@, (WireKey::Reads, WireValue::Table(reads)));
    }
    let e0 = (WireKey::Reads, WireValue::Table(reads));
    fields.push(e0);
    proof {
        lemma_wire_obj_model_push(fields@, (WireKey::Writes, WireValue::Table(writes)));
    }
    let e1 = (WireKey::Writes, WireValue::Table(writes));
    fields.push(e1);
    proof {
        lemma_wire_obj_model_push(fields@, (WireKey::TransientReads, WireValue::Table(tr)));
    }
    let e2 = (WireKey::TransientReads, WireValue::Table(tr));
    fields.push(e2);
    proof {
        lemma_wire_obj_model_push(fields@, (WireKey::TransientWrites, WireValue::Table(tw)));
    }
    let e3 = (WireKey::TransientWrites, WireValue::Table(tw));
    fields.push(e3);
    proof {
        assert(wire_obj_model(fields@) =~= seq![
            (WireKey::Reads, WireModel::Table(spec_encode_reads(a@.reads))),
            (WireKey::Writes, WireModel::Table(spec_encode_counts(a@.writes))),
            (WireKey::TransientReads, WireModel::Table(spec_encode_counts(a@.transient_reads))),
            (WireKey::TransientWrites, WireModel::Table(spec_encode_counts(a@.transient_writes))),
        ]);
    }
    WireValue::Obj(fields)
}

/// Encodes a configuration for the wire.
pub fn encode_config(c: &Erc7562ValidationTracerConfig) -> (w: WireValue)
    ensures
        w@ == spec_encode_config(c@),
{
    let ghost target = spec_encode_opcode_list(c@.ignored_opcodes);
    let mut items: Vec<WireValue> = Vec::new();
    let n = c.ignored_opcodes.len();
    let mut i: usize = 0;
    proof {
        assert(wire_models(items@) =~= target.subrange(0, 0));
    }
    while i < n
        invariant
            i <= n,
            n == c.ignored_opcodes@.len(),
            target == spec_encode_opcode_list(c@.ignored_opcodes),
            wire_models(items@) == target.subrange(0, i as int),
        decreases n - i,
    {
        let b = c.ignored_opcodes[i];
        proof {
            lemma_wire_models_push(items@, WireValue::UInt(b as u64));
        }
        items.push(WireValue::UInt(b as u64));
        i = i + 1;
        proof {
            assert(wire_models(items@) =~= target.subrange(0, i as int));
        }
    }
    proof {
        assert(target.subrange(0, n as int) =~= target);
    }
    let mut fields: Vec<(WireKey, WireValue)> = Vec::new();
    proof {
        lemma_wire_obj_model_push(
            fields@,
            (WireKey::StackTopItemsSize, WireValue::UInt(c.stack_top_items_size as u64)),
        );
    }
    fields.push((WireKey::StackTopItemsSize, WireValue::UInt(c.stack_top_items_size as u64)));
    proof {
        lemma_wire_obj_model_push(fields@, (WireKey::IgnoredOpcodes, WireValue::Arr(items)));
    }
    let e1 = (WireKey::IgnoredOpcodes, WireValue::Arr(items));
    fields.push(e1);
    proof {
        lemma_wire_obj_model_push(fields@, (WireKey::WithLog, WireValue::Bool(c.with_log)));
    }
    fields.push((WireKey::WithLog, WireValue::Bool(c.with_log)));
    proof {
        assert(wire_obj_model(fields@) =~= seq![
            (WireKey::StackTopItemsSize, WireModel::UInt(c@.stack_top_items_size as u64)),
            (WireKey::IgnoredOpcodes, WireModel::Arr(spec_encode_opcode_list(c@.ignored_opcodes))),
            (WireKey::WithLog, WireModel::Bool(c@.with_log)),
        ]);
    }
    WireValue::Obj(fields)
}

/// `spec_encode_frames` maps each frame to its wire form, keeping order.
pub proof fn lemma_spec_encode_frames(s: Seq<FrameModel>)
    ensures
        spec_encode_frames(s).len() == s.len(),
        forall|i: int| 0 <= i < s.len() ==> spec_encode_frames(s)[i] == spec_encode_frame(
            #[trigger] s[i],
        ),
    decreases s,
{
    if s.len() > 0 {
        lemma_spec_encode_frames(s.subrange(1, s.len() as int));
        assert forall|i: int| 0 <= i < s.len() implies spec_encode_frames(s)[i]
            == spec_encode_frame(#[trigger] s[i]) by {
            if i > 0 {
                assert(s.subrange(1, s.len() as int)[i - 1] == s[i]);
            }
        }
    }
}

/// Builds the field list of one frame's wire object from its parts.
#[verifier::rlimit(100)]
fn frame_obj(f: &CallFrameWithOpCodes, children: Vec<WireValue>) -> (r: Vec<(WireKey, WireValue)>)
    requires
        wire_models(children@) == spec_encode_frames(frame_model(*f).children),
    ensures
        wire_obj_model(r@) == frame_fields(frame_model(*f)),
{
    let from_b = copy_bytes(&f.from);
    let to_b = copy_bytes(&f.to);
    let input_b = copy_bytes(&f.input);
    let value_b = copy_bytes(&f.value);
    let err_s = f.error.clone();
    let rr_s = f.revert_reason.clone();
    let sl = encode_slots(&f.accessed_slots);
    let ext = encode_bytes_vals(&f.ext_code_access_info);
    let ops = encode_opcodes(&f.used_opcodes);
    let szs = encode_sizes(&f.contract_size);
    let mut fields: Vec<(WireKey, WireValue)> = Vec::new();
    fields.push((WireKey::Type, WireValue::UInt(f.kind as u64)));
    fields.push((WireKey::From, WireValue::Bytes(from_b)));
    fields.push((WireKey::Gas, WireValue::UInt(f.gas)));
    fields.push((WireKey::GasUsed, WireValue::UInt(f.gas_used)));
    fields.push((WireKey::To, WireValue::Bytes(to_b)));
    fields.push((WireKey::Input, WireValue::Bytes(input_b)));
    match &f.output {
        Some(ob) => {
            let out_b = copy_bytes(ob);
            fields.push((WireKey::Output, WireValue::Bytes(out_b)));
        },
        None => {},
    }
    fields.push((WireKey::Error, WireValue::Text(err_s)));
    fields.push((WireKey::RevertReason, WireValue::Text(rr_s)));
    if f.logs.len() > 0 {
        let lw = encode_logs(&f.logs);
        fields.push((WireKey::Logs, WireValue::Arr(lw)));
    }
    fields.push((WireKey::Value, WireValue::Bytes(value_b)));
    fields.push((WireKey::RevertedSnapshot, WireValue::Bool(f.reverted_snapshot)));
    fields.push((WireKey::AccessedSlots, sl));
    fields.push((WireKey::ExtCodeAccessInfo, WireValue::Arr(ext)));
    fields.push((WireKey::UsedOpcodes, WireValue::Table(ops)));
    fields.push((WireKey::ContractSize, WireValue::Table(szs)));
    fields.push((WireKey::OutOfGas, WireValue::Bool(f.out_of_gas)));
    fields.push((WireKey::Children, WireValue::Arr(children)));
    proof {
        lemma_wire_obj_model(fields@);
        assert(wire_obj_model(fields@) =~= frame_fields(frame_model(*f)));
    }
    fields
}

/// Encodes a finished frame tree for the wire: `output` is omitted when
/// absent, `logs` when empty.
pub fn encode_frame(f: &CallFrameWithOpCodes) -> (w: WireValue)
    ensures
        w@ == spec_encode_frame(f@),
    decreases *f,
{
    let ghost target = spec_encode_frames(f@.children);
    let mut children: Vec<WireValue> = Vec::new();
    let n = f.children.len();
    let mut i: usize = 0;
    proof {
        lemma_frame_models(f.children@);
        lemma_spec_encode_frames(f@.children);
        assert(wire_models(children@) =~= target.subrange(0, 0));
    }
    while i < n
        invariant
            i <= n,
            n == f.children@.len(),
            f@.children.len() == n,
            forall|k: int| 0 <= k < n ==> f@.children[k] == frame_model(#[trigger] f.children@[k]),
            target == spec_encode_frames(f@.children),
            target.len() == n,
            forall|k: int| 0 <= k < n ==> target[k] == spec_encode_frame(#[trigger] f@.children[k]),
            wire_models(children@) == target.subrange(0, i as int),
        decreases n - i,
    {
        proof {
            assert(decreases_to!(*f => f.children));
            assert(decreases_to!(f.children => f.children@));
            assert(decreases_to!(f.children@ => f.children@[i as int]));
        }
        let cw = encode_frame(&f.children[i]);
        proof {
            lemma_wire_models_push(children@, cw);
        }
        children.push(cw);
        i = i + 1;
        proof {
            assert(wire_models(children@) =~= target.subrange(0, i as int));
        }
    }
    proof {
        assert(target.subrange(0, n as int) =~= target);
    }
    let fields = frame_obj(f, children);
    WireValue::Obj(fields)
}

// ---------------------------------------------------------------------------
// Decoding, executable.
// ---------------------------------------------------------------------------

/// Finds the first field under `k`, as `obj_get` reads the model.
fn obj_find<'a>(fields: &'a Vec<(WireKey, WireValue)>, k: WireKey) -> (r: Option<&'a WireValue>)
    ensures
        match r {
            Some(v) => obj_get(wire_obj_model(fields@), k) == Some(v@) && exists|j: int|
                0 <= j < fields@.len() && *v == (#[trigger] fields@[j]).1,
            None => obj_get(wire_obj_model(fields@), k) is None,
        },
{
    proof {
        lemma_wire_obj_model(fields@);
    }
    let n = fields.len();
    let mut i: usize = 0;
    while i < n
        invariant
            i <= n,
            n == fields@.len(),
            forall|j: int| 0 <= j < i ==> (#[trigger] fields@[j]).0 != k,
        decreases n - i,
    {
        if fields[i].0 == k {
            proof {
                lemma_wire_obj_model(fields@);
                assert forall|j: int| 0 <= j < i implies (#[trigger] wire_obj_model(fields@)[j]).0
                    != k by {
                    assert(wire_obj_model(fields@)[j] == (fields@[j].0, wire_model(fields@[j].1)));
                }
                lemma_obj_get_at(wire_obj_model(fields@), k, i as int);
                assert(wire_obj_model(fields@)[i as int] == (fields@[i as int].0, wire_model(
                    fields@[i as int].1,
                )));
            }
            return Some(&fields[i].1);
        }
        i = i + 1;
    }
    proof {
        lemma_wire_obj_model(fields@);
        assert forall|j: int| 0 <= j < n implies (#[trigger] wire_obj_model(fields@)[j]).0
            != k by {
            assert(wire_obj_model(fields@)[j] == (fields@[j].0, wire_model(fields@[j].1)));
        }
        lemma_obj_get_at(wire_obj_model(fields@), k, n as int);
    }
    None
}

/// Whether a byte list holds `b`.
fn contains_byte(v: &Vec<u8>, b: u8) -> (r: bool)
    ensures
        r == v@.contains(b),
{
    let n = v.len();
    let mut i: usize = 0;
    while i < n
        invariant
            i <= n,
            n == v@.len(),
            forall|j: int| 0 <= j < i ==> v@[j] != b,
        decreases n - i,
    {
        if v[i] == b {
            return true;
        }
        i = i + 1;
    }
    proof {
        if v@.contains(b) {
            let j = choose|j: int| 0 <= j < v@.len() && v@[j] == b;
            assert(false);
        }
    }
    false
}

/// Decodes the ignored-opcode set.
fn decode_opcode_list(items: &Vec<WireValue>) -> (r: Result<Vec<u8>, TraceError>)
    ensures
        r matches Ok(v) ==> spec_decode_opcode_list(wire_models(items@)) == Some(v@),
        r is Err ==> spec_decode_opcode_list(wire_models(items@)) is None && r == Result::<
            Vec<u8>,
            TraceError,
        >::Err(TraceError::MalformedWireData),
{
    proof {
        lemma_wire_models(items@);
    }
    let ghost e = wire_models(items@);
    let n = items.len();
    let mut out: Vec<u8> = Vec::new();
    let mut ok: bool = true;
    let mut i: usize = n;
    proof {
        assert(e.subrange(n as int, n as int) =~= Seq::<WireModel>::empty());
    }
    while i > 0
        invariant
            i <= n,
            n == items@.len(),
            e == wire_models(items@),
            e.len() == n,
            forall|j: int| 0 <= j < n ==> e[j] == wire_model(#[trigger] items@[j]),
            ok ==> spec_decode_opcode_list(e.subrange(i as int, n as int)) == Some(out@),
            !ok ==> spec_decode_opcode_list(e.subrange(i as int, n as int)) is None,
        decreases i,
    {
        i = i - 1;
        let ghost prev = out@;
        proof {
            assert(e.subrange(i as int, n as int)[0] == e[i as int]);
            assert(e.subrange(i as int, n as int).subrange(
                1,
                e.subrange(i as int, n as int).len() as int,
            ) =~= e.subrange(i as int + 1, n as int));
        }
        if ok {
            match &items[i] {
                WireValue::UInt(nn) => {
                    if *nn <= 255 {
                        let b = *nn as u8;
                        if contains_byte(&out, b) {
                            ok = false;
                        } else {
                            out.insert(0, b);
                            proof {
                                assert(out@ =~= seq![b] + prev);
                            }
                        }
                    } else {
                        ok = false;
                    }
                },
                _ => {
                    ok = false;
                },
            }
        }
    }
    if ok {
        proof {
            assert(e.subrange(0, n as int) =~= e);
        }
        Ok(out)
    } else {
        proof {
            assert(e.subrange(0, n as int) =~= e);
        }
        Err(TraceError::MalformedWireData)
    }
}

/// Decodes a configuration from the wire, applying the documented defaults
/// for missing fields; rejects shape mismatches and duplicated opcodes.
pub fn decode_config(w: &WireValue) -> (r: Result<Erc7562ValidationTracerConfig, TraceError>)
    ensures
        r matches Ok(c) ==> spec_decode_config(w@) == Some(c@) && c@.wf(),
        r is Err ==> spec_decode_config(w@) is None && r == Result::<
            Erc7562ValidationTracerConfig,
            TraceError,
        >::Err(TraceError::MalformedWireData),
{
    let fields = match w {
        WireValue::Obj(fs) => fs,
        _ => {
            return Err(TraceError::MalformedWireData);
        },
    };
    proof {
        assert(w@ == WireModel::Obj(wire_obj_model(fields@)));
    }
    let stack_top_items_size: usize = match obj_find(fields, WireKey::StackTopItemsSize) {
        None => 3,
        Some(WireValue::UInt(n)) => {
            if *n <= usize::MAX as u64 {
                *n as usize
            } else {
                return Err(TraceError::MalformedWireData);
            }
        },
        Some(_) => {
            return Err(TraceError::MalformedWireData);
        },
    };
    let ignored_opcodes: Vec<u8> = match obj_find(fields, WireKey::IgnoredOpcodes) {
        None => Vec::new(),
        Some(WireValue::Arr(items)) => {
            match decode_opcode_list(items) {
                Ok(v) => {
                    proof {
                        lemma_opcode_list_unique(wire_models(items@));
                    }
                    v
                },
                Err(err) => {
                    return Err(err);
                },
            }
        },
        Some(_) => {
            return Err(TraceError::MalformedWireData);
        },
    };
    let with_log: bool = match obj_find(fields, WireKey::WithLog) {
        None => true,
        Some(WireValue::Bool(b)) => *b,
        Some(_) => {
            return Err(TraceError::MalformedWireData);
        },
    };
    let c = Erc7562ValidationTracerConfig { stack_top_items_size, ignored_opcodes, with_log };
    Ok(c)
}

/// Whatever `spec_decode_opcode_list` accepts has no opcode twice.
proof fn lemma_opcode_list_unique(e: Seq<WireModel>)
    requires
        spec_decode_opcode_list(e) is Some,
    ensures
        forall|a: int, b: int|
            0 <= a < b < spec_decode_opcode_list(e)->Some_0.len()
                ==> spec_decode_opcode_list(e)->Some_0[a] != spec_decode_opcode_list(e)->Some_0[b],
    decreases e.len(),
{
    if e.len() > 0 {
        let tail_e = e.subrange(1, e.len() as int);
        lemma_opcode_list_unique(tail_e);
        let s = spec_decode_opcode_list(e)->Some_0;
        let t = spec_decode_opcode_list(tail_e)->Some_0;
        let h = e[0]->UInt_0 as u8;
        assert(s =~= seq![h] + t);
        assert(!t.contains(h));
        assert forall|a: int, b: int| 0 <= a < b < s.len() implies s[a] != s[b] by {
            if a == 0 {
                assert(s[b] == t[b - 1]);
                if s[a] == s[b] {
                    assert(t.contains(h));
                }
            } else {
                assert(s[a] == t[a - 1]);
                assert(s[b] == t[b - 1]);
            }
        }
    }
}

/// Whether a byte-string list holds `b`.
fn contains_bytes(v: &Vec<Vec<u8>>, b: &Vec<u8>) -> (r: bool)
    ensures
        r == addrs_model(v@).contains(b@),
{
    let n = v.len();
    let mut i: usize = 0;
    while i < n
        invariant
            i <= n,
            n == v@.len(),
            forall|j: int| 0 <= j < i ==> (#[trigger] v@[j])@ != b@,
        decreases n - i,
    {
        if bytes_eq(&v[i], b) {
            proof {
                assert(addrs_model(v@)[i as int] == b@);
            }
            return true;
        }
        i = i + 1;
    }
    proof {
        if addrs_model(v@).contains(b@) {
            let j = choose|j: int| 0 <= j < addrs_model(v@).len() && addrs_model(v@)[j] == b@;
            assert(v@[j]@ == b@);
            assert(false);
        }
    }
    false
}

/// Whether a counter map holds `k`.
fn count_has_key(v: &Vec<(String, u64)>, k: &String) -> (r: bool)
    ensures
        r == has_key(count_map_model(v@), k@),
{
    let n = v.len();
    let mut i: usize = 0;
    while i < n
        invariant
            i <= n,
            n == v@.len(),
            forall|j: int| 0 <= j < i ==> (#[trigger] v@[j]).0@ != k@,
        decreases n - i,
    {
        if v[i].0 == *k {
            proof {
                assert((#[trigger] count_map_model(v@)[i as int]).0 == k@);
            }
            return true;
        }
        i = i + 1;
    }
    proof {
        if has_key(count_map_model(v@), k@) {
            let j = choose|j: int|
                0 <= j < count_map_model(v@).len() && (#[trigger] count_map_model(v@)[j]).0 == k@;
            assert(v@[j].0@ == k@);
            assert(false);
        }
    }
    false
}

/// Whether the read map holds `k`.
fn read_has_key(v: &Vec<(String, Vec<String>)>, k: &String) -> (r: bool)
    ensures
        r == has_key(read_map_model(v@), k@),
{
    let n = v.len();
    let mut i: usize = 0;
    while i < n
        invariant
            i <= n,
            n == v@.len(),
            forall|j: int| 0 <= j < i ==> (#[trigger] v@[j]).0@ != k@,
        decreases n - i,
    {
        if v[i].0 == *k {
            proof {
                assert((#[trigger] read_map_model(v@)[i as int]).0 == k@);
            }
            return true;
        }
        i = i + 1;
    }
    proof {
        if has_key(read_map_model(v@), k@) {
            let j = choose|j: int|
                0 <= j < read_map_model(v@).len() && (#[trigger] read_map_model(v@)[j]).0 == k@;
            assert(v@[j].0@ == k@);
            assert(false);
        }
    }
    false
}

/// Whether the opcode-count map holds `k`.
fn opcode_has_key(v: &Vec<(u8, u64)>, k: u8) -> (r: bool)
    ensures
        r == has_key(v@, k),
{
    let n = v.len();
    let mut i: usize = 0;
    while i < n
        invariant
            i <= n,
            n == v@.len(),
            forall|j: int| 0 <= j < i ==> (#[trigger] v@[j]).0 != k,
        decreases n - i,
    {
        if v[i].0 == k {
            return true;
        }
        i = i + 1;
    }
    proof {
        if has_key(v@, k) {
            let j = choose|j: int| 0 <= j < v@.len() && (#[trigger] v@[j]).0 == k;
            assert(false);
        }
    }
    false
}

/// Whether the contract-size map holds `k`.
fn sizes_has_key(v: &Vec<(Vec<u8>, ContractSizeWithOpCode)>, k: &Vec<u8>) -> (r: bool)
    ensures
        r == has_key(sizes_model(v@), k@),
{
    let n = v.len();
    let mut i: usize = 0;
    while i < n
        invariant
            i <= n,
            n == v@.len(),
            forall|j: int| 0 <= j < i ==> (#[trigger] v@[j]).0@ != k@,
        decreases n - i,
    {
        if bytes_eq(&v[i].0, k) {
            proof {
                assert((#[trigger] sizes_model(v@)[i as int]).0 == k@);
            }
            return true;
        }
        i = i + 1;
    }
    proof {
        if has_key(sizes_model(v@), k@) {
            let j = choose|j: int|
                0 <= j < sizes_model(v@).len() && (#[trigger] sizes_model(v@)[j]).0 == k@;
            assert(v@[j].0@ == k@);
            assert(false);
        }
    }
    false
}

/// Decodes a string list.
fn decode_texts(items: &Vec<WireValue>) -> (r: Result<Vec<String>, TraceError>)
    ensures
        r matches Ok(v) ==> spec_decode_texts(wire_models(items@)) == Some(texts_model(v@)),
        r is Err ==> spec_decode_texts(wire_models(items@)) is None && r == Result::<
            Vec<String>,
            TraceError,
        >::Err(TraceError::MalformedWireData),
{
    let ghost e = wire_models(items@);
    proof {
        lemma_wire_models(items@);
        assert(e.subrange(items@.len() as int, items@.len() as int) =~= Seq::<WireModel>::empty());
        assert(texts_model(Seq::<String>::empty()) =~= Seq::<Seq<char>>::empty());
    }
    let n = items.len();
    let mut out: Vec<String> = Vec::new();
    let mut ok: bool = true;
    let mut i: usize = n;
    while i > 0
        invariant
            i <= n,
            n == items@.len(),
            e == wire_models(items@),
            e.len() == n,
            ok ==> spec_decode_texts(e.subrange(i as int, n as int)) == Some(texts_model(out@)),
            !ok ==> spec_decode_texts(e.subrange(i as int, n as int)) is None,
        decreases i,
    {
        i = i - 1;
        let ghost prev = out@;
        proof {
            lemma_wire_models(items@);
            assert(e.subrange(i as int, n as int)[0] == e[i as int]);
            assert(e.subrange(i as int, n as int).subrange(
                1,
                e.subrange(i as int, n as int).len() as int,
            ) =~= e.subrange(i as int + 1, n as int));
        }
        if ok {
            match &items[i] {
                WireValue::Text(s) => {
                    out.insert(0, s.clone());
                    proof {
                        assert(texts_model(out@) =~= seq![s@] + texts_model(prev));
                    }
                },
                _ => {
                    ok = false;
                },
            }
        }
    }
    proof {
        assert(e.subrange(0, n as int) =~= e);
    }
    if ok {
        Ok(out)
    } else {
        Err(TraceError::MalformedWireData)
    }
}

/// Decodes a topic list of 32-byte words.
fn decode_words(items: &Vec<WireValue>) -> (r: Result<Vec<Vec<u8>>, TraceError>)
    ensures
        r matches Ok(v) ==> spec_decode_words(wire_models(items@)) == Some(addrs_model(v@)),
        r is Err ==> spec_decode_words(wire_models(items@)) is None && r == Result::<
            Vec<Vec<u8>>,
            TraceError,
        >::Err(TraceError::MalformedWireData),
{
    let ghost e = wire_models(items@);
    proof {
        lemma_wire_models(items@);
        assert(e.subrange(items@.len() as int, items@.len() as int) =~= Seq::<WireModel>::empty());
        assert(addrs_model(Seq::<Vec<u8>>::empty()) =~= Seq::<Seq<u8>>::empty());
    }
    let n = items.len();
    let mut out: Vec<Vec<u8>> = Vec::new();
    let mut ok: bool = true;
    let mut i: usize = n;
    while i > 0
        invariant
            i <= n,
            n == items@.len(),
            e == wire_models(items@),
            e.len() == n,
            ok ==> spec_decode_words(e.subrange(i as int, n as int)) == Some(addrs_model(out@)),
            !ok ==> spec_decode_words(e.subrange(i as int, n as int)) is None,
        decreases i,
    {
        i = i - 1;
        let ghost prev = out@;
        proof {
            lemma_wire_models(items@);
            assert(e.subrange(i as int, n as int)[0] == e[i as int]);
            assert(e.subrange(i as int, n as int).subrange(
                1,
                e.subrange(i as int, n as int).len() as int,
            ) =~= e.subrange(i as int + 1, n as int));
        }
        if ok {
            match &items[i] {
                WireValue::Bytes(b) => {
                    if b.len() == 32 {
                        let bb = copy_bytes(b);
                        out.insert(0, bb);
                        proof {
                            assert(addrs_model(out@) =~= seq![b@] + addrs_model(prev));
                        }
                    } else {
                        ok = false;
                    }
                },
                _ => {
                    ok = false;
                },
            }
        }
    }
    proof {
        assert(e.subrange(0, n as int) =~= e);
    }
    if ok {
        Ok(out)
    } else {
        Err(TraceError::MalformedWireData)
    }
}

/// Decodes the accessed-address list: 20-byte entries, none twice.
pub fn decode_addrs(items: &Vec<WireValue>) -> (r: Result<Vec<Vec<u8>>, TraceError>)
    ensures
        r matches Ok(v) ==> spec_decode_addr_list(wire_models(items@)) == Some(addrs_model(v@)),
        r is Err ==> spec_decode_addr_list(wire_models(items@)) is None && r == Result::<
            Vec<Vec<u8>>,
            TraceError,
        >::Err(TraceError::MalformedWireData),
{
    let ghost e = wire_models(items@);
    proof {
        lemma_wire_models(items@);
        assert(e.subrange(items@.len() as int, items@.len() as int) =~= Seq::<WireModel>::empty());
        assert(addrs_model(Seq::<Vec<u8>>::empty()) =~= Seq::<Seq<u8>>::empty());
    }
    let n = items.len();
    let mut out: Vec<Vec<u8>> = Vec::new();
    let mut ok: bool = true;
    let mut i: usize = n;
    while i > 0
        invariant
            i <= n,
            n == items@.len(),
            e == wire_models(items@),
            e.len() == n,
            ok ==> spec_decode_addr_list(e.subrange(i as int, n as int)) == Some(
                addrs_model(out@),
            ),
            !ok ==> spec_decode_addr_list(e.subrange(i as int, n as int)) is None,
        decreases i,
    {
        i = i - 1;
        let ghost prev = out@;
        proof {
            lemma_wire_models(items@);
            assert(e.subrange(i as int, n as int)[0] == e[i as int]);
            assert(e.subrange(i as int, n as int).subrange(
                1,
                e.subrange(i as int, n as int).len() as int,
            ) =~= e.subrange(i as int + 1, n as int));
        }
        if ok {
            match &items[i] {
                WireValue::Bytes(b) => {
                    if b.len() == 20 && !contains_bytes(&out, b) {
                        let bb = copy_bytes(b);
                        out.insert(0, bb);
                        proof {
                            assert(addrs_model(out@) =~= seq![b@] + addrs_model(prev));
                        }
                    } else {
                        ok = false;
                    }
                },
                _ => {
                    ok = false;
                },
            }
        }
    }
    proof {
        assert(e.subrange(0, n as int) =~= e);
    }
    if ok {
        Ok(out)
    } else {
        Err(TraceError::MalformedWireData)
    }
}

/// Decodes a counter table.
fn decode_counts(entries: &Vec<(MapKey, WireValue)>) -> (r: Result<Vec<(String, u64)>, TraceError>)
    ensures
        r matches Ok(v) ==> spec_decode_counts(wire_table_model(entries@)) == Some(
            count_map_model(v@),
        ),
        r is Err ==> spec_decode_counts(wire_table_model(entries@)) is None && r == Result::<
            Vec<(String, u64)>,
            TraceError,
        >::Err(TraceError::MalformedWireData),
{
    let ghost e = wire_table_model(entries@);
    proof {
        lemma_wire_table_model(entries@);
        assert(e.subrange(entries@.len() as int, entries@.len() as int) =~= Seq::<
            (MapKeyModel, WireModel),
        >::empty());
        assert(count_map_model(Seq::<(String, u64)>::empty()) =~= Seq::<(Seq<char>, u64)>::empty());
    }
    let n = entries.len();
    let mut out: Vec<(String, u64)> = Vec::new();
    let mut ok: bool = true;
    let mut i: usize = n;
    while i > 0
        invariant
            i <= n,
            n == entries@.len(),
            e == wire_table_model(entries@),
            e.len() == n,
            ok ==> spec_decode_counts(e.subrange(i as int, n as int)) == Some(
                count_map_model(out@),
            ),
            !ok ==> spec_decode_counts(e.subrange(i as int, n as int)) is None,
        decreases i,
    {
        i = i - 1;
        let ghost prev = out@;
        proof {
            lemma_wire_table_model(entries@);
            assert(e.subrange(i as int, n as int)[0] == e[i as int]);
            assert(e.subrange(i as int, n as int).subrange(
                1,
                e.subrange(i as int, n as int).len() as int,
            ) =~= e.subrange(i as int + 1, n as int));
        }
        if ok {
            match (&entries[i].0, &entries[i].1) {
                (MapKey::Text(kk), WireValue::UInt(nn)) => {
                    if count_has_key(&out, kk) {
                        ok = false;
                    } else {
                        out.insert(0, (kk.clone(), *nn));
                        proof {
                            assert(count_map_model(out@) =~= seq![(kk@, *nn)] + count_map_model(
                                prev,
                            ));
                        }
                    }
                },
                _ => {
                    ok = false;
                },
            }
        }
    }
    proof {
        assert(e.subrange(0, n as int) =~= e);
    }
    if ok {
        Ok(out)
    } else {
        Err(TraceError::MalformedWireData)
    }
}

/// Decodes the read table.
fn decode_reads(entries: &Vec<(MapKey, WireValue)>) -> (r: Result<
    Vec<(String, Vec<String>)>,
    TraceError,
>)
    ensures
        r matches Ok(v) ==> spec_decode_reads(wire_table_model(entries@)) == Some(
            read_map_model(v@),
        ),
        r is Err ==> spec_decode_reads(wire_table_model(entries@)) is None && r == Result::<
            Vec<(String, Vec<String>)>,
            TraceError,
        >::Err(TraceError::MalformedWireData),
{
    let ghost e = wire_table_model(entries@);
    proof {
        lemma_wire_table_model(entries@);
        assert(e.subrange(entries@.len() as int, entries@.len() as int) =~= Seq::<
            (MapKeyModel, WireModel),
        >::empty());
        assert(read_map_model(Seq::<(String, Vec<String>)>::empty()) =~= Seq::<
            (Seq<char>, Seq<Seq<char>>),
        >::empty());
    }
    let n = entries.len();
    let mut out: Vec<(String, Vec<String>)> = Vec::new();
    let mut ok: bool = true;
    let mut i: usize = n;
    while i > 0
        invariant
            i <= n,
            n == entries@.len(),
            e == wire_table_model(entries@),
            e.len() == n,
            ok ==> spec_decode_reads(e.subrange(i as int, n as int)) == Some(read_map_model(out@)),
            !ok ==> spec_decode_reads(e.subrange(i as int, n as int)) is None,
        decreases i,
    {
        i = i - 1;
        let ghost prev = out@;
        proof {
            lemma_wire_table_model(entries@);
            assert(e.subrange(i as int, n as int)[0] == e[i as int]);
            assert(e.subrange(i as int, n as int).subrange(
                1,
                e.subrange(i as int, n as int).len() as int,
            ) =~= e.subrange(i as int + 1, n as int));
        }
        if ok {
            match (&entries[i].0, &entries[i].1) {
                (MapKey::Text(kk), WireValue::Arr(vs)) => {
                    match decode_texts(vs) {
                        Ok(vals) => {
                            if read_has_key(&out, kk) {
                                ok = false;
                            } else {
                                out.insert(0, (kk.clone(), vals));
                                proof {
                                    assert(read_map_model(out@) =~= seq![
                                        (kk@, read_map_model(out@)[0].1),
                                    ] + read_map_model(prev));
                                }
                            }
                        },
                        Err(_) => {
                            ok = false;
                        },
                    }
                },
                _ => {
                    ok = false;
                },
            }
        }
    }
    proof {
        assert(e.subrange(0, n as int) =~= e);
    }
    if ok {
        Ok(out)
    } else {
        Err(TraceError::MalformedWireData)
    }
}

/// Decodes the opcode-count table.
pub fn decode_opcodes_tbl(entries: &Vec<(MapKey, WireValue)>) -> (r: Result<
    Vec<(u8, u64)>,
    TraceError,
>)
    ensures
        r matches Ok(v) ==> spec_decode_opcodes(wire_table_model(entries@)) == Some(v@),
        r is Err ==> spec_decode_opcodes(wire_table_model(entries@)) is None && r == Result::<
            Vec<(u8, u64)>,
            TraceError,
        >::Err(TraceError::MalformedWireData),
{
    let ghost e = wire_table_model(entries@);
    proof {
        lemma_wire_table_model(entries@);
        assert(e.subrange(entries@.len() as int, entries@.len() as int) =~= Seq::<
            (MapKeyModel, WireModel),
        >::empty());
    }
    let n = entries.len();
    let mut out: Vec<(u8, u64)> = Vec::new();
    let mut ok: bool = true;
    let mut i: usize = n;
    while i > 0
        invariant
            i <= n,
            n == entries@.len(),
            e == wire_table_model(entries@),
            e.len() == n,
            ok ==> spec_decode_opcodes(e.subrange(i as int, n as int)) == Some(out@),
            !ok ==> spec_decode_opcodes(e.subrange(i as int, n as int)) is None,
        decreases i,
    {
        i = i - 1;
        let ghost prev = out@;
        proof {
            lemma_wire_table_model(entries@);
            assert(e.subrange(i as int, n as int)[0] == e[i as int]);
            assert(e.subrange(i as int, n as int).subrange(
                1,
                e.subrange(i as int, n as int).len() as int,
            ) =~= e.subrange(i as int + 1, n as int));
        }
        if ok {
            match (&entries[i].0, &entries[i].1) {
                (MapKey::Byte(bb), WireValue::UInt(nn)) => {
                    if opcode_has_key(&out, *bb) {
                        ok = false;
                    } else {
                        out.insert(0, (*bb, *nn));
                        proof {
                            assert(out@ =~= seq![(*bb, *nn)] + prev);
                        }
                    }
                },
                _ => {
                    ok = false;
                },
            }
        }
    }
    proof {
        assert(e.subrange(0, n as int) =~= e);
    }
    if ok {
        Ok(out)
    } else {
        Err(TraceError::MalformedWireData)
    }
}

/// Decodes one contract-size record.
fn decode_size_obj(w: &WireValue) -> (r: Result<ContractSizeWithOpCode, TraceError>)
    ensures
        r matches Ok(c) ==> spec_decode_size(w@) == Some(c),
        r is Err ==> spec_decode_size(w@) is None && r == Result::<
            ContractSizeWithOpCode,
            TraceError,
        >::Err(TraceError::MalformedWireData),
{
    let sf = match w {
        WireValue::Obj(fs) => fs,
        _ => {
            return Err(TraceError::MalformedWireData);
        },
    };
    proof {
        assert(w@ == WireModel::Obj(wire_obj_model(sf@)));
    }
    let contract_size: usize = match obj_find(sf, WireKey::ContractSize) {
        None => 0,
        Some(WireValue::UInt(n)) => {
            if *n <= usize::MAX as u64 {
                *n as usize
            } else {
                return Err(TraceError::MalformedWireData);
            }
        },
        Some(_) => {
            return Err(TraceError::MalformedWireData);
        },
    };
    let opcode: u8 = match obj_find(sf, WireKey::Opcode) {
        Some(WireValue::UInt(n)) => {
            if *n <= 255 {
                *n as u8
            } else {
                return Err(TraceError::MalformedWireData);
            }
        },
        _ => {
            return Err(TraceError::MalformedWireData);
        },
    };
    Ok(ContractSizeWithOpCode { contract_size, opcode })
}

/// Decodes the contract-size table.
pub fn decode_sizes(entries: &Vec<(MapKey, WireValue)>) -> (r: Result<
    Vec<(Vec<u8>, ContractSizeWithOpCode)>,
    TraceError,
>)
    ensures
        r matches Ok(v) ==> spec_decode_sizes(wire_table_model(entries@)) == Some(sizes_model(v@)),
        r is Err ==> spec_decode_sizes(wire_table_model(entries@)) is None && r == Result::<
            Vec<(Vec<u8>, ContractSizeWithOpCode)>,
            TraceError,
        >::Err(TraceError::MalformedWireData),
{
    let ghost e = wire_table_model(entries@);
    proof {
        lemma_wire_table_model(entries@);
        assert(e.subrange(entries@.len() as int, entries@.len() as int) =~= Seq::<
            (MapKeyModel, WireModel),
        >::empty());
        assert(sizes_model(Seq::<(Vec<u8>, ContractSizeWithOpCode)>::empty()) =~= Seq::<
            (Seq<u8>, ContractSizeWithOpCode),
        >::empty());
    }
    let n = entries.len();
    let mut out: Vec<(Vec<u8>, ContractSizeWithOpCode)> = Vec::new();
    let mut ok: bool = true;
    let mut i: usize = n;
    while i > 0
        invariant
            i <= n,
            n == entries@.len(),
            e == wire_table_model(entries@),
            e.len() == n,
            ok ==> spec_decode_sizes(e.subrange(i as int, n as int)) == Some(sizes_model(out@)),
            !ok ==> spec_decode_sizes(e.subrange(i as int, n as int)) is None,
        decreases i,
    {
        i = i - 1;
        let ghost prev = out@;
        proof {
            lemma_wire_table_model(entries@);
            assert(e.subrange(i as int, n as int)[0] == e[i as int]);
            assert(e.subrange(i as int, n as int).subrange(
                1,
                e.subrange(i as int, n as int).len() as int,
            ) =~= e.subrange(i as int + 1, n as int));
        }
        if ok {
            match &entries[i].0 {
                MapKey::Addr(aa) => {
                    match decode_size_obj(&entries[i].1) {
                        Ok(c) => {
                            if aa.len() == 20 && !sizes_has_key(&out, aa) {
                                let ab = copy_bytes(aa);
                                out.insert(0, (ab, c));
                                proof {
                                    assert(sizes_model(out@) =~= seq![(aa@, c)] + sizes_model(
                                        prev,
                                    ));
                                }
                            } else {
                                ok = false;
                            }
                        },
                        Err(_) => {
                            ok = false;
                        },
                    }
                },
                _ => {
                    ok = false;
                },
            }
        }
    }
    proof {
        assert(e.subrange(0, n as int) =~= e);
    }
    if ok {
        Ok(out)
    } else {
        Err(TraceError::MalformedWireData)
    }
}

/// Decodes one log record.
fn decode_log(w: &WireValue) -> (r: Result<CallLogFrame, TraceError>)
    ensures
        r matches Ok(l) ==> spec_decode_log(w@) == Some(l@),
        r is Err ==> spec_decode_log(w@) is None && r == Result::<CallLogFrame, TraceError>::Err(
            TraceError::MalformedWireData,
        ),
{
    let lf = match w {
        WireValue::Obj(fs) => fs,
        _ => {
            return Err(TraceError::MalformedWireData);
        },
    };
    proof {
        assert(w@ == WireModel::Obj(wire_obj_model(lf@)));
    }
    let topics: Vec<Vec<u8>> = match obj_find(lf, WireKey::Topics) {
        None => Vec::new(),
        Some(WireValue::Arr(ts)) => {
            match decode_words(ts) {
                Ok(v) => v,
                Err(err) => {
                    return Err(err);
                },
            }
        },
        Some(_) => {
            return Err(TraceError::MalformedWireData);
        },
    };
    let data: Vec<u8> = match obj_find(lf, WireKey::Data) {
        None => Vec::new(),
        Some(WireValue::Bytes(b)) => copy_bytes(b),
        Some(_) => {
            return Err(TraceError::MalformedWireData);
        },
    };
    let l = CallLogFrame { topics, data };
    proof {
        assert(l@.topics =~= addrs_model(l.topics@));
        assert(spec_decode_log(w@)->Some_0 =~~= l@);
    }
    Ok(l)
}

/// Decodes a log list.
pub fn decode_logs(items: &Vec<WireValue>) -> (r: Result<Vec<CallLogFrame>, TraceError>)
    ensures
        r matches Ok(v) ==> spec_decode_logs(wire_models(items@)) == Some(logs_model(v@)),
        r is Err ==> spec_decode_logs(wire_models(items@)) is None && r == Result::<
            Vec<CallLogFrame>,
            TraceError,
        >::Err(TraceError::MalformedWireData),
{
    let ghost e = wire_models(items@);
    proof {
        lemma_wire_models(items@);
        assert(e.subrange(items@.len() as int, items@.len() as int) =~= Seq::<WireModel>::empty());
        assert(logs_model(Seq::<CallLogFrame>::empty()) =~= Seq::<LogModel>::empty());
    }
    let n = items.len();
    let mut out: Vec<CallLogFrame> = Vec::new();
    let mut ok: bool = true;
    let mut i: usize = n;
    while i > 0
        invariant
            i <= n,
            n == items@.len(),
            e == wire_models(items@),
            e.len() == n,
            ok ==> spec_decode_logs(e.subrange(i as int, n as int)) == Some(logs_model(out@)),
            !ok ==> spec_decode_logs(e.subrange(i as int, n as int)) is None,
        decreases i,
    {
        i = i - 1;
        let ghost prev = out@;
        proof {
            lemma_wire_models(items@);
            assert(e.subrange(i as int, n as int)[0] == e[i as int]);
            assert(e.subrange(i as int, n as int).subrange(
                1,
                e.subrange(i as int, n as int).len() as int,
            ) =~= e.subrange(i as int + 1, n as int));
        }
        if ok {
            match decode_log(&items[i]) {
                Ok(l) => {
                    out.insert(0, l);
                    proof {
                        assert(logs_model(out@) =~= seq![logs_model(out@)[0]] + logs_model(prev));
                    }
                },
                Err(_) => {
                    ok = false;
                },
            }
        }
    }
    proof {
        assert(e.subrange(0, n as int) =~= e);
    }
    if ok {
        Ok(out)
    } else {
        Err(TraceError::MalformedWireData)
    }
}

/// Decodes the ledger object.
pub fn decode_slots_obj(fields: &Vec<(WireKey, WireValue)>) -> (r: Result<AccessedSlots, TraceError>)
    ensures
        r matches Ok(a) ==> spec_decode_slots(wire_obj_model(fields@)) == Some(a@),
        r is Err ==> spec_decode_slots(wire_obj_model(fields@)) is None && r == Result::<
            AccessedSlots,
            TraceError,
        >::Err(TraceError::MalformedWireData),
{
    let reads: Vec<(String, Vec<String>)> = match obj_find(fields, WireKey::Reads) {
        None => Vec::new(),
        Some(WireValue::Table(es)) => {
            match decode_reads(es) {
                Ok(v) => v,
                Err(err) => {
                    return Err(err);
                },
            }
        },
        Some(_) => {
            return Err(TraceError::MalformedWireData);
        },
    };
    let writes: Vec<(String, u64)> = match obj_find(fields, WireKey::Writes) {
        None => Vec::new(),
        Some(WireValue::Table(es)) => {
            match decode_counts(es) {
                Ok(v) => v,
                Err(err) => {
                    return Err(err);
                },
            }
        },
        Some(_) => {
            return Err(TraceError::MalformedWireData);
        },
    };
    let transient_reads: Vec<(String, u64)> = match obj_find(fields, WireKey::TransientReads) {
        None => Vec::new(),
        Some(WireValue::Table(es)) => {
            match decode_counts(es) {
                Ok(v) => v,
                Err(err) => {
                    return Err(err);
                },
            }
        },
        Some(_) => {
            return Err(TraceError::MalformedWireData);
        },
    };
    let transient_writes: Vec<(String, u64)> = match obj_find(fields, WireKey::TransientWrites) {
        None => Vec::new(),
        Some(WireValue::Table(es)) => {
            match decode_counts(es) {
                Ok(v) => v,
                Err(err) => {
                    return Err(err);
                },
            }
        },
        Some(_) => {
            return Err(TraceError::MalformedWireData);
        },
    };
    let a = AccessedSlots { reads, writes, transient_reads, transient_writes };
    proof {
        assert(spec_decode_slots(wire_obj_model(fields@))->Some_0 =~~= a@);
    }
    Ok(a)
}

} // verus!
