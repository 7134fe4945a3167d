//! The wire form of a finished trace: a JSON-like object tree with the
//! schema's camel-case keys already classified, so that the codec's key
//! mapping and omission rules are stated and checked here, while rendering
//! to concrete JSON text stays a transport concern.

use vstd::prelude::*;

verus! {

/// A key of a wire object, one variant per wire name: `Type` is the wire key
/// of `kind`, `GasUsed` of `gas_used`, `RevertReason` of `revert_reason`,
/// `RevertedSnapshot` of `reverted_snapshot`, `AccessedSlots` of
/// `accessed_slots`, `ExtCodeAccessInfo` of `ext_code_access_info`,
/// `UsedOpcodes` of `used_opcodes`, `ContractSize` of `contract_size`,
/// `OutOfGas` of `out_of_gas`, `StackTopItemsSize`, `IgnoredOpcodes` and
/// `WithLog` of the configuration fields; every other field keeps its name.
#[derive(Clone, Copy, Debug, PartialEq, Eq, Structural)]
pub enum WireKey {
    Type,
    From,
    To,
    Gas,
    GasUsed,
    Input,
    Output,
    Error,
    RevertReason,
    Value,
    RevertedSnapshot,
    Logs,
    AccessedSlots,
    ExtCodeAccessInfo,
    UsedOpcodes,
    ContractSize,
    OutOfGas,
    Children,
    Reads,
    Writes,
    TransientReads,
    TransientWrites,
    Opcode,
    StackTopItemsSize,
    IgnoredOpcodes,
    WithLog,
    Topics,
    Data,
}

/// A key of a wire map whose key set is data, not schema: a storage-location
/// key, an opcode byte, or an account address.
pub enum MapKey {
    Text(String),
    Byte(u8),
    Addr(Vec<u8>),
}

/// Mathematical value of a map key.
pub enum MapKeyModel {
    Text(Seq<char>),
    Byte(u8),
    Addr(Seq<u8>),
}

impl View for MapKey {
    type V = MapKeyModel;

    open spec fn view(&self) -> MapKeyModel {
        match self {
            MapKey::Text(s) => MapKeyModel::Text(s@),
            MapKey::Byte(b) => MapKeyModel::Byte(*b),
            MapKey::Addr(a) => MapKeyModel::Addr(a@),
        }
    }
}

/// One node of the wire tree. `Bytes` stands for a hex-string-valued field,
/// `Text` for a plain string, `Obj` for an object with schema keys, `Table`
/// for an object whose keys are data.
pub enum WireValue {
    Bool(bool),
    UInt(u64),
    Bytes(Vec<u8>),
    Text(String),
    Arr(Vec<WireValue>),
    Obj(Vec<(WireKey, WireValue)>),
    Table(Vec<(MapKey, WireValue)>),
}

/// Mathematical value of a wire node.
pub enum WireModel {
    Bool(bool),
    UInt(u64),
    Bytes(Seq<u8>),
    Text(Seq<char>),
    Arr(Seq<WireModel>),
    Obj(Seq<(WireKey, WireModel)>),
    Table(Seq<(MapKeyModel, WireModel)>),
}

/// Model of a wire node, children included.
pub open spec fn wire_model(v: WireValue) -> WireModel
    decreases v via wire_model_decreases
{
    match v {
        WireValue::Bool(b) => WireModel::Bool(b),
        WireValue::UInt(n) => WireModel::UInt(n),
        WireValue::Bytes(b) => WireModel::Bytes(b@),
        WireValue::Text(s) => WireModel::Text(s@),
        WireValue::Arr(items) => WireModel::Arr(wire_models(items@)),
        WireValue::Obj(fields) => WireModel::Obj(wire_obj_model(fields@)),
        WireValue::Table(entries) => WireModel::Table(wire_table_model(entries@)),
    }
}

/// Models of a node sequence, in order.
pub open spec fn wire_models(s: Seq<WireValue>) -> Seq<WireModel>
    decreases s,
{
    if s.len() == 0 {
        Seq::empty()
    } else {
        seq![wire_model(s[0])] + wire_models(s.subrange(1, s.len() as int))
    }
}

/// Models of an object's fields, in order.
pub open spec fn wire_obj_model(s: Seq<(WireKey, WireValue)>) -> Seq<(WireKey, WireModel)>
    decreases s,
{
    if s.len() == 0 {
        Seq::empty()
    } else {
        seq![(s[0].0, wire_model(s[0].1))] + wire_obj_model(s.subrange(1, s.len() as int))
    }
}

/// Models of a table's entries, in order.
pub open spec fn wire_table_model(s: Seq<(MapKey, WireValue)>) -> Seq<(MapKeyModel, WireModel)>
    decreases s,
{
    if s.len() == 0 {
        Seq::empty()
    } else {
        seq![(s[0].0@, wire_model(s[0].1))] + wire_table_model(s.subrange(1, s.len() as int))
    }
}

#[via_fn]
proof fn wire_model_decreases(v: WireValue) {
    match v {
        WireValue::Arr(items) => {
            assert(decreases_to!(items => items@));
        },
        WireValue::Obj(fields) => {
            assert(decreases_to!(fields => fields@));
        },
        WireValue::Table(entries) => {
            assert(decreases_to!(entries => entries@));
        },
        _ => {},
    }
}

impl View for WireValue {
    type V = WireModel;

    open spec fn view(&self) -> WireModel {
        wire_model(*self)
    }
}

/// `wire_models` maps each element to its model, keeping length and order.
pub proof fn lemma_wire_models(s: Seq<WireValue>)
    ensures
        wire_models(s).len() == s.len(),
        forall|i: int|
            #![trigger wire_models(s)[i]]
            #![trigger s[i]]
            0 <= i < s.len() ==> wire_models(s)[i] == wire_model(s[i]),
    decreases s,
{
    if s.len() > 0 {
        lemma_wire_models(s.subrange(1, s.len() as int));
        assert forall|i: int| 0 <= i < s.len() implies wire_models(s)[i] == wire_model(
            #[trigger] s[i],
        ) by {
            if i > 0 {
                assert(s.subrange(1, s.len() as int)[i - 1] == s[i]);
            }
        }
    }
}

/// `wire_obj_model` maps each field to its model, keeping keys and order.
pub proof fn lemma_wire_obj_model(s: Seq<(WireKey, WireValue)>)
    ensures
        wire_obj_model(s).len() == s.len(),
        forall|i: int|
            #![trigger wire_obj_model(s)[i]]
            #![trigger s[i]]
            0 <= i < s.len() ==> wire_obj_model(s)[i] == (s[i].0, wire_model(s[i].1)),
    decreases s,
{
    if s.len() > 0 {
        lemma_wire_obj_model(s.subrange(1, s.len() as int));
        assert forall|i: int| 0 <= i < s.len() implies wire_obj_model(s)[i] == ((
        #[trigger] s[i]).0, wire_model(s[i].1)) by {
            if i > 0 {
                assert(s.subrange(1, s.len() as int)[i - 1] == s[i]);
            }
        }
    }
}

/// `wire_table_model` maps each entry to its model, keeping keys and order.
pub proof fn lemma_wire_table_model(s: Seq<(MapKey, WireValue)>)
    ensures
        wire_table_model(s).len() == s.len(),
        forall|i: int|
            #![trigger wire_table_model(s)[i]]
            #![trigger s[i]]
            0 <= i < s.len() ==> wire_table_model(s)[i] == (s[i].0@, wire_model(s[i].1)),
    decreases s,
{
    if s.len() > 0 {
        lemma_wire_table_model(s.subrange(1, s.len() as int));
        assert forall|i: int| 0 <= i < s.len() implies wire_table_model(s)[i] == ((
        #[trigger] s[i]).0@, wire_model(s[i].1)) by {
            if i > 0 {
                assert(s.subrange(1, s.len() as int)[i - 1] == s[i]);
            }
        }
    }
}

/// Appending a node appends its model.
pub proof fn lemma_wire_models_push(s: Seq<WireValue>, x: WireValue)
    ensures
        wire_models(s.push(x)) == wire_models(s).push(wire_model(x)),
{
    lemma_wire_models(s);
    lemma_wire_models(s.push(x));
    assert forall|i: int| 0 <= i < s.push(x).len() implies wire_models(s.push(x))[i]
        == wire_models(s).push(wire_model(x))[i] by {
        if i < s.len() {
            assert(s.push(x)[i] == s[i]);
        } else {
            assert(s.push(x)[i] == x);
        }
    }
    assert(wire_models(s.push(x)) =~= wire_models(s).push(wire_model(x)));
}

/// Appending a field appends its model.
pub proof fn lemma_wire_obj_model_push(s: Seq<(WireKey, WireValue)>, x: (WireKey, WireValue))
    ensures
        wire_obj_model(s.push(x)) == wire_obj_model(s).push((x.0, wire_model(x.1))),
{
    lemma_wire_obj_model(s);
    lemma_wire_obj_model(s.push(x));
    assert forall|i: int| 0 <= i < s.push(x).len() implies wire_obj_model(s.push(x))[i]
        == wire_obj_model(s).push((x.0, wire_model(x.1)))[i] by {
        if i < s.len() {
            assert(s.push(x)[i] == s[i]);
        } else {
            assert(s.push(x)[i] == x);
        }
    }
    assert(wire_obj_model(s.push(x)) =~= wire_obj_model(s).push((x.0, wire_model(x.1))));
}

/// Appending an entry appends its model.
pub proof fn lemma_wire_table_model_push(s: Seq<(MapKey, WireValue)>, x: (MapKey, WireValue))
    ensures
        wire_table_model(s.push(x)) == wire_table_model(s).push((x.0@, wire_model(x.1))),
{
    lemma_wire_table_model(s);
    lemma_wire_table_model(s.push(x));
    assert forall|i: int| 0 <= i < s.push(x).len() implies wire_table_model(s.push(x))[i]
        == wire_table_model(s).push((x.0@, wire_model(x.1)))[i] by {
        if i < s.len() {
            assert(s.push(x)[i] == s[i]);
        } else {
            assert(s.push(x)[i] == x);
        }
    }
    assert(wire_table_model(s.push(x)) =~= wire_table_model(s).push((x.0@, wire_model(x.1))));
}

/// `obj_get` over a concatenation looks left first.
pub proof fn lemma_obj_get_concat(
    s1: Seq<(WireKey, WireModel)>,
    s2: Seq<(WireKey, WireModel)>,
    k: WireKey,
)
    ensures
        obj_get(s1 + s2, k) == match obj_get(s1, k) {
            Some(v) => Some(v),
            None => obj_get(s2, k),
        },
    decreases s1.len(),
{
    if s1.len() == 0 {
        assert(s1 + s2 =~= s2);
    } else {
        assert((s1 + s2)[0] == s1[0]);
        if s1[0].0 == k {
        } else {
            lemma_obj_get_concat(s1.subrange(1, s1.len() as int), s2, k);
            assert((s1 + s2).subrange(1, (s1 + s2).len() as int) =~= s1.subrange(
                1,
                s1.len() as int,
            ) + s2);
        }
    }
}

/// First value stored under `k`, as a decoder reads an object.
pub open spec fn obj_get(fields: Seq<(WireKey, WireModel)>, k: WireKey) -> Option<WireModel>
    decreases fields.len(),
{
    if fields.len() == 0 {
        None
    } else if fields[0].0 == k {
        Some(fields[0].1)
    } else {
        obj_get(fields.subrange(1, fields.len() as int), k)
    }
}

/// What `obj_get` returns when the first occurrence of `k` is known.
pub proof fn lemma_obj_get_at(fields: Seq<(WireKey, WireModel)>, k: WireKey, i: int)
    requires
        0 <= i <= fields.len(),
        forall|j: int| 0 <= j < i ==> (#[trigger] fields[j]).0 != k,
        i < fields.len() ==> fields[i].0 == k,
    ensures
        obj_get(fields, k) == if i < fields.len() {
            Some(fields[i].1)
        } else {
            None
        },
    decreases fields.len(),
{
    if fields.len() > 0 {
        if i == 0 {
        } else {
            let rest = fields.subrange(1, fields.len() as int);
            assert forall|j: int| 0 <= j < i - 1 implies (#[trigger] rest[j]).0 != k by {
                assert(rest[j] == fields[j + 1]);
            }
            lemma_obj_get_at(rest, k, i - 1);
        }
    }
}

/// A value `obj_get` hands back is structurally below the field list.
pub proof fn lemma_obj_get_decreases(fields: Seq<(WireKey, WireModel)>, k: WireKey)
    requires
        obj_get(fields, k) is Some,
    ensures
        decreases_to!(fields => obj_get(fields, k)->Some_0),
    decreases fields.len(),
{
    if fields.len() == 0 {
    } else if fields[0].0 == k {
        assert(decreases_to!(fields => fields[0]));
        assert(decreases_to!(fields[0] => fields[0].1));
    } else {
        let rest = fields.subrange(1, fields.len() as int);
        lemma_obj_get_decreases(rest, k);
        assert(decreases_to!(fields => rest));
    }
}

} // verus!
