//! The call-frame tree: the record of one EVM call and its descendants,
//! together with its mathematical model and the consistency conditions the
//! rule engine relies on.

use vstd::prelude::*;

use crate::assoc::keys_unique;
use crate::slots::{AccessedSlots, SlotsModel};

verus! {

/// One emitted log record: topic words and payload bytes, in emission order
/// within the frame's `logs`.
#[derive(Clone, Debug, PartialEq, Eq)]
pub struct CallLogFrame {
    pub topics: Vec<Vec<u8>>,
    pub data: Vec<u8>,
}

/// Mathematical value of a log record.
#[verifier::ext_equal]
pub struct LogModel {
    pub topics: Seq<Seq<u8>>,
    pub data: Seq<u8>,
}

impl View for CallLogFrame {
    type V = LogModel;

    open spec fn view(&self) -> LogModel {
        LogModel {
            topics: Seq::new(self.topics@.len(), |i: int| self.topics@[i]@),
            data: self.data@,
        }
    }
}

/// Size of a contract whose code became observable, with the opcode that made
/// it observable — a creation opcode for code deployed in this transaction,
/// an access opcode for pre-existing code.
#[derive(Clone, Copy, Debug, PartialEq, Eq, Structural)]
pub struct ContractSizeWithOpCode {
    pub contract_size: usize,
    pub opcode: u8,
}

/// One EVM call: metadata, gas accounting, observed side effects, and the
/// child calls in the order they were entered.
///
/// `kind` is the numeric opcode that induced the call. `gas` is the allotment
/// at entry, `gas_used` what the call and its descendants consumed. `error`
/// is empty exactly when the call succeeded; `out_of_gas` marks halts by gas
/// exhaustion. `accessed_slots` is scoped to this frame's direct execution.
pub struct CallFrameWithOpCodes {
    pub kind: u8,
    pub from: Vec<u8>,
    pub gas: u64,
    pub gas_used: u64,
    pub to: Vec<u8>,
    pub input: Vec<u8>,
    pub output: Option<Vec<u8>>,
    pub error: String,
    pub revert_reason: String,
    pub logs: Vec<CallLogFrame>,
    pub value: Vec<u8>,
    pub reverted_snapshot: bool,
    pub accessed_slots: AccessedSlots,
    pub ext_code_access_info: Vec<Vec<u8>>,
    pub used_opcodes: Vec<(u8, u64)>,
    pub contract_size: Vec<(Vec<u8>, ContractSizeWithOpCode)>,
    pub out_of_gas: bool,
    pub children: Vec<CallFrameWithOpCodes>,
}

/// Mathematical value of a call frame.
#[verifier::ext_equal]
pub struct FrameModel {
    pub kind: u8,
    pub from: Seq<u8>,
    pub gas: u64,
    pub gas_used: u64,
    pub to: Seq<u8>,
    pub input: Seq<u8>,
    pub output: Option<Seq<u8>>,
    pub error: Seq<char>,
    pub revert_reason: Seq<char>,
    pub logs: Seq<LogModel>,
    pub value: Seq<u8>,
    pub reverted_snapshot: bool,
    pub accessed_slots: SlotsModel,
    pub ext_code_access_info: Seq<Seq<u8>>,
    pub used_opcodes: Seq<(u8, u64)>,
    pub contract_size: Seq<(Seq<u8>, ContractSizeWithOpCode)>,
    pub out_of_gas: bool,
    pub children: Seq<FrameModel>,
}

/// Model of an optional byte string.
pub open spec fn opt_bytes_model(o: Option<Vec<u8>>) -> Option<Seq<u8>> {
    match o {
        Some(b) => Some(b@),
        None => None,
    }
}

/// Model of a log sequence.
pub open spec fn logs_model(s: Seq<CallLogFrame>) -> Seq<LogModel> {
    Seq::new(s.len(), |i: int| s[i]@)
}

/// Model of an address list.
pub open spec fn addrs_model(s: Seq<Vec<u8>>) -> Seq<Seq<u8>> {
    Seq::new(s.len(), |i: int| s[i]@)
}

/// Model of the contract-size map.
pub open spec fn sizes_model(
    s: Seq<(Vec<u8>, ContractSizeWithOpCode)>,
) -> Seq<(Seq<u8>, ContractSizeWithOpCode)> {
    Seq::new(s.len(), |i: int| (s[i].0@, s[i].1))
}

/// Model of a call frame, children included.
pub open spec fn frame_model(f: CallFrameWithOpCodes) -> FrameModel
    decreases f via frame_model_decreases
{
    FrameModel {
        kind: f.kind,
        from: f.from@,
        gas: f.gas,
        gas_used: f.gas_used,
        to: f.to@,
        input: f.input@,
        output: opt_bytes_model(f.output),
        error: f.error@,
        revert_reason: f.revert_reason@,
        logs: logs_model(f.logs@),
        value: f.value@,
        reverted_snapshot: f.reverted_snapshot,
        accessed_slots: f.accessed_slots@,
        ext_code_access_info: addrs_model(f.ext_code_access_info@),
        used_opcodes: f.used_opcodes@,
        contract_size: sizes_model(f.contract_size@),
        out_of_gas: f.out_of_gas,
        children: frame_models(f.children@),
    }
}

/// Models of a frame sequence, in order.
pub open spec fn frame_models(s: Seq<CallFrameWithOpCodes>) -> Seq<FrameModel>
    decreases s,
{
    if s.len() == 0 {
        Seq::empty()
    } else {
        seq![frame_model(s[0])] + frame_models(s.subrange(1, s.len() as int))
    }
}

#[via_fn]
proof fn frame_model_decreases(f: CallFrameWithOpCodes) {
    assert(decreases_to!(f => f.children));
    assert(decreases_to!(f.children => f.children@));
}

/// `frame_models` maps each element to its model, keeping length and order.
pub proof fn lemma_frame_models(s: Seq<CallFrameWithOpCodes>)
    ensures
        frame_models(s).len() == s.len(),
        forall|i: int|
            #![trigger frame_models(s)[i]]
            #![trigger s[i]]
            0 <= i < s.len() ==> frame_models(s)[i] == frame_model(s[i]),
    decreases s,
{
    if s.len() > 0 {
        lemma_frame_models(s.subrange(1, s.len() as int));
        assert forall|i: int| 0 <= i < s.len() implies frame_models(s)[i] == frame_model(
            #[trigger] s[i],
        ) by {
            if i > 0 {
                assert(s.subrange(1, s.len() as int)[i - 1] == s[i]);
            }
        }
    }
}

/// Appending a frame appends its model.
pub proof fn lemma_frame_models_push(s: Seq<CallFrameWithOpCodes>, f: CallFrameWithOpCodes)
    ensures
        frame_models(s.push(f)) == frame_models(s).push(frame_model(f)),
{
    lemma_frame_models(s);
    lemma_frame_models(s.push(f));
    assert forall|i: int| 0 <= i < s.push(f).len() implies frame_models(s.push(f))[i]
        == frame_models(s).push(frame_model(f))[i] by {
        if i < s.len() {
            assert(s.push(f)[i] == s[i]);
        } else {
            assert(s.push(f)[i] == f);
        }
    }
    assert(frame_models(s.push(f)) =~= frame_models(s).push(frame_model(f)));
}

/// Dropping the last frame drops the last model.
pub proof fn lemma_frame_models_drop_last(s: Seq<CallFrameWithOpCodes>)
    requires
        s.len() > 0,
    ensures
        frame_models(s.drop_last()) == frame_models(s).drop_last(),
{
    lemma_frame_models(s);
    lemma_frame_models(s.drop_last());
    assert forall|i: int| 0 <= i < s.drop_last().len() implies frame_models(s.drop_last())[i]
        == frame_models(s).drop_last()[i] by {
        assert(s.drop_last()[i] == s[i]);
    }
    assert(frame_models(s.drop_last()) =~= frame_models(s).drop_last());
}

impl View for CallFrameWithOpCodes {
    type V = FrameModel;

    open spec fn view(&self) -> FrameModel {
        frame_model(*self)
    }
}

/// A well-formed 20-byte account address.
pub open spec fn addr_wf(a: Seq<u8>) -> bool {
    a.len() == 20
}

/// A well-formed 32-byte word, as a topic or a transferred value.
pub open spec fn word_wf(w: Seq<u8>) -> bool {
    w.len() == 32
}

/// No byte string occurs twice.
pub open spec fn seqs_distinct(s: Seq<Seq<u8>>) -> bool {
    forall|i: int, j: int| 0 <= i < j < s.len() ==> s[i] != s[j]
}

impl LogModel {
    /// Topics are 32-byte words.
    pub open spec fn wf(self) -> bool {
        forall|i: int| 0 <= i < self.topics.len() ==> word_wf(#[trigger] self.topics[i])
    }
}

/// Structural validity of a frame: addresses and words have their sizes, the
/// per-frame maps have unique keys, and the same holds of every descendant.
pub open spec fn frame_wf(m: FrameModel) -> bool
    decreases m,
{
    &&& addr_wf(m.from)
    &&& addr_wf(m.to)
    &&& word_wf(m.value)
    &&& forall|i: int| 0 <= i < m.logs.len() ==> (#[trigger] m.logs[i]).wf()
    &&& m.accessed_slots.wf()
    &&& seqs_distinct(m.ext_code_access_info)
    &&& forall|i: int|
        0 <= i < m.ext_code_access_info.len() ==> addr_wf(#[trigger] m.ext_code_access_info[i])
    &&& keys_unique(m.used_opcodes)
    &&& keys_unique(m.contract_size)
    &&& forall|i: int| 0 <= i < m.contract_size.len() ==> addr_wf((#[trigger] m.contract_size[i]).0)
    &&& forall|i: int| 0 <= i < m.children.len() ==> frame_wf(#[trigger] m.children[i])
}

/// Gas conservation, first half: no frame consumed more than its allotment.
pub open spec fn gas_bounded(m: FrameModel) -> bool
    decreases m,
{
    &&& m.gas_used <= m.gas
    &&& forall|i: int| 0 <= i < m.children.len() ==> gas_bounded(#[trigger] m.children[i])
}

/// Total gas allotted to a sequence of frames.
pub open spec fn sum_child_gas(s: Seq<FrameModel>) -> int
    decreases s,
{
    if s.len() == 0 {
        0
    } else {
        s[0].gas + sum_child_gas(s.subrange(1, s.len() as int))
    }
}

/// Gas conservation, second half: no frame handed its children more gas in
/// total than it was allotted itself.
pub open spec fn child_gas_bounded(m: FrameModel) -> bool
    decreases m,
{
    &&& sum_child_gas(m.children) <= m.gas
    &&& forall|i: int| 0 <= i < m.children.len() ==> child_gas_bounded(#[trigger] m.children[i])
}

/// Revert-flag consistency: a frame halted by gas exhaustion reports an
/// execution error, and so does every descendant that was.
pub open spec fn error_flag_consistent(m: FrameModel) -> bool
    decreases m,
{
    &&& (m.out_of_gas ==> m.error.len() > 0)
    &&& forall|i: int| 0 <= i < m.children.len() ==> error_flag_consistent(
        #[trigger] m.children[i],
    )
}

/// Gas conservation holds of every frame of a tree that satisfies the two
/// gas predicates: its own use is within its allotment, and its children's
/// allotments sum to no more than its own.
pub proof fn lemma_gas_conservation(m: FrameModel)
    requires
        gas_bounded(m),
        child_gas_bounded(m),
    ensures
        m.gas_used <= m.gas,
        sum_child_gas(m.children) <= m.gas,
        forall|i: int| 0 <= i < m.children.len() ==> gas_bounded(#[trigger] m.children[i])
            && child_gas_bounded(m.children[i]),
{
}

/// Revert-flag consistency holds of every frame of a consistent tree: a frame
/// with `out_of_gas` set has a non-empty `error`, and so do its descendants.
pub proof fn lemma_out_of_gas_reports_error(m: FrameModel)
    requires
        error_flag_consistent(m),
    ensures
        m.out_of_gas ==> m.error.len() > 0,
        forall|i: int| 0 <= i < m.children.len() ==> error_flag_consistent(
            #[trigger] m.children[i],
        ),
{
}

/// The gas of a sequence of frames sums to at most one allotment per frame.
proof fn lemma_sum_child_gas_bound(s: Seq<FrameModel>)
    ensures
        0 <= sum_child_gas(s) <= s.len() * (u64::MAX as int),
    decreases s,
{
    if s.len() > 0 {
        lemma_sum_child_gas_bound(s.subrange(1, s.len() as int));
    }
}

/// Appending a frame adds its allotment to the sum.
proof fn lemma_sum_child_gas_push(s: Seq<FrameModel>, m: FrameModel)
    ensures
        sum_child_gas(s.push(m)) == sum_child_gas(s) + m.gas,
    decreases s,
{
    let t = s.push(m);
    if s.len() == 0 {
        assert(t[0] == m);
        assert(t.subrange(1, t.len() as int) =~= Seq::<FrameModel>::empty());
        assert(sum_child_gas(t) == t[0].gas + sum_child_gas(t.subrange(1, t.len() as int)));
    } else {
        assert(t[0] == s[0]);
        lemma_sum_child_gas_push(s.subrange(1, s.len() as int), m);
        assert(t.subrange(1, t.len() as int) =~= s.subrange(1, s.len() as int).push(m));
        assert(sum_child_gas(t) == t[0].gas + sum_child_gas(t.subrange(1, t.len() as int)));
    }
}

/// Decides whether a finished tree satisfies the observed consistency
/// conditions: gas conservation in both halves, and the revert-flag rule.
pub fn check_frame_consistency(f: &CallFrameWithOpCodes) -> (r: bool)
    ensures
        r == (gas_bounded(f@) && child_gas_bounded(f@) && error_flag_consistent(f@)),
    decreases *f,
{
    if f.gas_used > f.gas {
        return false;
    }
    if f.out_of_gas && f.error.as_str().is_empty() {
        return false;
    }
    let n = f.children.len();
    let mut total: u128 = 0;
    let mut i: usize = 0;
    proof {
        lemma_frame_models(f.children@);
        assert(f@.children.subrange(0, 0) =~= Seq::<FrameModel>::empty());
    }
    while i < n
        invariant
            i <= n,
            n == f.children@.len(),
            f@.children.len() == n,
            forall|k: int| 0 <= k < n ==> f@.children[k] == frame_model(#[trigger] f.children@[k]),
            total == sum_child_gas(f@.children.subrange(0, i as int)),
            total <= (i as int) * (u64::MAX as int),
            forall|k: int| 0 <= k < i ==> gas_bounded(#[trigger] f@.children[k])
                && child_gas_bounded(f@.children[k]) && error_flag_consistent(f@.children[k]),
        decreases n - i,
    {
        proof {
            assert(decreases_to!(*f => f.children));
            assert(decreases_to!(f.children => f.children@));
            assert(decreases_to!(f.children@ => f.children@[i as int]));
        }
        let child_ok = check_frame_consistency(&f.children[i]);
        if !child_ok {
            return false;
        }
        proof {
            lemma_sum_child_gas_push(f@.children.subrange(0, i as int), f@.children[i as int]);
            assert(f@.children.subrange(0, i as int + 1) =~= f@.children.subrange(
                0,
                i as int,
            ).push(f@.children[i as int]));
        }
        total = total + f.children[i].gas as u128;
        i = i + 1;
    }
    proof {
        assert(f@.children.subrange(0, n as int) =~= f@.children);
    }
    if total > f.gas as u128 {
        return false;
    }
    true
}

} // verus!
