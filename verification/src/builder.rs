//! The call-frame tree builder: consumes the interpreter's lifecycle events —
//! call enter, opcode step, log emission, code access, call exit — and grows
//! the tree, only ever mutating the frame on top of the active call stack.

use vstd::prelude::*;

use crate::TraceError;
use crate::assoc::{bumped, has_key, key_index, keys_unique, value_of};
use crate::config::{ConfigModel, Erc7562ValidationTracerConfig};
use crate::frame::{
    addr_wf, addrs_model, error_flag_consistent, frame_model, frame_models, frame_wf, gas_bounded,
    lemma_frame_models, lemma_frame_models_drop_last, lemma_frame_models_push, logs_model,
    opt_bytes_model, sizes_model,
    word_wf, CallFrameWithOpCodes, CallLogFrame, ContractSizeWithOpCode, FrameModel, LogModel,
};
use crate::slots::{read_appended, AccessedSlots, SlotsModel};

verus! {

/// One storage event of a step: what was touched and, for a persistent read,
/// which value was observed.
pub enum StorageAccess {
    Read(String, String),
    Write(String),
    TransientRead(String),
    TransientWrite(String),
}

/// Mathematical value of a storage event.
pub enum AccessModel {
    Read(Seq<char>, Seq<char>),
    Write(Seq<char>),
    TransientRead(Seq<char>),
    TransientWrite(Seq<char>),
}

impl View for StorageAccess {
    type V = AccessModel;

    open spec fn view(&self) -> AccessModel {
        match self {
            StorageAccess::Read(k, v) => AccessModel::Read(k@, v@),
            StorageAccess::Write(k) => AccessModel::Write(k@),
            StorageAccess::TransientRead(k) => AccessModel::TransientRead(k@),
            StorageAccess::TransientWrite(k) => AccessModel::TransientWrite(k@),
        }
    }
}

/// Model of an optional storage event.
pub open spec fn opt_access_model(a: Option<StorageAccess>) -> Option<AccessModel> {
    match a {
        Some(x) => Some(x@),
        None => None,
    }
}

/// Builds one call-frame tree from the interpreter's event stream.
pub struct TraceBuilder {
    config: Erc7562ValidationTracerConfig,
    stack: Vec<CallFrameWithOpCodes>,
}

/// Mathematical value of a builder: the configuration and the frames still
/// open, outermost first.
#[verifier::ext_equal]
pub struct BuilderModel {
    pub config: ConfigModel,
    pub stack: Seq<FrameModel>,
}

impl View for TraceBuilder {
    type V = BuilderModel;

    closed spec fn view(&self) -> BuilderModel {
        BuilderModel { config: self.config@, stack: frame_models(self.stack@) }
    }
}

impl BuilderModel {
    /// Every open frame is structurally valid and its finished children
    /// satisfy the observed invariants.
    pub open spec fn wf(self) -> bool {
        &&& self.config.wf()
        &&& forall|i: int| 0 <= i < self.stack.len() ==> frame_wf(#[trigger] self.stack[i])
        &&& forall|i: int, j: int|
            0 <= i < self.stack.len() && 0 <= j < (#[trigger] self.stack[i]).children.len() ==> {
                &&& gas_bounded(#[trigger] self.stack[i].children[j])
                &&& error_flag_consistent(self.stack[i].children[j])
            }
    }
}

/// The frame a call starts from: the entry metadata, everything else empty.
pub open spec fn entered_frame(
    kind: u8,
    from: Seq<u8>,
    to: Seq<u8>,
    gas: u64,
    value: Seq<u8>,
    input: Seq<u8>,
) -> FrameModel {
    FrameModel {
        kind: kind,
        from: from,
        gas: gas,
        gas_used: 0,
        to: to,
        input: input,
        output: None,
        error: Seq::empty(),
        revert_reason: Seq::empty(),
        logs: Seq::empty(),
        value: value,
        reverted_snapshot: false,
        accessed_slots: SlotsModel::empty(),
        ext_code_access_info: Seq::empty(),
        used_opcodes: Seq::empty(),
        contract_size: Seq::empty(),
        out_of_gas: false,
        children: Seq::empty(),
    }
}

/// A frame after one step: the opcode counted unless ignored, the storage
/// event recorded; nothing else moves.
pub open spec fn stepped_frame(
    m: FrameModel,
    cfg: ConfigModel,
    opcode: u8,
    acc: Option<AccessModel>,
) -> FrameModel {
    let counted = if cfg.ignored_opcodes.contains(opcode) {
        m.used_opcodes
    } else {
        bumped(m.used_opcodes, opcode)
    };
    let slots = match acc {
        None => m.accessed_slots,
        Some(AccessModel::Read(k, v)) => SlotsModel {
            reads: read_appended(m.accessed_slots.reads, k, v),
            ..m.accessed_slots
        },
        Some(AccessModel::Write(k)) => SlotsModel {
            writes: bumped(m.accessed_slots.writes, k),
            ..m.accessed_slots
        },
        Some(AccessModel::TransientRead(k)) => SlotsModel {
            transient_reads: bumped(m.accessed_slots.transient_reads, k),
            ..m.accessed_slots
        },
        Some(AccessModel::TransientWrite(k)) => SlotsModel {
            transient_writes: bumped(m.accessed_slots.transient_writes, k),
            ..m.accessed_slots
        },
    };
    FrameModel { used_opcodes: counted, accessed_slots: slots, ..m }
}

/// A frame after a log emission.
pub open spec fn logged_frame(m: FrameModel, l: LogModel) -> FrameModel {
    FrameModel { logs: m.logs.push(l), ..m }
}

/// A frame after a code-size observation: the size is recorded under the
/// address unless one is already recorded, and an external inspection adds
/// the address to `ext_code_access_info` once.
pub open spec fn code_accessed_frame(
    m: FrameModel,
    addr: Seq<u8>,
    size: usize,
    opcode: u8,
    external: bool,
) -> FrameModel {
    let sizes = if has_key(m.contract_size, addr) {
        m.contract_size
    } else {
        m.contract_size.push((addr, ContractSizeWithOpCode { contract_size: size, opcode: opcode }))
    };
    let ext = if external && !m.ext_code_access_info.contains(addr) {
        m.ext_code_access_info.push(addr)
    } else {
        m.ext_code_access_info
    };
    FrameModel { contract_size: sizes, ext_code_access_info: ext, ..m }
}

/// A frame after its call returned, with the terminal observations filled in.
pub open spec fn finalized_frame(
    m: FrameModel,
    gas_used: u64,
    output: Option<Seq<u8>>,
    error: Seq<char>,
    revert_reason: Seq<char>,
    reverted_snapshot: bool,
    out_of_gas: bool,
) -> FrameModel {
    FrameModel {
        gas_used: gas_used,
        output: output,
        error: error,
        revert_reason: revert_reason,
        reverted_snapshot: reverted_snapshot,
        out_of_gas: out_of_gas,
        ..m
    }
}

/// Room left in the counters the step would touch; trivially true of real
/// traces, needed because the counters are 64-bit.
pub open spec fn step_fits(b: BuilderModel, opcode: u8, acc: Option<AccessModel>) -> bool {
    b.stack.len() > 0 ==> {
        let top = b.stack.last();
        &&& (!b.config.ignored_opcodes.contains(opcode) && has_key(top.used_opcodes, opcode)
            ==> value_of(top.used_opcodes, opcode) < u64::MAX)
        &&& match acc {
            Some(AccessModel::Write(k)) => has_key(top.accessed_slots.writes, k) ==> value_of(
                top.accessed_slots.writes,
                k,
            ) < u64::MAX,
            Some(AccessModel::TransientRead(k)) => has_key(top.accessed_slots.transient_reads, k)
                ==> value_of(top.accessed_slots.transient_reads, k) < u64::MAX,
            Some(AccessModel::TransientWrite(k)) => has_key(
                top.accessed_slots.transient_writes,
                k,
            ) ==> value_of(top.accessed_slots.transient_writes, k) < u64::MAX,
            _ => true,
        }
    }
}

/// Whether two byte strings hold the same bytes.
pub(crate) fn bytes_eq(a: &Vec<u8>, b: &Vec<u8>) -> (r: bool)
    ensures
        r == (a@ == b@),
{
    if a.len() != b.len() {
        return false;
    }
    let n = a.len();
    let mut i: usize = 0;
    while i < n
        invariant
            i <= n,
            n == a@.len(),
            n == b@.len(),
            forall|j: int| 0 <= j < i ==> a@[j] == b@[j],
        decreases n - i,
    {
        if a[i] != b[i] {
            return false;
        }
        i = i + 1;
    }
    proof {
        assert(a@ =~= b@);
    }
    true
}

/// Increments the count under `opcode`, keeping entry order, creating the
/// entry with count one if absent.
fn bump_opcode(m: &mut Vec<(u8, u64)>, opcode: u8)
    requires
        keys_unique(old(m)@),
        has_key(old(m)@, opcode) ==> value_of(old(m)@, opcode) < u64::MAX,
    ensures
        final(m)@ == bumped(old(m)@, opcode),
        keys_unique(final(m)@),
{
    let n = m.len();
    let mut i: usize = 0;
    while i < n
        invariant
            i <= n,
            n == m@.len(),
            *m == *old(m),
            keys_unique(m@),
            has_key(m@, opcode) ==> value_of(m@, opcode) < u64::MAX,
            forall|j: int| 0 <= j < i ==> (#[trigger] m@[j]).0 != opcode,
        decreases n - i,
    {
        if m[i].0 == opcode {
            proof {
                assert(has_key(m@, opcode));
                let ki = key_index(m@, opcode);
                assert(m@[ki].0 == opcode);
                assert(ki == i as int);
            }
            let entry = m.remove(i);
            let count = entry.1;
            m.insert(i, (opcode, count + 1));
            proof {
                assert(m@ =~= old(m)@.update(i as int, (opcode, (count + 1) as u64)));
            }
            return;
        }
        i = i + 1;
    }
    proof {
        assert(!has_key(m@, opcode));
    }
    m.push((opcode, 1));
    proof {
        assert forall|a: int, b: int| 0 <= a < b < m@.len() implies (#[trigger] m@[a]).0
            != (#[trigger] m@[b]).0 by {
            if b == m@.len() - 1 {
                assert(old(m)@[a].0 != opcode);
            }
        }
    }
}

impl TraceBuilder {
    /// A builder with no open frame, ready for the top-level `enter_call`.
    pub fn new(config: Erc7562ValidationTracerConfig) -> (b: Self)
        requires
            config@.wf(),
        ensures
            b@.config == config@,
            b@.stack == Seq::<FrameModel>::empty(),
            b@.wf(),
    {
        let b = TraceBuilder { config, stack: Vec::new() };
        proof {
            assert(b@.stack =~= Seq::<FrameModel>::empty());
        }
        b
    }

    /// How many frames are open.
    pub fn depth(&self) -> (n: usize)
        ensures
            n == self@.stack.len(),
    {
        proof {
            lemma_frame_models(self.stack@);
        }
        self.stack.len()
    }

    /// Opens a frame for a call just entered and makes it current. Always
    /// succeeds: it only records intent; call-depth limits are the
    /// interpreter's to enforce.
    pub fn enter_call(
        &mut self,
        kind: u8,
        from: Vec<u8>,
        to: Vec<u8>,
        gas: u64,
        value: Vec<u8>,
        input: Vec<u8>,
    )
        requires
            old(self)@.wf(),
            from@.len() == 20,
            to@.len() == 20,
            value@.len() == 32,
        ensures
            final(self)@.config == old(self)@.config,
            final(self)@.stack == old(self)@.stack.push(
                entered_frame(kind, from@, to@, gas, value@, input@),
            ),
            final(self)@.wf(),
    {
        let ghost target = entered_frame(kind, from@, to@, gas, value@, input@);
        let frame = CallFrameWithOpCodes {
            kind,
            from,
            gas,
            gas_used: 0,
            to,
            input,
            output: None,
            error: String::new(),
            revert_reason: String::new(),
            logs: Vec::new(),
            value,
            reverted_snapshot: false,
            accessed_slots: AccessedSlots::new(),
            ext_code_access_info: Vec::new(),
            used_opcodes: Vec::new(),
            contract_size: Vec::new(),
            out_of_gas: false,
            children: Vec::new(),
        };
        proof {
            assert(logs_model(frame.logs@) =~= Seq::<LogModel>::empty());
            assert(addrs_model(frame.ext_code_access_info@) =~= Seq::<Seq<u8>>::empty());
            assert(sizes_model(frame.contract_size@) =~= Seq::<
                (Seq<u8>, ContractSizeWithOpCode),
            >::empty());
            assert(frame_models(frame.children@) =~= Seq::<FrameModel>::empty());
            assert(frame_model(frame) =~~= target);
            lemma_frame_models_push(self.stack@, frame);
        }
        self.stack.push(frame);
        proof {
            assert(self@.stack =~= old(self)@.stack.push(target));
        }
    }

    /// Records one opcode step of the current frame: counts the opcode unless
    /// the configuration ignores it, and applies the storage event if one is
    /// present. Rejected when no frame is open.
    pub fn record_step(&mut self, opcode: u8, access: Option<StorageAccess>) -> (r: Result<
        (),
        TraceError,
    >)
        requires
            old(self)@.wf(),
            step_fits(old(self)@, opcode, opt_access_model(access)),
        ensures
            old(self)@.stack.len() == 0 ==> r == Result::<(), TraceError>::Err(
                TraceError::InvalidTraceSequence,
            ) && final(self)@ == old(self)@,
            old(self)@.stack.len() > 0 ==> {
                &&& r == Result::<(), TraceError>::Ok(())
                &&& final(self)@.config == old(self)@.config
                &&& final(self)@.stack == old(self)@.stack.update(
                    old(self)@.stack.len() - 1,
                    stepped_frame(
                        old(self)@.stack.last(),
                        old(self)@.config,
                        opcode,
                        opt_access_model(access),
                    ),
                )
                &&& final(self)@.wf()
            },
    {
        proof {
            lemma_frame_models(self.stack@);
        }
        if self.stack.len() == 0 {
            return Err(TraceError::InvalidTraceSequence);
        }
        let ghost m0 = old(self)@.stack.last();
        let ghost cfg = old(self)@.config;
        let ghost acc = opt_access_model(access);
        let mut top = match self.stack.pop() {
            Some(f) => f,
            None => {
                return Err(TraceError::InvalidTraceSequence);
            },
        };
        proof {
            lemma_frame_models(self.stack@);
            assert(self.stack@ =~= old(self).stack@.drop_last());
            lemma_frame_models_drop_last(old(self).stack@);
            assert(frame_models(self.stack@) == old(self)@.stack.drop_last());
            assert(frame_model(top) == m0);
        }
        if !self.config.is_ignored(opcode) {
            bump_opcode(&mut top.used_opcodes, opcode);
        }
        match access {
            None => {},
            Some(StorageAccess::Read(loc, val)) => top.accessed_slots.on_read(loc, val),
            Some(StorageAccess::Write(loc)) => top.accessed_slots.on_write(loc),
            Some(StorageAccess::TransientRead(loc)) => top.accessed_slots.on_transient_read(loc),
            Some(StorageAccess::TransientWrite(loc)) => top.accessed_slots.on_transient_write(loc),
        }
        proof {
            assert(frame_model(top) =~~= stepped_frame(m0, cfg, opcode, acc));
            lemma_frame_models_push(self.stack@, top);
        }
        self.stack.push(top);
        proof {
            assert(self@.stack =~= old(self)@.stack.update(
                old(self)@.stack.len() - 1,
                stepped_frame(m0, cfg, opcode, acc),
            ));
        }
        Ok(())
    }

    /// Appends a log to the current frame when the configuration keeps logs;
    /// discards it at emission time otherwise. Rejected when no frame is
    /// open.
    pub fn record_log(&mut self, log: CallLogFrame) -> (r: Result<(), TraceError>)
        requires
            old(self)@.wf(),
            log@.wf(),
        ensures
            old(self)@.stack.len() == 0 ==> r == Result::<(), TraceError>::Err(
                TraceError::InvalidTraceSequence,
            ) && final(self)@ == old(self)@,
            old(self)@.stack.len() > 0 ==> {
                &&& r == Result::<(), TraceError>::Ok(())
                &&& final(self)@.config == old(self)@.config
                &&& final(self)@.stack == if old(self)@.config.with_log {
                    old(self)@.stack.update(
                        old(self)@.stack.len() - 1,
                        logged_frame(old(self)@.stack.last(), log@),
                    )
                } else {
                    old(self)@.stack
                }
                &&& final(self)@.wf()
            },
    {
        proof {
            lemma_frame_models(self.stack@);
        }
        if self.stack.len() == 0 {
            return Err(TraceError::InvalidTraceSequence);
        }
        if !self.config.with_log {
            return Ok(());
        }
        let ghost m0 = old(self)@.stack.last();
        let mut top = match self.stack.pop() {
            Some(f) => f,
            None => {
                return Err(TraceError::InvalidTraceSequence);
            },
        };
        proof {
            lemma_frame_models(self.stack@);
            assert(self.stack@ =~= old(self).stack@.drop_last());
            lemma_frame_models_drop_last(old(self).stack@);
            assert(frame_models(self.stack@) == old(self)@.stack.drop_last());
            assert(frame_model(top) == m0);
        }
        top.logs.push(log);
        proof {
            assert(logs_model(top.logs@) =~= m0.logs.push(log@));
            assert(frame_model(top) =~~= logged_frame(m0, log@));
            lemma_frame_models_push(self.stack@, top);
        }
        self.stack.push(top);
        proof {
            assert(self@.stack =~= old(self)@.stack.update(
                old(self)@.stack.len() - 1,
                logged_frame(m0, log@),
            ));
        }
        Ok(())
    }

    /// Records a code-size observation at `address`, and, when the access is
    /// an external inspection rather than same-contract execution, remembers
    /// the address. Rejected when no frame is open.
    pub fn record_code_access(
        &mut self,
        address: Vec<u8>,
        size: usize,
        opcode: u8,
        external: bool,
    ) -> (r: Result<(), TraceError>)
        requires
            old(self)@.wf(),
            address@.len() == 20,
        ensures
            old(self)@.stack.len() == 0 ==> r == Result::<(), TraceError>::Err(
                TraceError::InvalidTraceSequence,
            ) && final(self)@ == old(self)@,
            old(self)@.stack.len() > 0 ==> {
                &&& r == Result::<(), TraceError>::Ok(())
                &&& final(self)@.config == old(self)@.config
                &&& final(self)@.stack == old(self)@.stack.update(
                    old(self)@.stack.len() - 1,
                    code_accessed_frame(old(self)@.stack.last(), address@, size, opcode, external),
                )
                &&& final(self)@.wf()
            },
    {
        proof {
            lemma_frame_models(self.stack@);
        }
        if self.stack.len() == 0 {
            return Err(TraceError::InvalidTraceSequence);
        }
        let ghost m0 = old(self)@.stack.last();
        let mut top = match self.stack.pop() {
            Some(f) => f,
            None => {
                return Err(TraceError::InvalidTraceSequence);
            },
        };
        proof {
            lemma_frame_models(self.stack@);
            assert(self.stack@ =~= old(self).stack@.drop_last());
            lemma_frame_models_drop_last(old(self).stack@);
            assert(frame_models(self.stack@) == old(self)@.stack.drop_last());
            assert(frame_model(top) == m0);
        }
        let n = top.contract_size.len();
        let mut i: usize = 0;
        let mut seen: bool = false;
        while i < n
            invariant
                i <= n,
                n == top.contract_size@.len(),
                m0 == frame_model(top),
                seen <==> exists|j: int|
                    0 <= j < i && (#[trigger] top.contract_size@[j]).0@ == address@,
            decreases n - i,
        {
            if bytes_eq(&top.contract_size[i].0, &address) {
                seen = true;
            }
            i = i + 1;
        }
        proof {
            if seen {
                let j = choose|j: int|
                    0 <= j < i && (#[trigger] top.contract_size@[j]).0@ == address@;
                assert((#[trigger] m0.contract_size[j]).0 == address@);
                assert(has_key(m0.contract_size, address@));
            } else {
                assert forall|j: int|
                    0 <= j < m0.contract_size.len() implies (#[trigger] m0.contract_size[j]).0
                    != address@ by {
                    assert(top.contract_size@[j].0@ != address@);
                }
                assert(!has_key(m0.contract_size, address@));
            }
        }
        if !seen {
            top.contract_size.push(
                (address.clone(), ContractSizeWithOpCode { contract_size: size, opcode }),
            );
        }
        let en = top.ext_code_access_info.len();
        let mut k: usize = 0;
        let mut listed: bool = false;
        proof {
            assert(sizes_model(top.contract_size@) =~= code_accessed_frame(
                m0,
                address@,
                size,
                opcode,
                external,
            ).contract_size);
        }
        while k < en
            invariant
                k <= en,
                en == top.ext_code_access_info@.len(),
                listed <==> exists|j: int|
                    0 <= j < k && (#[trigger] top.ext_code_access_info@[j])@ == address@,
            decreases en - k,
        {
            if bytes_eq(&top.ext_code_access_info[k], &address) {
                listed = true;
            }
            k = k + 1;
        }
        proof {
            if listed {
                let j = choose|j: int|
                    0 <= j < k && (#[trigger] top.ext_code_access_info@[j])@ == address@;
                assert(#[trigger] m0.ext_code_access_info[j] == address@);
                assert(m0.ext_code_access_info.contains(address@));
            } else {
                assert forall|j: int|
                    0 <= j < m0.ext_code_access_info.len() implies #[trigger] m0
                    .ext_code_access_info[j] != address@ by {
                    assert(top.ext_code_access_info@[j]@ != address@);
                }
                assert(!m0.ext_code_access_info.contains(address@));
            }
        }
        if external && !listed {
            top.ext_code_access_info.push(address);
        }
        proof {
            assert(addrs_model(top.ext_code_access_info@) =~= code_accessed_frame(
                m0,
                address@,
                size,
                opcode,
                external,
            ).ext_code_access_info);
            assert(frame_model(top) =~~= code_accessed_frame(m0, address@, size, opcode, external));
            lemma_frame_models_push(self.stack@, top);
        }
        self.stack.push(top);
        proof {
            let target = code_accessed_frame(m0, address@, size, opcode, external);
            assert(self@.stack =~= old(self)@.stack.update(old(self)@.stack.len() - 1, target));
            assert forall|a: int, b: int|
                0 <= a < b < target.contract_size.len() implies (
                #[trigger] target.contract_size[a]).0 != (#[trigger] target.contract_size[b]).0 by {
                if b == target.contract_size.len() - 1 && !has_key(m0.contract_size, address@) {
                    assert(m0.contract_size[a].0 != address@);
                }
            }
            assert forall|a: int, b: int|
                0 <= a < b < target.ext_code_access_info.len() implies (
                #[trigger] target.ext_code_access_info[a]) != (
                #[trigger] target.ext_code_access_info[b]) by {
                if b == target.ext_code_access_info.len() - 1 && !m0.ext_code_access_info.contains(
                    address@,
                ) {}
            }
        }
        Ok(())
    }

    /// Closes the current frame with its terminal observations. The frame is
    /// appended as the last child of the frame below it — so sibling order is
    /// call-entry order — or returned as the finished tree root when it was
    /// the outermost frame. Rejected when no frame is open.
    pub fn exit_call(
        &mut self,
        gas_used: u64,
        output: Option<Vec<u8>>,
        error: String,
        revert_reason: String,
        reverted_snapshot: bool,
        out_of_gas: bool,
    ) -> (r: Result<Option<CallFrameWithOpCodes>, TraceError>)
        requires
            old(self)@.wf(),
            old(self)@.stack.len() > 0 ==> gas_used <= old(self)@.stack.last().gas,
            out_of_gas ==> error@.len() > 0,
        ensures
            old(self)@.stack.len() == 0 ==> r == Result::<
                Option<CallFrameWithOpCodes>,
                TraceError,
            >::Err(TraceError::InvalidTraceSequence) && final(self)@ == old(self)@,
            old(self)@.stack.len() == 1 ==> {
                &&& r matches Ok(Some(root)) && root@ == finalized_frame(
                    old(self)@.stack.last(),
                    gas_used,
                    opt_bytes_model(output),
                    error@,
                    revert_reason@,
                    reverted_snapshot,
                    out_of_gas,
                ) && frame_wf(root@) && gas_bounded(root@) && error_flag_consistent(root@)
                &&& final(self)@.config == old(self)@.config
                &&& final(self)@.stack == Seq::<FrameModel>::empty()
                &&& final(self)@.wf()
            },
            old(self)@.stack.len() > 1 ==> {
                &&& r == Result::<Option<CallFrameWithOpCodes>, TraceError>::Ok(None)
                &&& final(self)@.config == old(self)@.config
                &&& final(self)@.stack == old(self)@.stack.drop_last().update(
                    old(self)@.stack.len() - 2,
                    appended_child(
                        old(self)@.stack[old(self)@.stack.len() - 2],
                        finalized_frame(
                            old(self)@.stack.last(),
                            gas_used,
                            opt_bytes_model(output),
                            error@,
                            revert_reason@,
                            reverted_snapshot,
                            out_of_gas,
                        ),
                    ),
                )
                &&& final(self)@.wf()
            },
    {
        proof {
            lemma_frame_models(self.stack@);
        }
        if self.stack.len() == 0 {
            return Err(TraceError::InvalidTraceSequence);
        }
        let ghost m0 = old(self)@.stack.last();
        let ghost closed = finalized_frame(
            m0,
            gas_used,
            opt_bytes_model(output),
            error@,
            revert_reason@,
            reverted_snapshot,
            out_of_gas,
        );
        let mut top = match self.stack.pop() {
            Some(f) => f,
            None => {
                return Err(TraceError::InvalidTraceSequence);
            },
        };
        proof {
            lemma_frame_models(self.stack@);
            assert(self.stack@ =~= old(self).stack@.drop_last());
            lemma_frame_models_drop_last(old(self).stack@);
            assert(frame_models(self.stack@) == old(self)@.stack.drop_last());
            assert(frame_model(top) == m0);
        }
        top.gas_used = gas_used;
        top.output = output;
        top.error = error;
        top.revert_reason = revert_reason;
        top.reverted_snapshot = reverted_snapshot;
        top.out_of_gas = out_of_gas;
        proof {
            assert(frame_model(top) =~~= closed);
            assert(frame_wf(closed));
            assert(gas_bounded(closed));
            assert(error_flag_consistent(closed));
        }
        if self.stack.len() == 0 {
            proof {
                assert(self@.stack =~= Seq::<FrameModel>::empty());
            }
            return Ok(Some(top));
        }
        let ghost p0 = old(self)@.stack[old(self)@.stack.len() - 2];
        let mut parent = match self.stack.pop() {
            Some(f) => f,
            None => {
                return Err(TraceError::InvalidTraceSequence);
            },
        };
        proof {
            lemma_frame_models(self.stack@);
            assert(self.stack@ =~= old(self).stack@.drop_last().drop_last());
            lemma_frame_models_drop_last(old(self).stack@.drop_last());
            assert(frame_models(self.stack@) == old(self)@.stack.drop_last().drop_last());
            assert(frame_model(parent) == p0);
            lemma_frame_models_push(parent.children@, top);
        }
        parent.children.push(top);
        proof {
            assert(frame_model(parent) =~~= appended_child(p0, closed));
            lemma_frame_models_push(self.stack@, parent);
        }
        self.stack.push(parent);
        proof {
            assert(self@.stack =~= old(self)@.stack.drop_last().update(
                old(self)@.stack.len() - 2,
                appended_child(p0, closed),
            ));
        }
        Ok(None)
    }
}

/// A frame with one more finished child, in call-entry order.
pub open spec fn appended_child(m: FrameModel, child: FrameModel) -> FrameModel {
    FrameModel { children: m.children.push(child), ..m }
}

} // verus!
