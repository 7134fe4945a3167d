//! Tracer configuration: an immutable set of options decided before tracing
//! starts, controlling how much the collector records.

use vstd::prelude::*;

verus! {

/// Options of the ERC-7562 validation tracer.
///
/// `stack_top_items_size` is how many stack items from the top each step
/// captures (zero disables capture); `ignored_opcodes` are excluded from
/// `used_opcodes` counting; `with_log` decides whether emitted logs are kept.
#[derive(Clone, Debug, PartialEq, Eq)]
pub struct Erc7562ValidationTracerConfig {
    pub stack_top_items_size: usize,
    pub ignored_opcodes: Vec<u8>,
    pub with_log: bool,
}

/// Mathematical value of a configuration.
#[verifier::ext_equal]
pub struct ConfigModel {
    pub stack_top_items_size: usize,
    pub ignored_opcodes: Seq<u8>,
    pub with_log: bool,
}

impl ConfigModel {
    /// `ignored_opcodes` is a set: no opcode is listed twice.
    pub open spec fn wf(self) -> bool {
        forall|i: int, j: int|
            0 <= i < j < self.ignored_opcodes.len()
                ==> self.ignored_opcodes[i] != self.ignored_opcodes[j]
    }
}

impl View for Erc7562ValidationTracerConfig {
    type V = ConfigModel;

    open spec fn view(&self) -> ConfigModel {
        ConfigModel {
            stack_top_items_size: self.stack_top_items_size,
            ignored_opcodes: self.ignored_opcodes@,
            with_log: self.with_log,
        }
    }
}

impl Erc7562ValidationTracerConfig {
    /// The configuration tracing starts from when the caller asks for nothing
    /// special: three stack items, no ignored opcode, logs kept.
    pub fn new() -> (c: Self)
        ensures
            c@.stack_top_items_size == 3,
            c@.ignored_opcodes == Seq::<u8>::empty(),
            c@.with_log == true,
            c@.wf(),
    {
        Erc7562ValidationTracerConfig {
            stack_top_items_size: 3,
            with_log: true,
            ignored_opcodes: Vec::new(),
        }
    }

    /// Whether step capture and opcode counting skip `opcode`.
    pub fn is_ignored(&self, opcode: u8) -> (r: bool)
        ensures
            r == self@.ignored_opcodes.contains(opcode),
    {
        let n = self.ignored_opcodes.len();
        let mut i: usize = 0;
        while i < n
            invariant
                i <= n,
                n == self.ignored_opcodes@.len(),
                forall|j: int| 0 <= j < i ==> self.ignored_opcodes@[j] != opcode,
            decreases n - i,
        {
            if self.ignored_opcodes[i] == opcode {
                return true;
            }
            i = i + 1;
        }
        false
    }
}

impl Default for Erc7562ValidationTracerConfig {
    /// The all-zero value: no stack capture, nothing ignored, logs dropped.
    fn default() -> (c: Self)
        ensures
            c@.stack_top_items_size == 0,
            c@.ignored_opcodes == Seq::<u8>::empty(),
            c@.with_log == false,
            c@.wf(),
    {
        Erc7562ValidationTracerConfig {
            stack_top_items_size: 0,
            with_log: false,
            ignored_opcodes: Vec::new(),
        }
    }
}

} // verus!
