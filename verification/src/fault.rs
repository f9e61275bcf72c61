//! Fault injection for crash tests: how to make the machine the store runs
//! on go down at once, so that a test can see what of the journal survives.

use vstd::prelude::*;

verus! {

/// One step of a fault-injection plan: `data` is to be written to the file at
/// `path`.
#[derive(Debug, Clone, PartialEq, Eq)]
pub struct KernelWrite {
    pub path: String,
    pub data: Vec<u8>,
}

/// The writes that make a Linux kernel panic, in the order in which they must
/// be made: first `1` to `/proc/sys/kernel/sysrq`, which enables the SysRq
/// commands, then `c` to `/proc/sysrq-trigger`, which asks for the crash.
/// Nothing is written here; the caller carries the plan out.
pub fn panic_kernel() -> (plan: Vec<KernelWrite>)
    ensures
        plan@.len() == 2,
        plan@[0].path@ == "/proc/sys/kernel/sysrq"@,
        plan@[0].data@ == seq![0x31u8],
        plan@[1].path@ == "/proc/sysrq-trigger"@,
        plan@[1].data@ == seq![0x63u8],
{
    let mut enable: Vec<u8> = Vec::new();
    enable.push(0x31u8);
    let mut crash: Vec<u8> = Vec::new();
    crash.push(0x63u8);
    let mut plan: Vec<KernelWrite> = Vec::new();
    plan.push(KernelWrite { path: "/proc/sys/kernel/sysrq".to_owned(), data: enable });
    plan.push(KernelWrite { path: "/proc/sysrq-trigger".to_owned(), data: crash });
    assert(plan@[0].data@ =~= seq![0x31u8]);
    assert(plan@[1].data@ =~= seq![0x63u8]);
    plan
}

} // verus!
