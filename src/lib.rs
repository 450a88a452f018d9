//! An allocation-tracking engine: attributes every live allocation to the
//! call path that made it, keeps per-path byte counts, records the peak of
//! resident memory and renders that peak as folded stacks.
//!
//! The engine is an explicit [`CommandProcessor`] handle; each thread keeps
//! its own [`Callstack`]. The functions below are the event surface.
use vstd::prelude::*;

pub mod calltree;
pub mod flamegraph;
pub mod ledger;
pub mod processor;
pub mod registry;

pub use calltree::CallFrame;
pub use ledger::Allocation;
pub use processor::CommandProcessor;
pub use registry::{Callstack, Function, StackFrame};

use processor::{allocation_added, allocation_freed, call_started, was_reset};
use registry::left;

verus! {

/// Records an allocation of `size` bytes at `address`, made at line
/// `line_number` of the top frame of `stack`.
pub fn pymemprofile_add_allocation(
    processor: &mut CommandProcessor,
    stack: &Callstack,
    address: usize,
    size: libc::size_t,
    line_number: u16,
)
    requires
        old(processor).wf(),
    ensures
        final(processor).wf(),
        allocation_added(*old(processor), *final(processor), stack@, address, size, line_number),
{
    processor.add_allocation(stack, address, size, line_number);
}

/// Retires the allocation at `address`, if it is live.
pub fn pymemprofile_free_allocation(processor: &mut CommandProcessor, address: usize)
    requires
        old(processor).wf(),
    ensures
        final(processor).wf(),
        allocation_freed(*old(processor), *final(processor), address),
{
    processor.free_allocation(address);
}

/// Enters `file_name.func_name` at `line_number`, called from line
/// `parent_line_number` of the current top frame.
pub fn pymemprofile_start_call(
    processor: &mut CommandProcessor,
    stack: &mut Callstack,
    parent_line_number: u16,
    file_name: &str,
    func_name: &str,
    line_number: u16,
)
    requires
        old(processor).wf(),
    ensures
        final(processor).wf(),
        call_started(
            *old(processor),
            *final(processor),
            old(stack)@,
            final(stack)@,
            parent_line_number,
            file_name@,
            func_name@,
            line_number,
        ),
{
    processor.start_call(stack, parent_line_number, file_name, func_name, line_number);
}

/// Leaves the top frame of `stack`; an empty stack stays empty.
pub fn pymemprofile_finish_call(stack: &mut Callstack)
    ensures
        final(stack)@ == left(old(stack)@),
{
    stack.finish_call();
}

/// Clears everything tracked.
pub fn pymemprofile_reset(processor: &mut CommandProcessor)
    requires
        old(processor).wf(),
    ensures
        final(processor).wf(),
        was_reset(*old(processor), *final(processor)),
{
    processor.reset();
}

/// The folded-stack report of the peak, as UTF-8 bytes ready to be written
/// out.
pub fn pymemprofile_dump_peak_to_flamegraph(processor: &CommandProcessor) -> (r: Vec<u8>)
    requires
        processor.wf(),
    ensures
        r@ == processor.flamegraph(),
{
    processor.dump_peak_to_flamegraph()
}

} // verus!
