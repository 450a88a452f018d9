//! Interned function identities and per-thread call stacks.
use crate::calltree::CallFrame;
use vstd::prelude::*;

verus! {

/// A function, identified by its module and its own name.
#[derive(Clone, Debug)]
pub struct Function {
    pub module_name: String,
    pub function_name: String,
}

impl Function {
    pub fn new(module_name: &str, function_name: &str) -> (r: Function)
        ensures
            r.module_name@ == module_name@,
            r.function_name@ == function_name@,
    {
        Function { module_name: module_name.to_owned(), function_name: function_name.to_owned() }
    }

    /// The function's identity as text: module name and function name.
    pub open spec fn key(&self) -> (Seq<char>, Seq<char>) {
        (self.module_name@, self.function_name@)
    }
}

/// Append-only table of interned functions, each at most once; an id is a
/// position in it.
pub struct FunctionRegistry {
    functions: Vec<Function>,
}

impl View for FunctionRegistry {
    type V = Seq<(Seq<char>, Seq<char>)>;

    closed spec fn view(&self) -> Self::V {
        self.functions@.map_values(|f: Function| f.key())
    }
}

impl FunctionRegistry {
    /// No function is in the table twice.
    pub open spec fn wf(&self) -> bool {
        forall|i: int, j: int|
            0 <= i < self@.len() && 0 <= j < self@.len() && i != j ==> #[trigger] self@[i]
                != #[trigger] self@[j]
    }

    pub fn new() -> (r: FunctionRegistry)
        ensures
            r.wf(),
            r@ == Seq::<(Seq<char>, Seq<char>)>::empty(),
    {
        let r = FunctionRegistry { functions: Vec::new() };
        proof {
            assert(r@ =~= Seq::<(Seq<char>, Seq<char>)>::empty());
        }
        r
    }

    pub fn len(&self) -> (r: usize)
        ensures
            r == self@.len(),
    {
        self.functions.len()
    }

    /// The function with id `id`.
    pub fn get(&self, id: usize) -> (r: &Function)
        requires
            id < self@.len(),
        ensures
            r.key() == self@[id as int],
    {
        &self.functions[id]
    }

    /// The id of `function`: its existing id if it is in the table, else a
    /// new one at the end.
    pub fn intern(&mut self, function: Function) -> (r: usize)
        requires
            old(self).wf(),
        ensures
            final(self).wf(),
            r < final(self)@.len(),
            final(self)@[r as int] == function.key(),
            old(self)@.contains(function.key()) ==> final(self)@ == old(self)@,
            !old(self)@.contains(function.key()) ==> final(self)@ == old(self)@.push(function.key()),
    {
        let mut i: usize = 0;
        while i < self.functions.len()
            invariant
                i <= self.functions@.len(),
                self@ == old(self)@,
                self.wf(),
                forall|k: int| 0 <= k < i ==> #[trigger] self@[k] != function.key(),
            decreases self.functions@.len() - i,
        {
            let f = &self.functions[i];
            if f.module_name == function.module_name && f.function_name == function.function_name {
                proof {
                    assert(self@[i as int] == f.key());
                }
                return i;
            }
            proof {
                assert(self@[i as int] == f.key());
            }
            i += 1;
        }
        let ghost before = self.functions@;
        let ghost key = function.key();
        proof {
            assert(!old(self)@.contains(key)) by {
                if old(self)@.contains(key) {
                    let k = choose|k: int| 0 <= k < old(self)@.len() && old(self)@[k] == key;
                    assert(self@[k] != key);
                }
            }
        }
        self.functions.push(function);
        proof {
            assert(self.functions@ == before.push(function));
            assert(self@ =~= old(self)@.push(key));
        }
        i
    }
}

/// A frame of a thread's call stack: the function entered, the line it was
/// entered at, and the line of the caller it was called from.
#[derive(Clone, Copy, Debug, PartialEq, Eq, Structural)]
pub struct StackFrame {
    pub function: usize,
    pub line: u16,
    pub caller_line: u16,
}

/// The frames a thread has entered and not yet left, outermost first.
pub struct Callstack {
    frames: Vec<StackFrame>,
}

impl View for Callstack {
    type V = Seq<StackFrame>;

    closed spec fn view(&self) -> Seq<StackFrame> {
        self.frames@
    }
}

/// The stack after a call of `function` from line `parent_line` of the
/// current top frame, entering at `line`: one frame more, the others as
/// they were.
pub open spec fn entered(stack: Seq<StackFrame>, parent_line: u16, function: usize, line: u16) -> Seq<
    StackFrame,
> {
    stack.push(StackFrame { function, line, caller_line: parent_line })
}

/// The stack after the top frame returns; an empty stack stays empty.
pub open spec fn left(stack: Seq<StackFrame>) -> Seq<StackFrame> {
    if stack.len() == 0 {
        stack
    } else {
        stack.drop_last()
    }
}

/// The call path an allocation made at `line` of the top frame belongs to:
/// each frame labelled with the line executing in it, which for a caller is
/// the line its callee was called from.
pub open spec fn at_line(stack: Seq<StackFrame>, line: u16) -> Seq<CallFrame> {
    Seq::new(
        stack.len(),
        |i: int|
            CallFrame {
                function: stack[i].function,
                line: if i == stack.len() - 1 {
                    line
                } else {
                    stack[i + 1].caller_line
                },
            },
    )
}

/// A call followed by its return gives back the stack it started from.
pub proof fn lemma_call_return_restores(
    stack: Seq<StackFrame>,
    parent_line: u16,
    function: usize,
    line: u16,
)
    ensures
        left(entered(stack, parent_line, function, line)) == stack,
{
    assert(entered(stack, parent_line, function, line).drop_last() =~= stack);
}

impl Callstack {
    pub fn new() -> (r: Callstack)
        ensures
            r@ == Seq::<StackFrame>::empty(),
    {
        Callstack { frames: Vec::new() }
    }

    pub fn depth(&self) -> (r: usize)
        ensures
            r == self@.len(),
    {
        self.frames.len()
    }

    pub fn frame(&self, i: usize) -> (r: StackFrame)
        requires
            i < self@.len(),
        ensures
            r == self@[i as int],
    {
        self.frames[i]
    }

    pub fn start_call(&mut self, parent_line: u16, function: usize, line: u16)
        ensures
            final(self)@ == entered(old(self)@, parent_line, function, line),
    {
        self.frames.push(StackFrame { function, line, caller_line: parent_line });
    }

    pub fn finish_call(&mut self)
        ensures
            final(self)@ == left(old(self)@),
    {
        if self.frames.len() > 0 {
            self.frames.pop();
        }
    }
}

} // verus!
