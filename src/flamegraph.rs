//! Folded-stack rendering of a snapshot of the call tree: one line
//! `module.function:line;...;module.function:line bytes` per node with
//! direct bytes.
use crate::calltree::{path_of, CallFrame, CallTree};
use crate::registry::FunctionRegistry;
use vstd::prelude::*;
use vstd::utf8::encode_utf8;

verus! {

/// Decimal digits of `n`, most significant first, in ASCII.
pub open spec fn decimal(n: nat) -> Seq<u8>
    decreases n,
{
    if n < 10 {
        seq![(48 + n) as u8]
    } else {
        decimal(n / 10).push((48 + n % 10) as u8)
    }
}

/// `module.function:line` for one frame.
pub open spec fn label(functions: Seq<(Seq<char>, Seq<char>)>, f: CallFrame) -> Seq<u8> {
    let (m, name) = functions[f.function as int];
    encode_utf8(m) + seq![46u8] + encode_utf8(name) + seq![58u8] + decimal(f.line as nat)
}

/// The labels of a path, root first, joined by `;`.
pub open spec fn stack_text(functions: Seq<(Seq<char>, Seq<char>)>, path: Seq<CallFrame>) -> Seq<u8>
    decreases path.len(),
{
    if path.len() == 0 {
        Seq::empty()
    } else if path.len() == 1 {
        label(functions, path[0])
    } else {
        stack_text(functions, path.drop_last()) + seq![59u8] + label(functions, path.last())
    }
}

/// The line for node `j` holding `bytes` direct bytes.
pub open spec fn folded_line(
    functions: Seq<(Seq<char>, Seq<char>)>,
    parents: Seq<usize>,
    frames: Seq<CallFrame>,
    j: int,
    bytes: usize,
) -> Seq<u8> {
    stack_text(functions, path_of(parents, frames, j)) + seq![32u8] + decimal(bytes as nat) + seq![
        10u8,
    ]
}

/// The folded-stack text for the first `n` entries of `snapshot`, node by
/// node in index order, leaving out nodes with no direct bytes.
pub open spec fn folded(
    functions: Seq<(Seq<char>, Seq<char>)>,
    parents: Seq<usize>,
    frames: Seq<CallFrame>,
    snapshot: Seq<usize>,
    n: int,
) -> Seq<u8>
    decreases n,
{
    if n <= 0 {
        Seq::empty()
    } else {
        folded(functions, parents, frames, snapshot, n - 1) + if snapshot[n - 1] != 0 {
            folded_line(functions, parents, frames, n - 1, snapshot[n - 1])
        } else {
            Seq::empty()
        }
    }
}

fn push_bytes(out: &mut Vec<u8>, s: &[u8])
    ensures
        final(out)@ == old(out)@ + s@,
{
    let ghost start = out@;
    let mut i: usize = 0;
    while i < s.len()
        invariant
            i <= s@.len(),
            out@ == start + s@.subrange(0, i as int),
        decreases s@.len() - i,
    {
        out.push(s[i]);
        i += 1;
        proof {
            assert(out@ =~= start + s@.subrange(0, i as int));
        }
    }
    proof {
        assert(s@.subrange(0, s@.len() as int) =~= s@);
    }
}

fn push_decimal(out: &mut Vec<u8>, n: usize)
    ensures
        final(out)@ == old(out)@ + decimal(n as nat),
    decreases n,
{
    if n >= 10 {
        push_decimal(out, n / 10);
    }
    out.push(48u8 + (n % 10) as u8);
    proof {
        if n >= 10 {
            assert(old(out)@ + decimal(n as nat) =~= old(out)@ + decimal((n / 10) as nat) + seq![
                (48 + n % 10) as u8,
            ]);
        } else {
            assert(old(out)@ + decimal(n as nat) =~= old(out)@.push((48 + n) as u8));
        }
    }
}

fn push_label(out: &mut Vec<u8>, functions: &FunctionRegistry, f: CallFrame)
    requires
        f.function < functions@.len(),
    ensures
        final(out)@ == old(out)@ + label(functions@, f),
{
    let func = functions.get(f.function);
    push_bytes(out, func.module_name.as_str().as_bytes());
    out.push(46u8);
    push_bytes(out, func.function_name.as_str().as_bytes());
    out.push(58u8);
    push_decimal(out, f.line as usize);
    proof {
        let (m, name) = functions@[f.function as int];
        assert(out@ =~= old(out)@ + label(functions@, f));
    }
}

/// Whether every frame of the tree but the root's names a known function.
pub open spec fn frames_known(tree: &CallTree, functions: &FunctionRegistry) -> bool {
    forall|j: int| 0 < j < tree.len() ==> (#[trigger] tree.frames()[j]).function < functions@.len()
}

/// Writes the labelled path of node `j`.
fn push_path(out: &mut Vec<u8>, functions: &FunctionRegistry, tree: &CallTree, j: usize)
    requires
        tree.wf(),
        j < tree.len(),
        frames_known(tree, functions),
    ensures
        final(out)@ == old(out)@ + stack_text(functions@, tree.path(j as int)),
{
    let ghost parents = tree.parents();
    let ghost frames = tree.frames();
    let mut chain: Vec<usize> = Vec::new();
    let mut cur = j;
    while cur != 0
        invariant
            tree.wf(),
            cur < tree.len(),
            parents == tree.parents(),
            frames == tree.frames(),
            forall|i: int| 0 <= i < chain@.len() ==> 0 < #[trigger] chain@[i] < tree.len(),
            path_of(parents, frames, j as int) == path_of(parents, frames, cur as int) + Seq::new(
                chain@.len(),
                |i: int| frames[chain@[chain@.len() - 1 - i] as int],
            ),
        decreases cur,
    {
        let ghost before = chain@;
        chain.push(cur);
        let next = tree.parent(cur);
        proof {
            assert(parents[cur as int] < cur);
            assert(path_of(parents, frames, cur as int) == path_of(parents, frames, next as int).push(
                frames[cur as int],
            ));
            assert(path_of(parents, frames, next as int).push(frames[cur as int]) + Seq::new(
                before.len(),
                |i: int| frames[before[before.len() - 1 - i] as int],
            ) =~= path_of(parents, frames, next as int) + Seq::new(
                chain@.len(),
                |i: int| frames[chain@[chain@.len() - 1 - i] as int],
            ));
        }
        cur = next;
    }
    let ghost path = path_of(parents, frames, j as int);
    proof {
        assert(path_of(parents, frames, 0) =~= Seq::<CallFrame>::empty());
        assert(path =~= Seq::new(chain@.len(), |i: int| frames[chain@[chain@.len() - 1 - i] as int]));
    }
    let ghost start = out@;
    let n = chain.len();
    let mut k: usize = 0;
    while k < n
        invariant
            n == chain@.len(),
            k <= n,
            path.len() == n,
            tree.wf(),
            frames_known(tree, functions),
            frames == tree.frames(),
            forall|i: int| 0 <= i < chain@.len() ==> 0 < #[trigger] chain@[i] < tree.len(),
            forall|i: int| 0 <= i < n ==> #[trigger] path[i] == frames[chain@[n - 1 - i] as int],
            out@ == start + stack_text(functions@, path.take(k as int)),
        decreases n - k,
    {
        let node = chain[n - 1 - k];
        let f = tree.frame(node);
        proof {
            assert(frames[node as int] == tree.frames()[node as int]);
        }
        if k > 0 {
            out.push(59u8);
        }
        push_label(out, functions, f);
        proof {
            assert(path.take(k + 1).drop_last() =~= path.take(k as int));
            assert(path.take(k + 1).last() == f);
            assert(out@ =~= start + stack_text(functions@, path.take(k + 1)));
        }
        k += 1;
    }
    proof {
        assert(path.take(n as int) =~= path);
    }
}

/// Folded-stack text of `snapshot` over the nodes of `tree`.
pub fn render(functions: &FunctionRegistry, tree: &CallTree, snapshot: &Vec<usize>) -> (r: Vec<u8>)
    requires
        tree.wf(),
        snapshot@.len() <= tree.len(),
        frames_known(tree, functions),
    ensures
        r@ == folded(functions@, tree.parents(), tree.frames(), snapshot@, snapshot@.len() as int),
{
    let mut out: Vec<u8> = Vec::new();
    let mut j: usize = 0;
    while j < snapshot.len()
        invariant
            j <= snapshot@.len(),
            snapshot@.len() <= tree.len(),
            tree.wf(),
            frames_known(tree, functions),
            out@ == folded(functions@, tree.parents(), tree.frames(), snapshot@, j as int),
        decreases snapshot@.len() - j,
    {
        let bytes = snapshot[j];
        if bytes != 0 {
            let ghost before = out@;
            push_path(&mut out, functions, tree, j);
            out.push(32u8);
            push_decimal(&mut out, bytes);
            out.push(10u8);
            proof {
                assert(out@ =~= before + folded_line(
                    functions@,
                    tree.parents(),
                    tree.frames(),
                    j as int,
                    bytes,
                ));
            }
        }
        proof {
            assert(folded(functions@, tree.parents(), tree.frames(), snapshot@, j + 1) == folded(
                functions@,
                tree.parents(),
                tree.frames(),
                snapshot@,
                j as int,
            ) + if bytes != 0 {
                folded_line(functions@, tree.parents(), tree.frames(), j as int, bytes)
            } else {
                Seq::empty()
            });
        }
        j += 1;
    }
    out
}

} // verus!
