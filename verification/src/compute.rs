//! The compute plugin: jit-compiled numeric kernels.
//!
//! A kernel is a lowered function body — a sequence of abstract
//! [`KernelInstr`]s over a flattened parameter domain — registered in a
//! [`ComputeRuntime`] under a dense [`KernelId`].  Launching a kernel gathers
//! its *relative launch set* (the kernel and every kernel it transitively
//! cross-calls), assembles the set into one wasm module with `wasm_encoder`,
//! and runs the module's exported `main` with `wasmi`.  A *parallel* kernel is
//! run once per index of `[0, count)`, reading input buffers and writing one
//! output buffer through two host imports; the collected results are
//! registered as a buffer under a dense [`BufferId`].

use vstd::prelude::*;

use std::collections::HashMap;

use crate::plugin::NativePlugin;
use crate::render::{decimal, decimal_message};

verus! {

/// A compiled kernel's identity: its index in the runtime's kernel registry.
pub type KernelId = usize;

/// A parallel results buffer's identity: its index in the runtime's buffer
/// registry.
pub type BufferId = usize;

/// A binary arithmetic/comparison operator of the kernel-safe subset.
#[derive(Clone, Copy, PartialEq, Eq, Debug, Structural)]
pub enum KernelBin {
    Add,
    Sub,
    Leq,
    Eq,
}

/// One abstract instruction in a lowered kernel body.
#[derive(Clone, Copy, PartialEq, Eq, Debug, Structural)]
pub enum KernelInstr {
    /// Push an `i64` constant.
    Const(i64),
    /// A binary `add/sub/leq/eq` over the top two stack values.
    Bin(KernelBin),
    /// Read a parameter local (a flattened scalar offset in the domain).
    LocalGet(u32),
    /// Convert the top stack value `i64 -> i32` (a `select` condition).
    I32WrapI64,
    /// Pick one of two values by the condition on top of the stack.
    Select,
    /// A cross-kernel call to the kernel with this id.
    CallKernel(KernelId),
    /// Call the host `read(cfg_pos, idx)` import.
    BufferReadCall,
    /// Call the host `write(out_pos, idx, val)` import.
    BufferWriteCall,
}

/// The shape of a kernel's parameter domain: a scalar, a (possibly nested)
/// tuple of shapes, or a shape no kernel domain takes.
#[derive(Debug)]
pub enum Shape {
    USize,
    Tuple(Vec<Shape>),
    Array,
    Function,
    Table,
}

/// A compiled kernel-callable unit: the parameter domain shape and the body as
/// abstract instructions.
#[derive(Debug)]
pub struct KernelFragment {
    pub param_shape: Shape,
    pub body: Vec<KernelInstr>,
}

/// The compute value vocabulary.
#[derive(Clone, Copy, PartialEq, Eq, Debug, Structural)]
pub enum ComputeValue {
    /// A compiled, runnable kernel artifact.
    Kernel(KernelId),
    /// A compiled parallel kernel artifact.
    ParKernel(KernelId),
    /// A runtime results buffer.
    Buffer(BufferId),
    /// The kind marker of buffer types.
    TypeBuffer,
    /// The kind marker of write types.
    TypeWrite,
}

/// The compute operator vocabulary.
#[derive(Clone, Copy, PartialEq, Eq, Debug, Structural)]
pub enum ComputeOperator {
    /// Compile a function value to a kernel.
    Jit,
    /// Run a kernel on an argument.
    Launch,
    /// A cross-kernel call: run a kernel on an argument.
    Call,
    /// Compile an index function to a parallel kernel.
    Parallel,
    /// Run a parallel kernel over `[0, count)` into a buffer.
    ParLaunch,
    /// The loop index of the current parallel invocation (kernel-only).
    Range,
    /// Read one buffer element.
    Read,
    /// A pending parallel write (kernel-only).
    Write,
    /// Collect a whole buffer into an array.
    BufferCollect,
}

/// The artifact tag a compute value is written as.
pub open spec fn value_tag(v: ComputeValue) -> Option<u8> {
    match v {
        ComputeValue::TypeBuffer => Some(0u8),
        ComputeValue::TypeWrite => Some(1u8),
        _ => None,
    }
}

/// The compute value an artifact tag reads as.
pub open spec fn tag_value(tag: u8) -> Option<ComputeValue> {
    if tag == 0 {
        Some(ComputeValue::TypeBuffer)
    } else if tag == 1 {
        Some(ComputeValue::TypeWrite)
    } else {
        None
    }
}

/// The message of an unknown compute-value tag.
fn unknown_value_tag(tag: u8) -> (m: String)
    ensures
        m@ == "unknown compute-value tag "@ + decimal(tag as nat),
{
    let m = decimal_message("unknown compute-value tag ", tag as usize, "");
    proof {
        reveal_strlit("");
        assert(m@ =~= "unknown compute-value tag "@ + decimal(tag as nat));
    }
    m
}

/// The message of an unknown compute-operator tag.
fn unknown_operator_tag(tag: u8) -> (m: String)
    ensures
        m@ == "unknown compute-operator tag "@ + decimal(tag as nat),
{
    let m = decimal_message("unknown compute-operator tag ", tag as usize, "");
    proof {
        reveal_strlit("");
        assert(m@ =~= "unknown compute-operator tag "@ + decimal(tag as nat));
    }
    m
}

impl ComputeValue {
    /// The tag a value is written to an artifact as.  Kernels, parallel
    /// kernels and buffers are process-local handles with no artifact form
    /// (`None`): a frozen module never carries one.
    pub fn codec_tag(&self) -> (r: Option<u8>)
        ensures
            r == value_tag(*self),
    {
        match self {
            ComputeValue::TypeBuffer => Some(0),
            ComputeValue::TypeWrite => Some(1),
            _ => None,
        }
    }

    /// The value an artifact tag reads back as.
    pub fn from_codec_tag(tag: u8) -> (r: Result<ComputeValue, String>)
        ensures
            match tag_value(tag) {
                Some(v) => r == Ok::<ComputeValue, String>(v),
                None => r matches Err(m) && m@ == "unknown compute-value tag "@ + decimal(tag as nat),
            },
    {
        if tag == 0 {
            Ok(ComputeValue::TypeBuffer)
        } else if tag == 1 {
            Ok(ComputeValue::TypeWrite)
        } else {
            Err(unknown_value_tag(tag))
        }
    }
}

impl ComputeOperator {
    /// Compute operators are runtime-only: no artifact holds one, so no tag
    /// reads back as one.
    pub fn from_codec_tag(tag: u8) -> (r: Result<ComputeOperator, String>)
        ensures
            r matches Err(m) && m@ == "unknown compute-operator tag "@ + decimal(tag as nat),
    {
        Err(unknown_operator_tag(tag))
    }
}

/// Reading back the tag a compute value is written as gives the value: both
/// kind markers round-trip.
pub proof fn law_value_tag_round_trip(v: ComputeValue)
    requires
        value_tag(v) is Some,
    ensures
        tag_value(value_tag(v).unwrap()) == Some(v),
{
}

/// The compute plugin's marker.
#[derive(Clone, Copy, PartialEq, Eq, Debug, Structural)]
pub struct ComputePlugin;

impl NativePlugin for ComputePlugin {

}

/// `$jit(f)`: compile a function to a kernel.
pub struct JitOp;

/// `$launch(native, sig, a)`: run a kernel on an argument.
pub struct LaunchOp;

/// `$call(k, a)`: a cross-kernel call.
pub struct CallOp;

/// `$parallel(f)`: lift an index function to a parallel kernel.
pub struct ParallelOp;

/// `$plrun(k, cfg)`: run a parallel kernel over its index range.
pub struct ParLaunchOp;

/// `$range(n)`: the loop index of a parallel invocation.
pub struct RangeOp;

/// `$read(buffer, index)`: read one buffer element.
pub struct ReadOp;

/// `$write(length, index, value)`: a parallel write.
pub struct WriteOp;

/// `$collect(buffer)`: collect a buffer into an array.
pub struct BufferCollectOp;

// ---------------------------------------------------------------------------
// Domain shapes

/// The number of scalar `i64` locals a shape flattens to: a scalar (and any
/// non-tuple shape) is one local, a tuple the sum of its elements'.
pub open spec fn arity(s: Shape) -> nat
    decreases s,
{
    match s {
        Shape::Tuple(items) => arity_sum(items@),
        _ => 1,
    }
}

/// The summed [`arity`] of a sequence of shapes.
pub open spec fn arity_sum(items: Seq<Shape>) -> nat
    decreases items,
{
    if items.len() == 0 {
        0
    } else {
        arity_sum(items.drop_last()) + arity(items.last())
    }
}

/// A prefix of a shape sequence has no larger summed arity.
proof fn lemma_arity_sum_prefix(items: Seq<Shape>, k: int)
    requires
        0 <= k <= items.len(),
    ensures
        arity_sum(items.take(k)) <= arity_sum(items),
        k < items.len() ==> arity_sum(items.take(k)) + arity(items[k]) == arity_sum(
            items.take(k + 1),
        ),
    decreases items.len() - k,
{
    if k < items.len() {
        assert(items.take(k + 1).drop_last() =~= items.take(k));
        lemma_arity_sum_prefix(items, k + 1);
    } else {
        assert(items.take(k) =~= items);
    }
}

/// The number of scalar `i64` locals a domain shape flattens to — the wasm
/// parameter count.
pub fn flat_arity(shape: &Shape) -> (n: usize)
    requires
        arity(*shape) <= usize::MAX,
    ensures
        n == arity(*shape),
    decreases shape,
{
    match shape {
        Shape::Tuple(items) => {
            let mut sum: usize = 0;
            let mut i: usize = 0;
            assert(items@.take(0) =~= Seq::<Shape>::empty());
            assert(decreases_to!(*shape => items@));
            while i < items.len()
                invariant
                    decreases_to!(*shape => items@),
                    i <= items@.len(),
                    arity_sum(items@) <= usize::MAX,
                    sum == arity_sum(items@.take(i as int)),
                decreases items@.len() - i,
            {
                proof {
                    lemma_arity_sum_prefix(items@, i as int);
                    lemma_arity_sum_prefix(items@, i + 1);
                }
                proof {
                    assert(decreases_to!(items@ => items@[i as int]));
                }
                let a = flat_arity(&items[i]);
                sum = sum + a;
                i += 1;
            }
            assert(items@.take(i as int) =~= items@);
            sum
        },
        _ => 1,
    }
}

/// The local offset of the scalar at `path` inside `domain`: a tuple's
/// element `i` starts at the summed arity of the elements before it.  `None`
/// when the path leaves the domain: an index past a tuple's end, or a step
/// into a non-tuple shape.
pub open spec fn path_offset(domain: Shape, path: Seq<usize>) -> Option<nat>
    decreases path.len(),
{
    if path.len() == 0 {
        Some(0)
    } else {
        match domain {
            Shape::Tuple(items) => {
                let i = path[0] as int;
                if i < items@.len() {
                    match path_offset(items@[i], path.drop_first()) {
                        Some(o) => Some(arity_sum(items@.take(i)) + o),
                        None => None,
                    }
                } else {
                    None
                }
            },
            _ => None,
        }
    }
}

/// Why a parameter read at `path` leaves `domain`: the message of its first
/// step out — an index past a tuple's end, or a step into a scalar or
/// another non-tuple shape.
pub open spec fn path_error(domain: Shape, path: Seq<usize>) -> Seq<char>
    decreases path.len(),
{
    if path.len() == 0 {
        Seq::empty()
    } else {
        match domain {
            Shape::Tuple(items) => {
                let i = path[0] as int;
                if i < items@.len() {
                    path_error(items@[i], path.drop_first())
                } else {
                    "parameter index "@ + decimal(path[0] as nat) + " out of bounds"@
                }
            },
            Shape::USize => "index into a scalar parameter"@,
            _ => "unsupported parameter domain shape"@,
        }
    }
}

/// The message of a tuple index past its end.
fn index_out_of_bounds(i: usize) -> (m: String)
    ensures
        m@ == "parameter index "@ + decimal(i as nat) + " out of bounds"@,
{
    decimal_message("parameter index ", i, " out of bounds")
}

/// The flattened local offset of a parameter read at `path` into `domain`.
pub fn flatten_offset(domain: &Shape, path: &[usize]) -> (r: Result<usize, String>)
    requires
        arity(*domain) <= usize::MAX,
    ensures
        match path_offset(*domain, path@) {
            Some(o) => r == Ok::<usize, String>(o as usize),
            None => r matches Err(m) && m@ == path_error(*domain, path@),
        },
{
    let mut offset: usize = 0;
    let mut cur = domain;
    let mut k: usize = 0;
    assert(path@.skip(0) =~= path@);
    while k < path.len()
        invariant
            k <= path@.len(),
            arity(*domain) <= usize::MAX,
            arity(*cur) <= usize::MAX,
            offset + arity(*cur) <= arity(*domain),
            path_offset(*domain, path@) == match path_offset(*cur, path@.skip(k as int)) {
                Some(o) => Some((offset + o) as nat),
                None => None::<nat>,
            },
            path_error(*domain, path@) == path_error(*cur, path@.skip(k as int)),
        decreases path@.len() - k,
    {
        let i = path[k];
        proof {
            assert(path@.skip(k as int).drop_first() =~= path@.skip(k + 1));
            assert(path@.skip(k as int)[0] == i);
        }
        match cur {
            Shape::Tuple(items) => {
                if i >= items.len() {
                    return Err(index_out_of_bounds(i));
                }
                let mut j: usize = 0;
                assert(items@.take(0) =~= Seq::<Shape>::empty());
                let ghost start = offset;
                proof {
                    lemma_arity_sum_prefix(items@, i as int);
                    lemma_arity_sum_prefix(items@, i + 1);
                    lemma_arity_sum_prefix(items@, items@.len() as int);
                }
                while j < i
                    invariant
                        j <= i < items@.len(),
                        arity_sum(items@.take(i + 1)) <= arity_sum(items@),
                        start + arity_sum(items@) <= usize::MAX,
                        offset == start + arity_sum(items@.take(j as int)),
                    decreases i - j,
                {
                    proof {
                        lemma_arity_sum_prefix(items@, j as int);
                        lemma_arity_sum_prefix(items@.take(i + 1), j as int);
                        assert(items@.take(i + 1).take(j as int) =~= items@.take(j as int));
                        assert(items@.take(i + 1).take(j + 1) =~= items@.take(j + 1));
                        lemma_arity_sum_prefix(items@, j + 1);
                        lemma_arity_sum_prefix(items@.take(i + 1), j + 1);
                    }
                    offset = offset + flat_arity(&items[j]);
                    j += 1;
                }
                cur = &items[i];
            },
            Shape::USize => {
                return Err(String::from_str("index into a scalar parameter"));
            },
            _ => {
                return Err(String::from_str("unsupported parameter domain shape"));
            },
        }
        k += 1;
    }
    assert(path@.skip(k as int).len() == 0);
    Ok(offset)
}


// ---------------------------------------------------------------------------
// The runtime: kernel and buffer registries

/// The kernels a process has compiled and the buffers its parallel launches
/// have collected.  A kernel's id is its index in `kernels`, a buffer's its
/// index in `buffers`: ids are handed out densely from 0.
pub struct ComputeRuntime {
    pub kernels: Vec<KernelFragment>,
    pub buffers: Vec<Vec<i64>>,
}

impl ComputeRuntime {
    /// An empty runtime.
    pub fn new() -> (r: ComputeRuntime)
        ensures
            r.kernels@.len() == 0,
            r.buffers@.len() == 0,
    {
        ComputeRuntime { kernels: Vec::new(), buffers: Vec::new() }
    }

    /// Register a compiled kernel under the next id.
    pub fn register_kernel(&mut self, fragment: KernelFragment) -> (id: KernelId)
        ensures
            id == old(self).kernels@.len(),
            final(self).kernels@ == old(self).kernels@.push(fragment),
            final(self).buffers@ == old(self).buffers@,
    {
        let id = self.kernels.len();
        self.kernels.push(fragment);
        id
    }

    /// Register a collected buffer under the next id.
    pub fn register_buffer(&mut self, results: Vec<i64>) -> (id: BufferId)
        ensures
            id == old(self).buffers@.len(),
            final(self).buffers@ == old(self).buffers@.push(results),
            final(self).kernels@ == old(self).kernels@,
    {
        let id = self.buffers.len();
        self.buffers.push(results);
        id
    }

    /// The element results of a buffer, copied out.
    pub fn buffer_results(&self, id: BufferId) -> (r: Option<Vec<i64>>)
        ensures
            match r {
                Some(v) => id < self.buffers@.len() && v@ == self.buffers@[id as int]@,
                None => id >= self.buffers@.len(),
            },
    {
        if id < self.buffers.len() {
            let src = &self.buffers[id];
            let mut out: Vec<i64> = Vec::new();
            let mut i: usize = 0;
            while i < src.len()
                invariant
                    i <= src@.len(),
                    out@ == src@.take(i as int),
                decreases src@.len() - i,
            {
                out.push(src[i]);
                proof {
                    assert(out@ =~= src@.take(i + 1));
                }
                i += 1;
            }
            assert(out@ =~= src@);
            Some(out)
        } else {
            None
        }
    }
}

// ---------------------------------------------------------------------------
// The relative launch set

/// Whether `fragment`'s body cross-calls kernel `k`.
pub open spec fn calls(fragment: KernelFragment, k: KernelId) -> bool {
    exists|i: int| 0 <= i < fragment.body@.len() && fragment.body@[i] == KernelInstr::CallKernel(k)
}

/// Whether `p` is a chain of cross-calls through registered kernels: each
/// kernel but the last is registered and calls the next.
pub open spec fn is_call_path(kernels: Seq<KernelFragment>, p: Seq<KernelId>) -> bool {
    &&& p.len() >= 1
    &&& forall|i: int|
        1 <= i < p.len() ==> (p[i - 1] as int) < kernels.len() && calls(
            kernels[p[i - 1] as int],
            #[trigger] p[i],
        )
}

/// Whether kernel `k` is in the relative launch set of `root`: reached from
/// it by a chain of cross-calls.
pub open spec fn reachable(kernels: Seq<KernelFragment>, root: KernelId, k: KernelId) -> bool {
    exists|p: Seq<KernelId>| is_call_path(kernels, p) && p[0] == root && p.last() == k
}

/// The message of a kernel that is not registered.
pub open spec fn unregistered_text(k: KernelId) -> Seq<char> {
    "kernel "@ + decimal(k as nat) + " is not registered"@
}

/// The message of a cross-kernel callee that is not registered.
pub open spec fn unregistered_callee_text(k: KernelId) -> Seq<char> {
    "cross-kernel callee kernel "@ + decimal(k as nat) + " is not registered"@
}

/// The message of a kernel that is not registered.
fn unregistered_message(k: KernelId) -> (m: String)
    ensures
        m@ == unregistered_text(k),
{
    decimal_message("kernel ", k, " is not registered")
}

/// The message of a cross-kernel callee that is not registered.
fn unregistered_callee_message(k: KernelId) -> (m: String)
    ensures
        m@ == unregistered_callee_text(k),
{
    decimal_message("cross-kernel callee kernel ", k, " is not registered")
}

/// A set closed under the cross-calls of its (registered) members that holds
/// the root holds every kernel reachable from it.
proof fn lemma_closed_holds_reachable(
    kernels: Seq<KernelFragment>,
    order: Seq<KernelId>,
    p: Seq<KernelId>,
    n: int,
)
    requires
        is_call_path(kernels, p),
        order.contains(p[0]),
        forall|j: int, c: KernelId|
            0 <= j < order.len() && #[trigger] calls(kernels[order[j] as int], c) ==> order.contains(c),
        forall|j: int| 0 <= j < order.len() ==> (#[trigger] order[j] as int) < kernels.len(),
        0 <= n < p.len(),
    ensures
        order.contains(p[n]),
    decreases n,
{
    if n > 0 {
        lemma_closed_holds_reachable(kernels, order, p, n - 1);
        let j = choose|j: int| 0 <= j < order.len() && order[j] == p[n - 1];
        assert(calls(kernels[p[n - 1] as int], p[n]));
        assert(calls(kernels[order[j] as int], p[n]));
    }
}

/// A call path extended by one more call.
#[verifier::spinoff_prover]
proof fn lemma_path_push(kernels: Seq<KernelFragment>, p: Seq<KernelId>, c: KernelId)
    requires
        is_call_path(kernels, p),
        (p.last() as int) < kernels.len(),
        calls(kernels[p.last() as int], c),
    ensures
        is_call_path(kernels, p.push(c)),
        p.push(c)[0] == p[0],
        p.push(c).last() == c,
{
    let q = p.push(c);
    assert forall|i: int| 1 <= i < q.len() implies (q[i - 1] as int) < kernels.len() && calls(
        kernels[q[i - 1] as int],
        #[trigger] q[i],
    ) by {
        if i < p.len() {
            assert(q[i - 1] == p[i - 1] && q[i] == p[i]);
        } else {
            assert(q[i - 1] == p.last() && q[i] == c);
        }
    }
}

/// The layout after scanning the instructions `body` of a kernel in order:
/// each cross-called kernel not yet in `order` is appended, and the first
/// such callee that is not registered stops the scan.
pub open spec fn scan_calls(kernels: Seq<KernelFragment>, body: Seq<KernelInstr>, order: Seq<KernelId>) -> Result<
    Seq<KernelId>,
    KernelId,
>
    decreases body.len(),
{
    if body.len() == 0 {
        Ok(order)
    } else {
        match scan_calls(kernels, body.drop_last(), order) {
            Err(c) => Err(c),
            Ok(o) => match body.last() {
                KernelInstr::CallKernel(c) => if o.contains(c) {
                    Ok(o)
                } else if (c as int) >= kernels.len() {
                    Err(c)
                } else {
                    Ok(o.push(c))
                },
                _ => Ok(o),
            },
        }
    }
}

/// Breadth-first layout: the kernels at positions `head`, `head + 1`, … of
/// `order` (at most `steps` of them) are scanned in turn, each appending its
/// new callees.
pub open spec fn bfs_layout(kernels: Seq<KernelFragment>, order: Seq<KernelId>, head: int, steps: nat) -> Result<
    Seq<KernelId>,
    KernelId,
>
    decreases steps,
{
    if steps == 0 || head < 0 || head >= order.len() || (order[head] as int) >= kernels.len() {
        Ok(order)
    } else {
        match scan_calls(kernels, kernels[order[head] as int].body@, order) {
            Err(c) => Err(c),
            Ok(o) => bfs_layout(kernels, o, head + 1, (steps - 1) as nat),
        }
    }
}

/// The breadth-first launch order of kernel `id`: `id`, then the kernels it
/// cross-calls in order of first call, then theirs; or the first callee
/// found that is not registered.
pub open spec fn launch_order(kernels: Seq<KernelFragment>, id: KernelId) -> Result<Seq<KernelId>, KernelId> {
    bfs_layout(kernels, seq![id], 0, kernels.len())
}

/// Once a prefix of a body stops the scan, the whole body stops it there.
proof fn lemma_scan_stops(kernels: Seq<KernelFragment>, body: Seq<KernelInstr>, order: Seq<KernelId>, j: int)
    requires
        0 <= j <= body.len(),
        scan_calls(kernels, body.take(j), order) is Err,
    ensures
        scan_calls(kernels, body, order) == scan_calls(kernels, body.take(j), order),
    decreases body.len() - j,
{
    if j < body.len() {
        assert(body.take(j + 1).drop_last() =~= body.take(j));
        lemma_scan_stops(kernels, body, order, j + 1);
    } else {
        assert(body.take(j) =~= body);
    }
}

impl ComputeRuntime {
    /// The relative launch set of kernel `id` in breadth-first order — the
    /// kernel itself first, then every kernel it transitively cross-calls —
    /// and each kernel's position in that order.  An error when a kernel of
    /// the set is not registered.
    #[verifier::spinoff_prover]
    #[verifier::rlimit(40)]
    pub fn launch_set(&self, id: KernelId) -> (r: Result<(Vec<KernelId>, HashMap<KernelId, u32>), String>)
        ensures
            r is Ok <==> forall|k: KernelId|
                reachable(self.kernels@, id, k) ==> (k as int) < self.kernels@.len(),
            r matches Ok((order, index)) ==> {
                &&& order@.len() >= 1
                &&& order@[0] == id
                &&& order@.no_duplicates()
                &&& forall|k: KernelId| order@.contains(k) <==> reachable(self.kernels@, id, k)
                &&& forall|j: int| 0 <= j < order@.len() ==> (#[trigger] order@[j] as int) < self.kernels@.len()
                &&& index@.dom() == order@.to_set()
                &&& forall|j: int| 0 <= j < order@.len() ==> index@[#[trigger] order@[j]] == j as u32
            },
            (id as int) >= self.kernels@.len() ==> (r matches Err(m) && m@ == unregistered_text(id)),
            (id as int) < self.kernels@.len() ==> match launch_order(self.kernels@, id) {
                Ok(o) => r matches Ok((order, index)) && order@ == o,
                Err(c) => r matches Err(m) && m@ == unregistered_callee_text(c),
            },
            (id as int) < self.kernels@.len() && r is Err ==> exists|c: KernelId|
                reachable(self.kernels@, id, c) && (c as int) >= self.kernels@.len() && (r matches Err(
                    m,
                ) && m@ == unregistered_callee_text(c)),
    {
        broadcast use vstd::std_specs::hash::group_hash_axioms;

        let ghost kernels = self.kernels@;
        let n = self.kernels.len();
        proof {
            let p = seq![id];
            assert(is_call_path(kernels, p));
            assert(p[0] == id && p.last() == id);
            assert(reachable(kernels, id, id));
        }
        if id >= n {
            return Err(unregistered_message(id));
        }
        let mut seen: Vec<bool> = Vec::new();
        let mut i: usize = 0;
        while i < n
            invariant
                i <= n == kernels.len(),
                seen@.len() == i,
                forall|j: int| 0 <= j < i ==> !seen@[j],
            decreases n - i,
        {
            seen.push(false);
            i += 1;
        }
        let mut order: Vec<KernelId> = Vec::new();
        let mut index: HashMap<KernelId, u32> = HashMap::new();
        seen.set(id, true);
        order.push(id);
        proof {
            assert forall|q: int| 0 <= q < n implies (seen@[q] <==> order@.contains(q as KernelId)) by {
                lemma_push_contains(Seq::<KernelId>::empty(), id, q as KernelId);
                assert(order@ =~= Seq::<KernelId>::empty().push(id));
            }
            assert(order@.take(0).to_set() =~= Set::<KernelId>::empty());
        }
        let mut head: usize = 0;
        while head < order.len()
            invariant
                n == kernels.len() == self.kernels@.len(),
                kernels == self.kernels@,
                seen@.len() == n,
                order@.len() >= 1,
                order@[0] == id,
                head <= order@.len() <= n,
                order@.no_duplicates(),
                forall|j: int| 0 <= j < order@.len() ==> (#[trigger] order@[j] as int) < n,
                forall|k: int| 0 <= k < n ==> (seen@[k] <==> order@.contains(k as KernelId)),
                forall|j: int|
                    0 <= j < order@.len() ==> reachable(kernels, id, #[trigger] order@[j]),
                forall|j: int, c: KernelId|
                    0 <= j < head && #[trigger] calls(kernels[order@[j] as int], c) ==> order@.contains(c),
                index@.dom() == order@.take(head as int).to_set(),
                forall|j: int| 0 <= j < head ==> index@[#[trigger] order@[j]] == j as u32,
                (id as int) < n,
                bfs_layout(kernels, order@, head as int, (n - head) as nat) == launch_order(kernels, id),
            decreases n - head, n - order@.len(),
        {
            let ghost start = order@;
            let k = order[head];
            proof {
                assert(order@.take(head + 1) =~= order@.take(head as int).push(k));
                lemma_push_to_set(order@.take(head as int), k);
                assert(!order@.take(head as int).contains(k)) by {
                    if order@.take(head as int).contains(k) {
                        let j = choose|j: int| 0 <= j < head && order@.take(head as int)[j] == k;
                        assert(order@[j] == order@[head as int]);
                    }
                }
            }
            index.insert(k, head as u32);
            proof {
                assert forall|j: int| 0 <= j <= head implies index@[#[trigger] order@[j]] == j as u32 by {
                    if j < head {
                        assert(order@[j] != k);
                    }
                }
            }
            let frag = &self.kernels[k];
            let mut b: usize = 0;
            assert(frag.body@.take(0) =~= Seq::<KernelInstr>::empty());
            while b < frag.body.len()
                invariant
                    n == kernels.len() == self.kernels@.len(),
                    kernels == self.kernels@,
                    *frag == kernels[k as int],
                    (k as int) < n,
                    head < start.len(),
                    start[head as int] == k,
                    bfs_layout(kernels, start, head as int, (n - head) as nat) == launch_order(kernels, id),
                    scan_calls(kernels, frag.body@.take(b as int), start) == Ok::<Seq<KernelId>, KernelId>(order@),
                    seen@.len() == n,
                    order@.len() >= 1,
                    order@[0] == id,
                    head < order@.len() <= n,
                    order@[head as int] == k,
                    b <= frag.body@.len(),
                    order@.no_duplicates(),
                    forall|j: int| 0 <= j < order@.len() ==> (#[trigger] order@[j] as int) < n,
                    forall|q: int| 0 <= q < n ==> (seen@[q] <==> order@.contains(q as KernelId)),
                    forall|j: int|
                        0 <= j < order@.len() ==> reachable(kernels, id, #[trigger] order@[j]),
                    forall|j: int, c: KernelId|
                        0 <= j < head && #[trigger] calls(kernels[order@[j] as int], c) ==> order@.contains(c),
                    forall|x: int|
                        0 <= x < b && (#[trigger] frag.body@[x]) is CallKernel ==> order@.contains(
                            frag.body@[x]->CallKernel_0,
                        ),
                    index@.dom() == order@.take(head + 1).to_set(),
                    forall|j: int| 0 <= j <= head ==> index@[#[trigger] order@[j]] == j as u32,
                decreases frag.body@.len() - b,
            {
                proof {
                    assert(frag.body@.take(b + 1).drop_last() =~= frag.body@.take(b as int));
                    assert(frag.body@.take(b + 1).last() == frag.body@[b as int]);
                }
                if let KernelInstr::CallKernel(kid) = frag.body[b] {
                    proof {
                        let pk = choose|p: Seq<KernelId>|
                            is_call_path(kernels, p) && p[0] == id && p.last() == k;
                        assert(calls(kernels[k as int], kid));
                        lemma_path_push(kernels, pk, kid);
                        assert(reachable(kernels, id, kid));
                    }
                    if kid >= n {
                        proof {
                            assert(!order@.contains(kid)) by {
                                if order@.contains(kid) {
                                    let j = choose|j: int| 0 <= j < order@.len() && order@[j] == kid;
                                }
                            }
                            lemma_scan_stops(kernels, frag.body@, start, b + 1);
                        }
                        return Err(unregistered_callee_message(kid));
                    }
                    if !seen[kid] {
                        proof {
                            if order@.len() == n {
                                // every registered kernel is already in order
                                lemma_distinct_below(order@, n as int);
                                assert(order@.contains(kid));
                                assert(seen@[kid as int]);
                            }
                        }
                        let ghost before = order@;
                        seen.set(kid, true);
                        order.push(kid);
                        proof {
                            assert forall|q: int| 0 <= q < n implies (seen@[q] <==> order@.contains(
                                q as KernelId,
                            )) by {
                                lemma_push_contains(before, kid, q as KernelId);
                            }
                            assert forall|c: KernelId| before.contains(c) implies #[trigger] order@.contains(c) by {
                                lemma_push_contains(before, kid, c);
                            }
                            assert(order@.take(head + 1) =~= before.take(head + 1));
                        }
                    }
                }
                proof {
                    assert forall|x: int|
                        0 <= x < b + 1 && (#[trigger] frag.body@[x]) is CallKernel implies order@.contains(
                            frag.body@[x]->CallKernel_0,
                        ) by {
                        if x == b {
                            assert(seen@[frag.body@[x]->CallKernel_0 as int]);
                        }
                    }
                }
                b += 1;
            }
            proof {
                assert(frag.body@.take(b as int) =~= frag.body@);
                assert forall|j: int, c: KernelId|
                    0 <= j < head + 1 && #[trigger] calls(kernels[order@[j] as int], c) implies order@.contains(c) by {
                    if j == head {
                        let x = choose|x: int|
                            0 <= x < frag.body@.len() && frag.body@[x] == KernelInstr::CallKernel(c);
                        assert(frag.body@[x] is CallKernel);
                    }
                }
            }
            head += 1;
        }
        proof {
            assert(order@.take(head as int) =~= order@);
            assert(bfs_layout(kernels, order@, head as int, (n - head) as nat) == Ok::<Seq<KernelId>, KernelId>(order@));
            assert forall|k: KernelId| order@.contains(k) <==> reachable(kernels, id, k) by {
                if reachable(kernels, id, k) {
                    let p = choose|p: Seq<KernelId>| is_call_path(kernels, p) && p[0] == id && p.last() == k;
                    assert(order@[0] == id);
                    lemma_closed_holds_reachable(kernels, order@, p, p.len() - 1);
                }
                if order@.contains(k) {
                    let j = choose|j: int| 0 <= j < order@.len() && order@[j] == k;
                }
            }
            assert forall|k: KernelId| reachable(kernels, id, k) implies (k as int) < kernels.len() by {
                assert(order@.contains(k));
                let j = choose|j: int| 0 <= j < order@.len() && order@[j] == k;
            }
        }
        Ok((order, index))
    }
}

/// A duplicate-free sequence of `n` naturals below `n` holds each of them.
proof fn lemma_distinct_below(s: Seq<KernelId>, n: int)
    requires
        s.no_duplicates(),
        s.len() == n,
        n <= usize::MAX,
        forall|j: int| 0 <= j < s.len() ==> (#[trigger] s[j] as int) < n,
    ensures
        forall|k: KernelId| (k as int) < n ==> #[trigger] s.contains(k),
{
    let range = Set::new(|k: KernelId| (k as int) < n);
    <usize as vstd::set_lib::FiniteRange>::range_properties(0usize, n as usize);
    assert(range =~= <usize as vstd::set_lib::FiniteRange>::range_set(0usize, n as usize));
    s.unique_seq_to_set();
    assert(s.to_set().subset_of(range));
    vstd::set_lib::lemma_len_subset(s.to_set(), range);
    vstd::set_lib::lemma_subset_equality(s.to_set(), range);
    assert forall|k: KernelId| (k as int) < n implies #[trigger] s.contains(k) by {
        assert(range.contains(k));
        assert(s.to_set().contains(k));
    }
}


/// What a sequence holds after one more element.
proof fn lemma_push_contains(s: Seq<KernelId>, x: KernelId, a: KernelId)
    ensures
        s.push(x).contains(a) <==> (s.contains(a) || a == x),
{
    if s.contains(a) {
        let j = choose|j: int| 0 <= j < s.len() && s[j] == a;
        assert(s.push(x)[j] == a);
    }
    if a == x {
        assert(s.push(x)[s.len() as int] == x);
    }
    if s.push(x).contains(a) && a != x {
        let j = choose|j: int| 0 <= j < s.len() + 1 && s.push(x)[j] == a;
        assert(j < s.len());
        assert(s[j] == a);
    }
}

/// The set of a sequence with one more element.
proof fn lemma_push_to_set(s: Seq<KernelId>, x: KernelId)
    ensures
        s.push(x).to_set() == s.to_set().insert(x),
{
    assert forall|a: KernelId| s.push(x).to_set().contains(a) <==> s.to_set().insert(x).contains(a) by {
        lemma_push_contains(s, x, a);
    }
    assert(s.push(x).to_set() =~= s.to_set().insert(x));
}


} // verus!
