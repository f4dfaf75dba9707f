//! Launching kernels: assembling a kernel's launch set and running it, and
//! the runtime's buffer operations.

use vstd::prelude::*;

use std::collections::HashMap;

use crate::assemble::{
    assemble_module, code_fits, head_fits, lowered, missing_callee, missing_callee_text,
    module_plan, module_too_large, picked, plan_base,
};
use crate::render::{decimal, decimal_message};
use crate::compute::{
    arity, calls, launch_order, reachable, unregistered_callee_text, unregistered_text, BufferId, ComputeOperator, ComputeRuntime, ComputeValue,
    KernelFragment, KernelId, KernelInstr,
};
use crate::encode::wasm_binary;
use crate::vm::{
    kernel_module, main_call, main_setup, parallel_host, parallel_setup, parallel_steps, run_main,
    run_parallel,
};

verus! {

/// Whether every registered kernel's parameter count is a `usize`.  A shape
/// has no more scalars than nodes, so every shape held in memory meets it.
pub open spec fn arities_fit(kernels: Seq<KernelFragment>) -> bool {
    forall|k: int| 0 <= k < kernels.len() ==> arity((#[trigger] kernels[k]).param_shape) <= usize::MAX
}

/// What `run_kernel` gives for a launch set laid out as `order`/`index`: the
/// `i64` result of the assembled module's `main` (as a `usize`), or why not.
pub open spec fn kernel_result(
    kernels: Seq<KernelFragment>,
    order: Seq<KernelId>,
    index: Map<KernelId, u32>,
    args: Seq<i64>,
) -> Result<usize, Seq<char>> {
    let frags = picked(kernels, order);
    let code = wasm_binary(module_plan(frags, index));
    if !(head_fits(frags) && code_fits(frags, index)) {
        Err(module_too_large())
    } else {
        match main_setup(code, "main"@) {
        Err(e) => Err(e),
        Ok(false) => Err("kernel has no export `main`"@),
        Ok(true) => match main_call(code, "main"@, args) {
            Err(e) => Err(e),
            Ok(None) => Err("kernel `main` returned a non-i64"@),
            Ok(Some(v)) => Ok(v as usize),
        },
        }
    }
}

/// Whether `order`/`index` lay out the launch set of `id`: `id` first, each
/// kernel of the set once, each at its position.
pub open spec fn launch_layout(
    kernels: Seq<KernelFragment>,
    id: KernelId,
    order: Seq<KernelId>,
    index: Map<KernelId, u32>,
) -> bool {
    &&& order.len() >= 1
    &&& order[0] == id
    &&& order.no_duplicates()
    &&& forall|k: KernelId| order.contains(k) <==> reachable(kernels, id, k)
    &&& forall|j: int| 0 <= j < order.len() ==> (#[trigger] order[j] as int) < kernels.len()
    &&& index.dom() == order.to_set()
    &&& forall|j: int| 0 <= j < order.len() ==> index[#[trigger] order[j]] == j as u32
}

/// The output buffer of running parallel kernel `id` over `[0, count)`
/// against input buffers `inputs` and a zeroed output buffer, or `None` when
/// the kernel is not registered, does not assemble (a call to another
/// kernel, or a module too large for the encoder), does not instantiate or
/// has no `main`, or a call fails.
pub open spec fn parallel_result(
    kernels: Seq<KernelFragment>,
    id: KernelId,
    count: usize,
    inputs: Seq<Seq<i64>>,
) -> Option<Seq<i64>> {
    if (id as int) >= kernels.len() || !lowered(
        kernels[id as int].body@,
        map![id => 0u32],
        plan_base(seq![kernels[id as int]]),
    ).1 {
        None
    } else if !(head_fits(seq![kernels[id as int]]) && code_fits(seq![kernels[id as int]], map![id => 0u32])) {
        None
    } else {
        let code = wasm_binary(module_plan(seq![kernels[id as int]], map![id => 0u32]));
        match parallel_setup(code, "main"@, parallel_host(), inputs, Seq::new(count as nat, |i: int| 0i64)) {
            Ok(Some(started)) => match parallel_steps(code, parallel_host(), inputs, started, count, 0) {
                Ok(out) => Some(out),
                Err(_) => None,
            },
            _ => None,
        }
    }
}

/// The message of a parallel kernel that is not registered.
pub open spec fn unregistered_parallel_text(id: KernelId) -> Seq<char> {
    "parallel kernel "@ + decimal(id as nat) + " is not registered"@
}

/// The message of a parallel kernel that is not registered.
fn unregistered_parallel_message(id: KernelId) -> (m: String)
    ensures
        m@ == unregistered_parallel_text(id),
{
    decimal_message("parallel kernel ", id, " is not registered")
}

/// The lowering of every kernel of a launch layout succeeds: each callee is
/// in the set, so `index` places it.
proof fn lemma_layout_lowers(
    kernels: Seq<KernelFragment>,
    id: KernelId,
    order: Seq<KernelId>,
    index: Map<KernelId, u32>,
    j: int,
    k: int,
)
    requires
        launch_layout(kernels, id, order, index),
        0 <= j < order.len(),
        0 <= k <= kernels[order[j] as int].body@.len(),
    ensures
        lowered(
            kernels[order[j] as int].body@.take(k),
            index,
            plan_base(picked(kernels, order)),
        ).1,
    decreases k,
{
    let body = kernels[order[j] as int].body@;
    let base = plan_base(picked(kernels, order));
    if k > 0 {
        lemma_layout_lowers(kernels, id, order, index, j, k - 1);
        assert(body.take(k).drop_last() =~= body.take(k - 1));
        assert(body.take(k).last() == body[k - 1]);
        if let KernelInstr::CallKernel(c) = body[k - 1] {
            assert(calls(kernels[order[j] as int], c));
            let p = choose|p: Seq<KernelId>|
                crate::compute::is_call_path(kernels, p) && p[0] == id && p.last() == order[j];
            assert(reachable(kernels, id, order[j])) by {
                assert(order.contains(order[j]));
            }
            let p = choose|p: Seq<KernelId>|
                crate::compute::is_call_path(kernels, p) && p[0] == id && p.last() == order[j];
            let q = p.push(c);
            assert forall|i: int| 1 <= i < q.len() implies (q[i - 1] as int) < kernels.len()
                && calls(kernels[q[i - 1] as int], #[trigger] q[i]) by {
                if i < p.len() {
                    assert(q[i - 1] == p[i - 1] && q[i] == p[i]);
                } else {
                    assert(q[i - 1] == p.last() && q[i] == c);
                }
            }
            assert(reachable(kernels, id, c)) by {
                assert(q[0] == id && q.last() == c);
            }
            assert(order.contains(c));
            assert(order.to_set().contains(c));
        }
    }
}

/// Each kernel of a layout at its position in it.
pub open spec fn layout_index(order: Seq<KernelId>) -> Map<KernelId, u32> {
    Map::new(|k: KernelId| order.contains(k), |k: KernelId| order.index_of(k) as u32)
}

impl ComputeRuntime {
    /// Run kernel `id` on the `i64` arguments `args`: gather its launch set,
    /// assemble the set into one module (the kernel itself as `main`) and
    /// run `main`, for a `usize` result.
    pub fn run_kernel(&self, id: KernelId, args: &[i64]) -> (r: Result<usize, String>)
        requires
            arities_fit(self.kernels@),
        ensures
            !(forall|k: KernelId| reachable(self.kernels@, id, k) ==> (k as int) < self.kernels@.len())
                ==> r is Err,
            (id as int) >= self.kernels@.len() ==> (r matches Err(m) && m@ == unregistered_text(id)),
            (id as int) < self.kernels@.len() && !(forall|k: KernelId|
                reachable(self.kernels@, id, k) ==> (k as int) < self.kernels@.len()) ==> exists|c: KernelId|
                reachable(self.kernels@, id, c) && (c as int) >= self.kernels@.len() && (r matches Err(
                    m,
                ) && m@ == unregistered_callee_text(c)),
            (forall|k: KernelId| reachable(self.kernels@, id, k) ==> (k as int) < self.kernels@.len())
                ==> exists|order: Seq<KernelId>, index: Map<KernelId, u32>|
                launch_layout(self.kernels@, id, order, index) && match kernel_result(
                    self.kernels@,
                    order,
                    index,
                    args@,
                ) {
                    Ok(v) => r == Ok::<usize, String>(v),
                    Err(e) => r matches Err(m) && m@ == e,
                },
            (id as int) < self.kernels@.len() ==> match launch_order(self.kernels@, id) {
                Ok(o) => match kernel_result(self.kernels@, o, layout_index(o), args@) {
                    Ok(v) => r == Ok::<usize, String>(v),
                    Err(e) => r matches Err(m) && m@ == e,
                },
                Err(c) => r matches Err(m) && m@ == unregistered_callee_text(c),
            },
    {
        broadcast use vstd::std_specs::hash::group_hash_axioms;

        let (order, index) = match self.launch_set(id) {
            Ok(set) => set,
            Err(e) => {
                return Err(e);
            },
        };
        let ghost kernels = self.kernels@;
        proof {
            assert(index@ =~= layout_index(order@)) by {
                assert forall|k: KernelId| #[trigger] index@.contains_key(k) implies index@[k]
                    == order@.index_of(k) as u32 by {
                    assert(order@.to_set().contains(k));
                    let j = choose|j: int| 0 <= j < order@.len() && order@[j] == k;
                    let i = order@.index_of(k);
                    assert(order@.contains(k));
                    assert(0 <= i < order@.len() && order@[i] == k);
                }
                assert forall|k: KernelId| #[trigger] layout_index(order@).contains_key(k) <==> index@.contains_key(k) by {
                    assert(order@.to_set().contains(k) <==> order@.contains(k));
                }
            }
        }
        if order.len() > 858993458 {
            proof {
                assert(launch_layout(kernels, id, order@, index@));
                assert(!head_fits(picked(kernels, order@)));
            }
            return Err(String::from_str("kernel module exceeds the wasm section size limit"));
        }
        proof {
            assert(launch_layout(kernels, id, order@, index@));
            assert forall|k: KernelId| #[trigger] index@.contains_key(k) implies index@[k] <= u32::MAX - 2 by {
                assert(order@.to_set().contains(k));
                let j = choose|j: int| 0 <= j < order@.len() && order@[j] == k;
            }
            assert forall|i: int|
                0 <= i < order@.len() implies lowered(
                #[trigger] picked(kernels, order@)[i].body@,
                index@,
                plan_base(picked(kernels, order@)),
            ).1 by {
                let body = kernels[order@[i] as int].body@;
                lemma_layout_lowers(kernels, id, order@, index@, i, body.len() as int);
                assert(body.take(body.len() as int) =~= body);
            }
        }
        let bytes = match assemble_module(&self.kernels, &order, &index) {
            Ok(b) => b,
            Err(e) => {
                return Err(e);
            },
        };
        proof {
            reveal_strlit("main");
            assert(kernel_module(bytes@));
        }
        match run_main(&bytes, "main", args) {
            Err(e) => Err(e),
            Ok(None) => Err(String::from_str("kernel has no export `main`")),
            Ok(Some(None)) => Err(String::from_str("kernel `main` returned a non-i64")),
            Ok(Some(Some(v))) => Ok(v as usize),
        }
    }
}

/// The value a buffer element reads as: its `i64` bits as a `usize`.
pub open spec fn element_value(v: i64) -> usize {
    v as usize
}

impl ComputeRuntime {
    /// Run parallel kernel `id` once per index of `[0, count)` with
    /// `(count, index)`, against the input buffers `inputs` and a zeroed
    /// output buffer of `count` elements, for the output buffer.
    pub fn run_parallel_kernel(&self, id: KernelId, count: usize, inputs: Vec<Vec<i64>>) -> (r: Result<
        Vec<i64>,
        String,
    >)
        requires
            arities_fit(self.kernels@),
        ensures
            match parallel_result(self.kernels@, id, count, inputs@.map_values(|b: Vec<i64>| b@)) {
                Some(out) => r matches Ok(v) && v@ == out,
                None => r is Err,
            },
            (id as int) >= self.kernels@.len() ==> (r matches Err(m) && m@ == unregistered_parallel_text(id)),
            (id as int) < self.kernels@.len() && !lowered(
                self.kernels@[id as int].body@,
                map![id => 0u32],
                plan_base(seq![self.kernels@[id as int]]),
            ).1 ==> (r matches Err(m) && m@ == if head_fits(seq![self.kernels@[id as int]]) {
                missing_callee_text(
                    missing_callee(
                        self.kernels@[id as int].body@,
                        map![id => 0u32],
                        plan_base(seq![self.kernels@[id as int]]),
                    ),
                )
            } else {
                module_too_large()
            }),
            (id as int) < self.kernels@.len() && lowered(
                self.kernels@[id as int].body@,
                map![id => 0u32],
                plan_base(seq![self.kernels@[id as int]]),
            ).1 && !(head_fits(seq![self.kernels@[id as int]]) && code_fits(
                seq![self.kernels@[id as int]],
                map![id => 0u32],
            )) ==> (r matches Err(m) && m@ == module_too_large()),
            (id as int) < self.kernels@.len() && lowered(
                self.kernels@[id as int].body@,
                map![id => 0u32],
                plan_base(seq![self.kernels@[id as int]]),
            ).1 && head_fits(seq![self.kernels@[id as int]]) && code_fits(
                seq![self.kernels@[id as int]],
                map![id => 0u32],
            ) ==> {
                let code = wasm_binary(module_plan(seq![self.kernels@[id as int]], map![id => 0u32]));
                let inputs_view = inputs@.map_values(|b: Vec<i64>| b@);
                match parallel_setup(
                    code,
                    "main"@,
                    parallel_host(),
                    inputs_view,
                    Seq::new(count as nat, |i: int| 0i64),
                ) {
                    Err(e) => r matches Err(m) && m@ == e,
                    Ok(None) => r matches Err(m) && m@ == "parallel kernel has no export `main`"@,
                    Ok(Some(started)) => match parallel_steps(
                        code,
                        parallel_host(),
                        inputs_view,
                        started,
                        count,
                        0,
                    ) {
                        Ok(out) => r matches Ok(v) && v@ == out,
                        Err(e) => r matches Err(m) && m@ == e,
                    },
                }
            },
    {
        broadcast use vstd::std_specs::hash::group_hash_axioms;

        if id >= self.kernels.len() {
            return Err(unregistered_parallel_message(id));
        }
        let order: Vec<KernelId> = vec![id];
        let mut index: HashMap<KernelId, u32> = HashMap::new();
        index.insert(id, 0);
        proof {
            assert(index@ =~= map![id => 0u32]);
            assert(picked(self.kernels@, order@) =~= seq![self.kernels@[id as int]]);
            assert(lowered(
                picked(self.kernels@, order@)[0].body@,
                index@,
                plan_base(picked(self.kernels@, order@)),
            ) == lowered(
                self.kernels@[id as int].body@,
                map![id => 0u32],
                plan_base(seq![self.kernels@[id as int]]),
            ));
        }
        let bytes = match assemble_module(&self.kernels, &order, &index) {
            Ok(b) => b,
            Err(e) => {
                proof {
                    let frags = picked(self.kernels@, order@);
                    if !lowered(frags[0].body@, index@, plan_base(frags)).1 {
                        assert(crate::assemble::first_unlowered(frags, index@, 0));
                    }
                }
                return Err(e);
            },
        };
        let mut output: Vec<i64> = Vec::new();
        let mut i: usize = 0;
        while i < count
            invariant
                i <= count,
                output@ == Seq::new(i as nat, |q: int| 0i64),
            decreases count - i,
        {
            output.push(0);
            proof {
                assert(output@ =~= Seq::new((i + 1) as nat, |q: int| 0i64));
            }
            i += 1;
        }
        proof {
            reveal_strlit("main");
            assert(kernel_module(bytes@));
        }
        match run_parallel(&bytes, inputs, output, count) {
            Err(e) => Err(e),
            Ok(None) => Err(String::from_str("parallel kernel has no export `main`")),
            Ok(Some(out)) => Ok(out),
        }
    }

    /// Run parallel kernel `id` over `[0, count)` against the buffers
    /// `buffer_ids` and register the output as a new buffer.  `None` when a
    /// buffer is not registered or the run fails.
    pub fn par_launch(&mut self, id: KernelId, count: usize, buffer_ids: &[BufferId]) -> (r: Option<BufferId>)
        requires
            arities_fit(old(self).kernels@),
        ensures
            final(self).kernels@ == old(self).kernels@,
            (exists|j: int|
                0 <= j < buffer_ids@.len() && (#[trigger] buffer_ids@[j] as int) >= old(self).buffers@.len())
                ==> r is None && final(self).buffers@ == old(self).buffers@,
            match r {
                Some(b) => b == old(self).buffers@.len() && final(self).buffers@.len() == b + 1
                    && final(self).buffers@.take(b as int) == old(self).buffers@,
                None => final(self).buffers@ == old(self).buffers@,
            },
            (forall|j: int|
                0 <= j < buffer_ids@.len() ==> (#[trigger] buffer_ids@[j] as int) < old(self).buffers@.len())
                ==> match parallel_result(
                old(self).kernels@,
                id,
                count,
                Seq::new(buffer_ids@.len(), |j: int| old(self).buffers@[buffer_ids@[j] as int]@),
            ) {
                Some(out) => r == Some(old(self).buffers@.len() as usize) && final(self).buffers@.last()@ == out,
                None => r is None,
            },
    {
        let mut inputs: Vec<Vec<i64>> = Vec::new();
        let mut j: usize = 0;
        while j < buffer_ids.len()
            invariant
                j <= buffer_ids@.len(),
                inputs@.len() == j,
                forall|q: int| 0 <= q < j ==> (#[trigger] buffer_ids@[q] as int) < self.buffers@.len(),
                forall|q: int| 0 <= q < j ==> (#[trigger] inputs@[q])@ == self.buffers@[buffer_ids@[q] as int]@,
            decreases buffer_ids@.len() - j,
        {
            match self.buffer_results(buffer_ids[j]) {
                Some(data) => {
                    inputs.push(data);
                },
                None => {
                    return None;
                },
            }
            j += 1;
        }
        proof {
            assert(inputs@.map_values(|b: Vec<i64>| b@) =~= Seq::new(
                buffer_ids@.len(),
                |q: int| self.buffers@[buffer_ids@[q] as int]@,
            ));
        }
        match self.run_parallel_kernel(id, count, inputs) {
            Ok(results) => {
                let b = self.register_buffer(results);
                proof {
                    assert(self.buffers@.take(b as int) =~= old(self).buffers@);
                }
                Some(b)
            },
            Err(_) => None,
        }
    }

    /// Element `index` of buffer `id`, as a `usize`.
    pub fn read_buffer(&self, id: BufferId, index: usize) -> (r: Option<usize>)
        ensures
            r == (if (id as int) < self.buffers@.len() && (index as int) < self.buffers@[id as int]@.len() {
                Some(element_value(self.buffers@[id as int]@[index as int]))
            } else {
                None::<usize>
            }),
    {
        if id < self.buffers.len() && index < self.buffers[id].len() {
            Some(self.buffers[id][index] as usize)
        } else {
            None
        }
    }

    /// Every element of buffer `id`, as `usize`s.
    pub fn collect_buffer(&self, id: BufferId) -> (r: Option<Vec<usize>>)
        ensures
            match r {
                Some(v) => (id as int) < self.buffers@.len() && v@ == self.buffers@[id as int]@.map_values(
                    |x: i64| element_value(x),
                ),
                None => (id as int) >= self.buffers@.len(),
            },
    {
        match self.buffer_results(id) {
            None => None,
            Some(results) => {
                let mut out: Vec<usize> = Vec::new();
                let mut i: usize = 0;
                while i < results.len()
                    invariant
                        i <= results@.len(),
                        out@ == results@.take(i as int).map_values(|x: i64| element_value(x)),
                    decreases results@.len() - i,
                {
                    out.push(results[i] as usize);
                    proof {
                        assert(out@ =~= results@.take(i + 1).map_values(|x: i64| element_value(x)));
                    }
                    i += 1;
                }
                assert(results@.take(i as int) =~= results@);
                Some(out)
            },
        }
    }
}


/// Whether a shape flattens to at most `bound` locals, without summing past
/// the bound.
pub fn arity_within(shape: &crate::compute::Shape, bound: usize) -> (r: bool)
    ensures
        r == (arity(*shape) <= bound),
    decreases shape,
{
    match shape {
        crate::compute::Shape::Tuple(items) => {
            let mut sum: usize = 0;
            let mut i: usize = 0;
            assert(items@.take(0) =~= Seq::<crate::compute::Shape>::empty());
            assert(decreases_to!(*shape => items@));
            while i < items.len()
                invariant
                    decreases_to!(*shape => items@),
                    arity(*shape) == crate::compute::arity_sum(items@),
                    i <= items@.len(),
                    sum <= bound,
                    sum == crate::compute::arity_sum(items@.take(i as int)),
                decreases items@.len() - i,
            {
                proof {
                    assert(decreases_to!(items@ => items@[i as int]));
                    assert(items@.take(i + 1).drop_last() =~= items@.take(i as int));
                    assert(items@.take(i + 1).last() == items@[i as int]);
                    lemma_arity_sum_grows(items@, i as int);
                }
                if !arity_within(&items[i], bound - sum) {
                    proof {
                        lemma_arity_sum_grows(items@, i + 1);
                    }
                    return false;
                }
                let a = crate::compute::flat_arity(&items[i]);
                sum = sum + a;
                i += 1;
            }
            assert(items@.take(i as int) =~= items@);
            true
        },
        _ => 1 <= bound,
    }
}

/// A longer prefix of shapes has no smaller summed arity.
proof fn lemma_arity_sum_grows(items: Seq<crate::compute::Shape>, k: int)
    requires
        0 <= k <= items.len(),
    ensures
        crate::compute::arity_sum(items.take(k)) <= crate::compute::arity_sum(items),
    decreases items.len() - k,
{
    if k < items.len() {
        assert(items.take(k + 1).drop_last() =~= items.take(k));
        lemma_arity_sum_grows(items, k + 1);
    } else {
        assert(items.take(k) =~= items);
    }
}

impl ComputeRuntime {
    /// Whether every registered kernel's parameter count is a `usize`
    /// ([`arities_fit`]).
    pub fn fits(&self) -> (r: bool)
        ensures
            r == arities_fit(self.kernels@),
    {
        let mut k: usize = 0;
        while k < self.kernels.len()
            invariant
                k <= self.kernels@.len(),
                forall|q: int| 0 <= q < k ==> arity((#[trigger] self.kernels@[q]).param_shape) <= usize::MAX,
            decreases self.kernels@.len() - k,
        {
            if !arity_within(&self.kernels[k].param_shape, usize::MAX) {
                return false;
            }
            k += 1;
        }
        true
    }
}


// ---------------------------------------------------------------------------
// The operators' dispatch

/// What a compute operator's operand holds, as read off the VM's operand
/// value.
pub enum Operand {
    /// The operand is still lazy.
    Parameterized,
    /// `jit`/`parallel`: the function compiled to a fragment, or `None` when
    /// the function is outside the kernel-safe subset (or no function).
    Compiled(Option<KernelFragment>),
    /// `launch`/`call`: the kernel when the first operand is a kernel value,
    /// and the flattened scalar arguments when every leaf is a scalar.
    KernelArgs(Option<KernelId>, Option<Vec<i64>>),
    /// `plrun`: the parallel kernel, the count `cfg(0)`, and the input
    /// buffers of `cfg(1)` (`None` when one of them is not a buffer).
    ParLaunchArgs(Option<KernelId>, Option<usize>, Option<Vec<BufferId>>),
    /// `read`: the buffer and the index.
    BufferIndex(Option<BufferId>, Option<usize>),
    /// `collect`: the buffer.
    Buffer(Option<BufferId>),
}

/// What a compute operator yields.
#[derive(Debug, PartialEq)]
pub enum Outcome {
    /// The result stays lazy (a failure the definition pass reports).
    Parameterized,
    /// A compute value: a kernel, parallel kernel or buffer handle.
    Value(ComputeValue),
    /// A scalar.
    USize(usize),
    /// An array of scalars.
    Array(Vec<usize>),
}

/// What a `launch`/`call` yields: the scalar result of the assembled
/// breadth-first launch set of `id` on `args`, lazy when that run fails, when
/// a kernel of the set is not registered, or when a registered kernel's
/// parameter count is not a `usize`.
pub open spec fn launched(kernels: Seq<KernelFragment>, id: KernelId, args: Seq<i64>, r: Outcome) -> bool {
    if arities_fit(kernels) && (id as int) < kernels.len() {
        match launch_order(kernels, id) {
            Ok(o) => match kernel_result(kernels, o, layout_index(o), args) {
                Ok(v) => r == Outcome::USize(v),
                Err(_) => r is Parameterized,
            },
            Err(_) => r is Parameterized,
        }
    } else {
        r is Parameterized
    }
}

impl ComputeRuntime {
    /// `launch`/`call`: run kernel `id` on `args`, lazy on any failure.
    fn launch(&self, id: KernelId, args: &Vec<i64>) -> (r: Outcome)
        ensures
            launched(self.kernels@, id, args@, r),
    {
        if !self.fits() {
            return Outcome::Parameterized;
        }
        match self.run_kernel(id, args) {
            Ok(v) => Outcome::USize(v),
            Err(_) => Outcome::Parameterized,
        }
    }
}

impl ComputeRuntime {
    /// Run a compute operator on its operand: compile-and-register for
    /// `jit`/`parallel`, run for `launch`/`call`/`plrun`, read or collect a
    /// buffer for `read`/`collect`.  Every failure keeps the result lazy; the
    /// kernel-only `range`/`write` are always lazy at the VM.  A launch stays
    /// lazy too when a registered kernel's parameter count is not a `usize`
    /// ([`arities_fit`]).
    pub fn run_operator(&mut self, op: ComputeOperator, operand: Operand) -> (r: Outcome)
        ensures
            match (op, operand) {
                (ComputeOperator::Jit, Operand::Compiled(Some(f))) => r == Outcome::Value(
                    ComputeValue::Kernel(old(self).kernels@.len() as usize),
                ) && final(self).kernels@ == old(self).kernels@.push(f) && final(self).buffers@
                    == old(self).buffers@,
                (ComputeOperator::Parallel, Operand::Compiled(Some(f))) => r == Outcome::Value(
                    ComputeValue::ParKernel(old(self).kernels@.len() as usize),
                ) && final(self).kernels@ == old(self).kernels@.push(f) && final(self).buffers@
                    == old(self).buffers@,
                (ComputeOperator::Launch, Operand::KernelArgs(Some(id), Some(args))) => {
                    &&& final(self).kernels@ == old(self).kernels@
                    &&& final(self).buffers@ == old(self).buffers@
                    &&& launched(old(self).kernels@, id, args@, r)
                },
                (ComputeOperator::Call, Operand::KernelArgs(Some(id), Some(args))) => {
                    &&& final(self).kernels@ == old(self).kernels@
                    &&& final(self).buffers@ == old(self).buffers@
                    &&& launched(old(self).kernels@, id, args@, r)
                },
                (ComputeOperator::ParLaunch, Operand::ParLaunchArgs(Some(id), Some(count), Some(bs))) => {
                    &&& final(self).kernels@ == old(self).kernels@
                    &&& (r is Parameterized || r is Value)
                    &&& (arities_fit(old(self).kernels@) && forall|j: int|
                        0 <= j < bs@.len() ==> (#[trigger] bs@[j] as int) < old(self).buffers@.len())
                        ==> match parallel_result(
                        old(self).kernels@,
                        id,
                        count,
                        Seq::new(bs@.len(), |j: int| old(self).buffers@[bs@[j] as int]@),
                    ) {
                        Some(out) => r == Outcome::Value(ComputeValue::Buffer(old(self).buffers@.len() as usize))
                            && final(self).buffers@.last()@ == out,
                        None => r is Parameterized,
                    }
                    &&& match r {
                        Outcome::Value(v) => v == ComputeValue::Buffer(old(self).buffers@.len() as usize)
                            && final(self).buffers@.len() == old(self).buffers@.len() + 1
                            && final(self).buffers@.take(old(self).buffers@.len() as int)
                            == old(self).buffers@,
                        _ => final(self).buffers@ == old(self).buffers@,
                    }
                },
                (ComputeOperator::Read, Operand::BufferIndex(Some(b), Some(i))) => {
                    &&& final(self).kernels@ == old(self).kernels@
                    &&& final(self).buffers@ == old(self).buffers@
                    &&& r == if (b as int) < old(self).buffers@.len() && (i as int) < old(
                        self,
                    ).buffers@[b as int]@.len() {
                        Outcome::USize(element_value(old(self).buffers@[b as int]@[i as int]))
                    } else {
                        Outcome::Parameterized
                    }
                },
                (ComputeOperator::BufferCollect, Operand::Buffer(Some(b))) => {
                    &&& final(self).kernels@ == old(self).kernels@
                    &&& final(self).buffers@ == old(self).buffers@
                    &&& match r {
                        Outcome::Array(values) => (b as int) < old(self).buffers@.len() && values@
                            == old(self).buffers@[b as int]@.map_values(|x: i64| element_value(x)),
                        _ => r is Parameterized && (b as int) >= old(self).buffers@.len(),
                    }
                },
                _ => r is Parameterized && final(self).kernels@ == old(self).kernels@
                    && final(self).buffers@ == old(self).buffers@,
            },
    {
        match (op, operand) {
            (ComputeOperator::Jit, Operand::Compiled(Some(f))) => {
                let id = self.register_kernel(f);
                Outcome::Value(ComputeValue::Kernel(id))
            },
            (ComputeOperator::Parallel, Operand::Compiled(Some(f))) => {
                let id = self.register_kernel(f);
                Outcome::Value(ComputeValue::ParKernel(id))
            },
            (ComputeOperator::Launch, Operand::KernelArgs(Some(id), Some(args))) => {
                self.launch(id, &args)
            },
            (ComputeOperator::Call, Operand::KernelArgs(Some(id), Some(args))) => {
                self.launch(id, &args)
            },
            (ComputeOperator::ParLaunch, Operand::ParLaunchArgs(Some(id), Some(count), Some(bs))) => {
                if !self.fits() {
                    return Outcome::Parameterized;
                }
                match self.par_launch(id, count, &bs) {
                    Some(b) => Outcome::Value(ComputeValue::Buffer(b)),
                    None => Outcome::Parameterized,
                }
            },
            (ComputeOperator::Read, Operand::BufferIndex(Some(b), Some(i))) => {
                match self.read_buffer(b, i) {
                    Some(v) => Outcome::USize(v),
                    None => Outcome::Parameterized,
                }
            },
            (ComputeOperator::BufferCollect, Operand::Buffer(Some(b))) => {
                match self.collect_buffer(b) {
                    Some(values) => Outcome::Array(values),
                    None => Outcome::Parameterized,
                }
            },
            _ => Outcome::Parameterized,
        }
    }
}

} // verus!
