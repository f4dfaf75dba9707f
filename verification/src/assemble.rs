//! Kernel assembly: lowering kernel bodies to wasm instructions and
//! assembling a launch set of kernels into one wasm module.

use vstd::prelude::*;

use std::collections::HashMap;

use crate::render::{decimal, decimal_message};
use crate::compute::{arity, flat_arity, KernelBin, KernelFragment, KernelId, KernelInstr};
use crate::encode::{
    add_code_section, add_export_section, add_function_section, add_import_section,
    add_type_section, code_entries, declare_function, export_function,
    finish_module, function_body, function_entries, import_entries, import_function,
    module_sections, new_code_section, new_export_section, new_function, new_function_section,
    new_import_section, new_module, new_type_section, push_code, push_i64_function_type,
    push_instr, type_entries, wasm_binary, WasmInstr, WasmSection, function_len, code_section_len,
    section_room, types_bytes, functions_bytes, function_byte_len, code_byte_len,
};

verus! {


/// The wasm instructions of one kernel instruction, where `index` places each
/// cross-called kernel among the module's defined functions (which start at
/// function index `base`).  `None` for a call to a kernel `index` lacks.
pub open spec fn lower_instr(i: KernelInstr, index: Map<KernelId, u32>, base: u32) -> Option<
    Seq<WasmInstr>,
> {
    match i {
        KernelInstr::Const(n) => Some(seq![WasmInstr::I64Const(n)]),
        KernelInstr::Bin(KernelBin::Add) => Some(seq![WasmInstr::I64Add]),
        KernelInstr::Bin(KernelBin::Sub) => Some(seq![WasmInstr::I64Sub]),
        KernelInstr::Bin(KernelBin::Leq) => Some(seq![WasmInstr::I64LeS, WasmInstr::I64ExtendI32U]),
        KernelInstr::Bin(KernelBin::Eq) => Some(seq![WasmInstr::I64Eq, WasmInstr::I64ExtendI32U]),
        KernelInstr::LocalGet(k) => Some(seq![WasmInstr::LocalGet(k)]),
        KernelInstr::I32WrapI64 => Some(seq![WasmInstr::I32WrapI64]),
        KernelInstr::Select => Some(seq![WasmInstr::Select]),
        KernelInstr::CallKernel(kid) => if index.contains_key(kid) {
            Some(seq![WasmInstr::Call((base + index[kid]) as u32)])
        } else {
            None
        },
        KernelInstr::BufferReadCall => Some(seq![WasmInstr::Call(0)]),
        KernelInstr::BufferWriteCall => Some(seq![WasmInstr::Call(1)]),
    }
}

/// The lowering of a kernel body: the instructions of every kernel
/// instruction in order, up to the first that does not lower, and whether
/// all of them did.
pub open spec fn lowered(body: Seq<KernelInstr>, index: Map<KernelId, u32>, base: u32) -> (
    Seq<WasmInstr>,
    bool,
)
    decreases body.len(),
{
    if body.len() == 0 {
        (Seq::empty(), true)
    } else {
        let (prefix, ok) = lowered(body.drop_last(), index, base);
        if !ok {
            (prefix, false)
        } else {
            match lower_instr(body.last(), index, base) {
                Some(w) => (prefix + w, true),
                None => (prefix, false),
            }
        }
    }
}

/// The callee of the first instruction of `body` that does not lower (when
/// one does not).
pub open spec fn missing_callee(body: Seq<KernelInstr>, index: Map<KernelId, u32>, base: u32) -> KernelId
    decreases body.len(),
{
    if body.len() == 0 {
        0
    } else if !lowered(body.drop_last(), index, base).1 {
        missing_callee(body.drop_last(), index, base)
    } else {
        match body.last() {
            KernelInstr::CallKernel(kid) => kid,
            _ => 0,
        }
    }
}

/// The message of a cross-kernel call outside the assembled set.
pub open spec fn missing_callee_text(kid: KernelId) -> Seq<char> {
    "cross-kernel call to kernel "@ + decimal(kid as nat) + " is not in the assembled set"@
}

/// The message of a cross-kernel call outside the assembled set.
fn missing_callee_message(kid: KernelId) -> (m: String)
    ensures
        m@ == missing_callee_text(kid),
{
    decimal_message("cross-kernel call to kernel ", kid, " is not in the assembled set")
}

/// Lower a kernel body into a wasm function body.  `index` resolves each
/// cross-kernel call to the callee's function index among the defined
/// functions, offset by `base` (the number of leading host imports); the
/// buffer `read`/`write` calls lower to imports 0 and 1.  An error at the
/// first call to a kernel `index` lacks, with the instructions before it
/// written.
pub fn lower_body(
    body: &[KernelInstr],
    index: &HashMap<KernelId, u32>,
    base: u32,
    out: &mut wasm_encoder::Function,
) -> (r: Result<(), String>)
    requires
        forall|k: KernelId| #[trigger] index@.contains_key(k) ==> base + index@[k] <= u32::MAX,
    ensures
        function_body(*final(out)) == function_body(*old(out)) + lowered(body@, index@, base).0,
        r is Ok <==> lowered(body@, index@, base).1,
        r matches Err(m) ==> m@ == missing_callee_text(missing_callee(body@, index@, base)),
{
    broadcast use vstd::std_specs::hash::group_hash_axioms;

    let mut k: usize = 0;
    assert(body@.take(0) =~= Seq::<KernelInstr>::empty());
    assert(function_body(*out) =~= function_body(*old(out)) + Seq::<WasmInstr>::empty());
    while k < body.len()
        invariant
            k <= body@.len(),
            forall|q: KernelId| #[trigger] index@.contains_key(q) ==> base + index@[q] <= u32::MAX,
            lowered(body@.take(k as int), index@, base).1,
            function_body(*out) == function_body(*old(out)) + lowered(
                body@.take(k as int),
                index@,
                base,
            ).0,
        decreases body@.len() - k,
    {
        let ghost before = function_body(*out);
        proof {
            assert(body@.take(k + 1).drop_last() =~= body@.take(k as int));
            assert(body@.take(k + 1).last() == body@[k as int]);
        }
        match body[k] {
            KernelInstr::Const(n) => {
                push_instr(out, WasmInstr::I64Const(n));
            },
            KernelInstr::Bin(op) => match op {
                KernelBin::Add => {
                    push_instr(out, WasmInstr::I64Add);
                },
                KernelBin::Sub => {
                    push_instr(out, WasmInstr::I64Sub);
                },
                KernelBin::Leq => {
                    push_instr(out, WasmInstr::I64LeS);
                    push_instr(out, WasmInstr::I64ExtendI32U);
                },
                KernelBin::Eq => {
                    push_instr(out, WasmInstr::I64Eq);
                    push_instr(out, WasmInstr::I64ExtendI32U);
                },
            },
            KernelInstr::LocalGet(j) => {
                push_instr(out, WasmInstr::LocalGet(j));
            },
            KernelInstr::I32WrapI64 => {
                push_instr(out, WasmInstr::I32WrapI64);
            },
            KernelInstr::Select => {
                push_instr(out, WasmInstr::Select);
            },
            KernelInstr::CallKernel(kid) => {
                match index.get(&kid) {
                    Some(target) => {
                        push_instr(out, WasmInstr::Call(base + *target));
                    },
                    None => {
                        proof {
                            lemma_lowered_stops(body@, index@, base, k as int);
                        }
                        return Err(missing_callee_message(kid));
                    },
                }
            },
            KernelInstr::BufferReadCall => {
                push_instr(out, WasmInstr::Call(0));
            },
            KernelInstr::BufferWriteCall => {
                push_instr(out, WasmInstr::Call(1));
            },
        }
        proof {
            let w = lower_instr(body@[k as int], index@, base).unwrap();
            assert(function_body(*out) =~= before + w);
            assert(function_body(*out) =~= function_body(*old(out)) + lowered(
                body@.take(k + 1),
                index@,
                base,
            ).0);
        }
        k += 1;
    }
    assert(body@.take(k as int) =~= body@);
    Ok(())
}

/// Once an instruction fails to lower, the lowering of the whole body is
/// that of the prefix before it, and fails.
proof fn lemma_lowered_stops(body: Seq<KernelInstr>, index: Map<KernelId, u32>, base: u32, k: int)
    requires
        0 <= k < body.len(),
        lowered(body.take(k), index, base).1,
        lower_instr(body[k], index, base) is None,
    ensures
        lowered(body, index, base) == (lowered(body.take(k), index, base).0, false),
        body[k] is CallKernel && missing_callee(body, index, base) == body[k]->CallKernel_0,
    decreases body.len() - k,
{
    if k == body.len() - 1 {
        assert(body.drop_last() =~= body.take(k));
    } else {
        assert(body.drop_last().take(k) =~= body.take(k));
        assert(body.drop_last()[k] == body[k]);
        lemma_lowered_stops(body.drop_last(), index, base, k);
    }
}


// ---------------------------------------------------------------------------
// Module assembly

/// Whether a fragment calls the buffer `read`/`write` host imports.
pub open spec fn uses_buffers(f: KernelFragment) -> bool {
    exists|x: int|
        0 <= x < f.body@.len() && ((#[trigger] f.body@[x]) is BufferReadCall
            || f.body@[x] is BufferWriteCall)
}

/// Whether any of `frags` calls the buffer host imports.
pub open spec fn any_uses_buffers(frags: Seq<KernelFragment>) -> bool {
    exists|i: int| 0 <= i < frags.len() && uses_buffers(#[trigger] frags[i])
}

/// The function index of the first defined function: past the two host
/// imports when the module declares them.
pub open spec fn plan_base(frags: Seq<KernelFragment>) -> u32 {
    if any_uses_buffers(frags) {
        2
    } else {
        0
    }
}

/// The distinct values of `s`, in order of first occurrence.
pub open spec fn first_occurrences(s: Seq<nat>) -> Seq<nat>
    decreases s.len(),
{
    if s.len() == 0 {
        Seq::empty()
    } else {
        let d = first_occurrences(s.drop_last());
        if d.contains(s.last()) {
            d
        } else {
            d.push(s.last())
        }
    }
}

/// The position of `a` among distinct values `d`.
pub open spec fn slot_of(d: Seq<nat>, a: nat) -> int {
    choose|i: int| 0 <= i < d.len() && d[i] == a
}

/// The parameter counts of `frags`.
pub open spec fn arities(frags: Seq<KernelFragment>) -> Seq<nat> {
    Seq::new(frags.len(), |i: int| arity(frags[i].param_shape))
}

/// The two host import types, when the module declares the imports:
/// `read(pos, idx) -> i64` and `write(pos, idx, val)`.
pub open spec fn host_types(frags: Seq<KernelFragment>) -> Seq<(nat, nat)> {
    if any_uses_buffers(frags) {
        seq![(2nat, 1nat), (3nat, 0nat)]
    } else {
        Seq::empty()
    }
}

/// The sections of the module that assembles `frags` (in function-index
/// order, the first exported as `main`): one `(arity) -> i64` type per
/// distinct arity after the host import types, the imports when a body calls
/// them, each function's type, the export, and each lowered body closed by
/// `end`.
pub open spec fn module_plan(frags: Seq<KernelFragment>, index: Map<KernelId, u32>) -> Seq<
    WasmSection,
> {
    let base = plan_base(frags);
    let distinct = first_occurrences(arities(frags));
    let hosts = host_types(frags);
    let types = plan_types(frags);
    let funcs = Seq::new(
        frags.len(),
        |i: int| (hosts.len() + slot_of(distinct, arities(frags)[i])) as u32,
    );
    let code = plan_code(frags, index);
    let imports = if any_uses_buffers(frags) {
        seq![
            WasmSection::Imports(
                seq![("env"@, "read"@, 0u32), ("env"@, "write"@, 1u32)],
            ),
        ]
    } else {
        Seq::empty()
    };
    seq![WasmSection::Types(types)] + imports + seq![
        WasmSection::Functions(funcs),
        WasmSection::Exports(seq![("main"@, base)]),
        WasmSection::Code(code),
    ]
}

/// The fragments `order` picks out of `fragments`.
pub open spec fn picked(fragments: Seq<KernelFragment>, order: Seq<KernelId>) -> Seq<KernelFragment> {
    Seq::new(order.len(), |i: int| fragments[order[i] as int])
}

/// Distinct values stay distinct, and within the values seen.
proof fn lemma_first_occurrences(s: Seq<nat>)
    ensures
        first_occurrences(s).no_duplicates(),
        first_occurrences(s).len() <= s.len(),
        forall|a: nat| first_occurrences(s).contains(a) <==> s.contains(a),
    decreases s.len(),
{
    if s.len() > 0 {
        let init = s.drop_last();
        lemma_first_occurrences(init);
        let d = first_occurrences(init);
        assert forall|a: nat| first_occurrences(s).contains(a) <==> s.contains(a) by {
            if s.contains(a) && a != s.last() {
                let j = choose|j: int| 0 <= j < s.len() && s[j] == a;
                assert(init[j] == a);
            }
            if init.contains(a) {
                let j = choose|j: int| 0 <= j < init.len() && init[j] == a;
                assert(s[j] == a);
            }
            if !d.contains(s.last()) {
                if d.push(s.last()).contains(a) && a != s.last() {
                    let j = choose|j: int| 0 <= j < d.len() + 1 && d.push(s.last())[j] == a;
                    assert(d[j] == a);
                }
                if d.contains(a) {
                    let j = choose|j: int| 0 <= j < d.len() && d[j] == a;
                    assert(d.push(s.last())[j] == a);
                }
                assert(d.push(s.last())[d.len() as int] == s.last());
            }
            assert(s[s.len() - 1] == s.last());
        }
    }
}

/// Whether fragment `f`'s body calls a buffer import, by a scan.
fn fragment_uses_buffers(f: &KernelFragment) -> (b: bool)
    ensures
        b == uses_buffers(*f),
{
    let mut x: usize = 0;
    while x < f.body.len()
        invariant
            x <= f.body@.len(),
            forall|y: int|
                0 <= y < x ==> !((#[trigger] f.body@[y]) is BufferReadCall
                    || f.body@[y] is BufferWriteCall),
        decreases f.body@.len() - x,
    {
        match f.body[x] {
            KernelInstr::BufferReadCall | KernelInstr::BufferWriteCall => {
                return true;
            },
            _ => {},
        }
        x += 1;
    }
    false
}

/// The function types of the module that assembles `frags`: the host import
/// types, then one `(arity) -> i64` type per distinct arity.
pub open spec fn plan_types(frags: Seq<KernelFragment>) -> Seq<(nat, nat)> {
    let distinct = first_occurrences(arities(frags));
    host_types(frags) + Seq::new(distinct.len(), |i: int| (distinct[i], 1nat))
}

/// The function bodies of the module that assembles `frags`: each lowered
/// body closed by `end`.
pub open spec fn plan_code(frags: Seq<KernelFragment>, index: Map<KernelId, u32>) -> Seq<
    Seq<WasmInstr>,
> {
    Seq::new(
        frags.len(),
        |i: int| lowered(frags[i].body@, index, plan_base(frags)).0.push(WasmInstr::End),
    )
}

/// Whether every body of `frags` lowers.
pub open spec fn all_lowered(frags: Seq<KernelFragment>, index: Map<KernelId, u32>) -> bool {
    forall|i: int|
        0 <= i < frags.len() ==> lowered(#[trigger] frags[i].body@, index, plan_base(frags)).1
}

/// Whether the function and type sections of the module that assembles
/// `frags` are within what the encoder writes.
pub open spec fn head_fits(frags: Seq<KernelFragment>) -> bool {
    &&& functions_bytes(frags.len()) <= section_room()
    &&& types_bytes(plan_types(frags)) <= section_room()
}

/// Whether every body and the code section of the module that assembles
/// `frags` are within what the encoder writes.
pub open spec fn code_fits(frags: Seq<KernelFragment>, index: Map<KernelId, u32>) -> bool {
    &&& forall|i: int|
        0 <= i < frags.len() ==> function_len(#[trigger] plan_code(frags, index)[i]) <= u32::MAX
    &&& code_section_len(plan_code(frags, index)) <= section_room()
}

/// The message of a module too large for the encoder.
pub open spec fn module_too_large() -> Seq<char> {
    "kernel module exceeds the wasm section size limit"@
}

/// The first body of `frags` that does not lower is `i`.
pub open spec fn first_unlowered(frags: Seq<KernelFragment>, index: Map<KernelId, u32>, i: int) -> bool {
    &&& 0 <= i < frags.len()
    &&& !lowered(frags[i].body@, index, plan_base(frags)).1
    &&& forall|j: int|
        0 <= j < i ==> lowered(#[trigger] frags[j].body@, index, plan_base(frags)).1
}

/// Type section entries never shrink the bound as entries are added.
proof fn lemma_types_bytes_take(types: Seq<(nat, nat)>, j: int)
    requires
        0 <= j <= types.len(),
    ensures
        types_bytes(types.take(j)) <= types_bytes(types),
    decreases types.len(),
{
    if j < types.len() {
        assert(types.drop_last().take(j) =~= types.take(j));
        lemma_types_bytes_take(types.drop_last(), j);
    } else {
        assert(types.take(j) =~= types);
    }
}

/// Assemble the kernels `order` picks out of `fragments` into one wasm
/// module: `order[i]` becomes defined function `i`, the first exported as
/// `main`; `index` resolves each cross-kernel call to its callee's position.
/// An error when the function or type section would be too large for the
/// encoder; then, body by body, when a body calls a kernel `index` lacks
/// (its first such call) or is too large; then when the code section is too
/// large.
pub fn assemble_module(
    fragments: &[KernelFragment],
    order: &[KernelId],
    index: &HashMap<KernelId, u32>,
) -> (r: Result<Vec<u8>, String>)
    requires
        forall|i: int|
            0 <= i < order@.len() ==> (#[trigger] order@[i] as int) < fragments@.len() && arity(
                fragments@[order@[i] as int].param_shape,
            ) <= usize::MAX,
        forall|k: KernelId| #[trigger] index@.contains_key(k) ==> index@[k] <= u32::MAX - 2,
    ensures
        ({
            let frags = picked(fragments@, order@);
            &&& r is Ok <==> head_fits(frags) && all_lowered(frags, index@) && code_fits(frags, index@)
            &&& !head_fits(frags) ==> (r matches Err(m) && m@ == module_too_large())
            &&& head_fits(frags) && all_lowered(frags, index@) && r is Err ==> (r matches Err(m)
                && m@ == module_too_large())
            &&& forall|i: int|
                #[trigger] first_unlowered(frags, index@, i) && head_fits(frags) ==> (r matches Err(m)
                    && m@ == if forall|j: int|
                    0 <= j < i ==> function_len(#[trigger] plan_code(frags, index@)[j]) <= u32::MAX {
                    missing_callee_text(missing_callee(frags[i].body@, index@, plan_base(frags)))
                } else {
                    module_too_large()
                })
            &&& r matches Ok(bytes) ==> bytes@ == wasm_binary(module_plan(frags, index@))
        }),
{
    let ghost frags = picked(fragments@, order@);
    let n = order.len();
    if n > 858993458 {
        assert(frags.len() == n);
        assert(!head_fits(frags));
        return Err(String::from_str("kernel module exceeds the wasm section size limit"));
    }
    // Whether any body calls the buffer imports.
    let mut uses_imports = false;
    let mut i: usize = 0;
    while i < n
        invariant
            n == order@.len() == frags.len(),
            frags == picked(fragments@, order@),
            i <= n,
            forall|q: int| 0 <= q < n ==> (#[trigger] order@[q] as int) < fragments@.len(),
            uses_imports <==> exists|j: int| 0 <= j < i && uses_buffers(#[trigger] frags[j]),
        decreases n - i,
    {
        if fragment_uses_buffers(&fragments[order[i]]) {
            uses_imports = true;
        }
        proof {
            assert(frags[i as int] == fragments@[order@[i as int] as int]);
        }
        i += 1;
    }
    let base: u32 = if uses_imports {
        2
    } else {
        0
    };
    let host_count: usize = if uses_imports {
        2
    } else {
        0
    };
    assert(base == plan_base(frags));
    let ghost hosts = host_types(frags);
    let ghost all_arities = arities(frags);
    let ghost distinct = first_occurrences(all_arities);
    // The distinct arities, in order, and each function's type index.
    let mut seen_arities: Vec<usize> = Vec::new();
    let mut func_types: Vec<u32> = Vec::new();
    let mut i: usize = 0;
    assert(all_arities.take(0) =~= Seq::<nat>::empty());
    while i < n
        invariant
            n == order@.len() == frags.len(),
            frags == picked(fragments@, order@),
            all_arities == arities(frags),
            i <= n <= 858993458,
            forall|q: int|
                0 <= q < n ==> (#[trigger] order@[q] as int) < fragments@.len() && arity(
                    fragments@[order@[q] as int].param_shape,
                ) <= usize::MAX,
            hosts.len() <= 2,
            host_count == hosts.len(),
            seen_arities@.len() == first_occurrences(all_arities.take(i as int)).len(),
            forall|j: int|
                0 <= j < seen_arities@.len() ==> seen_arities@[j] as nat == first_occurrences(
                    all_arities.take(i as int),
                )[j],
            func_types@.len() == i,
            forall|j: int|
                0 <= j < i ==> func_types@[j] == (hosts.len() + slot_of(
                    first_occurrences(all_arities.take(i as int)),
                    all_arities[j],
                )) as u32,
        decreases n - i,
    {
        proof {
            assert(frags[i as int] == fragments@[order@[i as int] as int]);
            lemma_first_occurrences(all_arities.take(i as int));
            lemma_first_occurrences(all_arities.take(i + 1));
            assert(all_arities.take(i + 1).drop_last() =~= all_arities.take(i as int));
        }
        let a = flat_arity(&fragments[order[i]].param_shape);
        let ghost d_old = first_occurrences(all_arities.take(i as int));
        let ghost d_new = first_occurrences(all_arities.take(i + 1));
        assert(a == all_arities[i as int]);
        assert(all_arities.take(i + 1).last() == a);
        let mut j: usize = 0;
        while j < seen_arities.len() && seen_arities[j] != a
            invariant
                j <= seen_arities@.len(),
                forall|q: int| 0 <= q < j ==> seen_arities@[q] != a,
            decreases seen_arities@.len() - j,
        {
            j += 1;
        }
        let ti: u32 = if j < seen_arities.len() {
            proof {
                assert(d_old[j as int] == a as nat);
                assert(d_old.contains(a as nat));
                assert(d_new == d_old);
                lemma_slot_unique(d_new, a as nat, j as int);
            }
            (host_count + j) as u32
        } else {
            proof {
                assert(!d_old.contains(a as nat)) by {
                    if d_old.contains(a as nat) {
                        let q = choose|q: int| 0 <= q < d_old.len() && d_old[q] == a as nat;
                        assert(seen_arities@[q] == a);
                    }
                }
                assert(d_new == d_old.push(a as nat));
                lemma_slot_unique(d_new, a as nat, d_old.len() as int);
            }
            let id = (host_count + seen_arities.len()) as u32;
            seen_arities.push(a);
            id
        };
        proof {
            assert forall|q: int| 0 <= q < i implies slot_of(d_new, #[trigger] all_arities[q])
                == slot_of(d_old, all_arities[q]) by {
                assert(all_arities.take(i as int)[q] == all_arities[q]);
                assert(all_arities.take(i as int).contains(all_arities[q]));
                assert(d_old.contains(all_arities[q]));
                let k = slot_of(d_old, all_arities[q]);
                if d_new != d_old {
                    assert(d_new[k] == d_old[k]);
                }
                lemma_slot_unique(d_new, all_arities[q], k);
            }
        }
        func_types.push(ti);
        i += 1;
    }
    proof {
        assert(all_arities.take(n as int) =~= all_arities);
        lemma_first_occurrences(all_arities);
    }
    // The type section: the host import types, then one type per arity.
    let ghost types_plan = plan_types(frags);
    assert(types_plan == hosts + Seq::new(distinct.len(), |q: int| (distinct[q], 1nat)));
    let mut types = new_type_section();
    let mut acc: u64 = 0;
    if uses_imports {
        push_i64_function_type(&mut types, 2, 1);
        push_i64_function_type(&mut types, 3, 0);
        acc = 28;
        proof {
            reveal_with_fuel(types_bytes, 3);
            assert(type_entries(types) =~= hosts);
        }
    } else {
        assert(type_entries(types) =~= hosts);
    }
    let mut j: usize = 0;
    while j < seen_arities.len()
        invariant
            j <= seen_arities@.len() == distinct.len(),
            forall|q: int| 0 <= q < seen_arities@.len() ==> seen_arities@[q] as nat == distinct[q],
            types_plan == hosts + Seq::new(distinct.len(), |q: int| (distinct[q], 1nat)),
            types_plan == plan_types(frags),
            frags == picked(fragments@, order@),
            hosts.len() <= 2,
            type_entries(types) == types_plan.take(hosts.len() + j),
            acc == types_bytes(type_entries(types)),
            acc <= section_room(),
            11 * type_entries(types).len() <= acc,
        decreases seen_arities@.len() - j,
    {
        let a = seen_arities[j];
        let ghost next = types_plan.take(hosts.len() + j + 1);
        proof {
            assert(next =~= type_entries(types).push((a as nat, 1nat)));
            assert(next.drop_last() =~= type_entries(types));
        }
        if acc + 12 > 4294967290 || a as u64 > 4294967290 - acc - 12 {
            proof {
                assert(next.last() == (a as nat, 1nat));
                assert(types_bytes(next) == acc + 12 + a);
                lemma_types_bytes_take(types_plan, hosts.len() + j + 1);
                assert(types_bytes(plan_types(frags)) > section_room());
                assert(!head_fits(frags));
            }
            return Err(String::from_str("kernel module exceeds the wasm section size limit"));
        }
        push_i64_function_type(&mut types, a, 1);
        acc = acc + 12 + a as u64;
        j += 1;
    }
    assert(types_plan.take(hosts.len() + j) =~= types_plan);
    let mut wasm = new_module();
    add_type_section(&mut wasm, &types);
    let ghost imports_plan = if uses_imports {
        seq![
            WasmSection::Imports(
                seq![("env"@, "read"@, 0u32), ("env"@, "write"@, 1u32)],
            ),
        ]
    } else {
        Seq::<WasmSection>::empty()
    };
    assert(module_sections(wasm) =~= seq![WasmSection::Types(type_entries(types))]);
    if uses_imports {
        let mut imports = new_import_section();
        proof {
            reveal_strlit("env");
            reveal_strlit("read");
            reveal_strlit("write");
        }
        import_function(&mut imports, "env", "read", 0);
        import_function(&mut imports, "env", "write", 1);
        add_import_section(&mut wasm, &imports);
        assert(import_entries(imports) =~= seq![("env"@, "read"@, 0u32), ("env"@, "write"@, 1u32)]);
    }
    assert(module_sections(wasm) =~= seq![WasmSection::Types(type_entries(types))] + imports_plan);
    let mut funcs = new_function_section();
    let mut k: usize = 0;
    while k < func_types.len()
        invariant
            k <= func_types@.len() <= 858993458,
            function_entries(funcs) == func_types@.take(k as int),
        decreases func_types@.len() - k,
    {
        declare_function(&mut funcs, func_types[k]);
        proof {
            assert(func_types@.take(k + 1) =~= func_types@.take(k as int).push(func_types@[k as int]));
        }
        k += 1;
    }
    assert(func_types@.take(k as int) =~= func_types@);
    add_function_section(&mut wasm, &funcs);
    let mut exports = new_export_section();
    proof {
        reveal_strlit("main");
    }
    export_function(&mut exports, "main", base);
    add_export_section(&mut wasm, &exports);
    let ghost code_plan = plan_code(frags, index@);
    let mut code = new_code_section();
    let mut k: usize = 0;
    while k < n
        invariant
            n == order@.len() == frags.len() <= 858993458,
            frags == picked(fragments@, order@),
            code_plan == plan_code(frags, index@),
            head_fits(frags),
            k <= n,
            base == plan_base(frags),
            base <= 2,
            forall|q: int| 0 <= q < n ==> (#[trigger] order@[q] as int) < fragments@.len(),
            forall|q: KernelId| #[trigger] index@.contains_key(q) ==> index@[q] <= u32::MAX - 2,
            forall|q: int| 0 <= q < k ==> lowered(#[trigger] frags[q].body@, index@, base).1,
            forall|q: int| 0 <= q < k ==> function_len(#[trigger] code_plan[q]) <= u32::MAX,
            code_entries(code) == code_plan.take(k as int),
        decreases n - k,
    {
        let frag = &fragments[order[k]];
        proof {
            assert(frags[k as int] == *frag);
        }
        let mut body = new_function();
        match lower_body(&frag.body, index, base, &mut body) {
            Ok(()) => {},
            Err(e) => {
                proof {
                    assert(first_unlowered(frags, index@, k as int));
                    assert forall|i: int| #[trigger] first_unlowered(frags, index@, i) implies i == k by {
                        if i < k {
                            assert(lowered(frags[i].body@, index@, base).1);
                        }
                        if i > k {
                            assert(!lowered(frags[k as int].body@, index@, base).1);
                        }
                    }
                }
                return Err(e);
            },
        }
        push_instr(&mut body, WasmInstr::End);
        proof {
            assert(function_body(body) =~= code_plan[k as int]);
        }
        let body_len = function_byte_len(&body);
        if body_len > 4294967295 {
            proof {
                assert forall|i: int| #[trigger] first_unlowered(frags, index@, i) implies !(forall|j: int|
                    0 <= j < i ==> function_len(#[trigger] code_plan[j]) <= u32::MAX) by {
                    if i <= k {
                        if i < k {
                            assert(lowered(frags[i].body@, index@, base).1);
                        }
                    }
                    assert(function_len(code_plan[k as int]) > u32::MAX);
                }
            }
            return Err(String::from_str("kernel module exceeds the wasm section size limit"));
        }
        push_code(&mut code, &body);
        proof {
            assert(code_entries(code) =~= code_plan.take(k + 1));
        }
        k += 1;
    }
    assert(code_plan.take(n as int) =~= code_plan);
    let code_len = code_byte_len(&code);
    if code_len > 4294967290 {
        return Err(String::from_str("kernel module exceeds the wasm section size limit"));
    }
    add_code_section(&mut wasm, &code);
    proof {
        let plan = module_plan(frags, index@);
        let funcs_t = Seq::new(
            frags.len(),
            |i: int| (hosts.len() + slot_of(distinct, arities(frags)[i])) as u32,
        );
        assert(func_types@ =~= funcs_t);
        assert(module_sections(wasm) =~= plan);
    }
    Ok(finish_module(wasm))
}

/// In a duplicate-free sequence a value's slot is the one index holding it.
proof fn lemma_slot_unique(d: Seq<nat>, a: nat, k: int)
    requires
        d.no_duplicates(),
        0 <= k < d.len(),
        d[k] == a,
    ensures
        slot_of(d, a) == k,
{
    let c = slot_of(d, a);
    assert(0 <= c < d.len() && d[c] == a);
}

} // verus!
