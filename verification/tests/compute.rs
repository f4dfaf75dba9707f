use std::collections::HashMap;

use lichen::assemble::{assemble_module, lower_body};
use lichen::launch::{Operand, Outcome};
use lichen::compute::{
    flat_arity, flatten_offset, ComputeOperator, ComputeRuntime, ComputeValue, KernelBin,
    KernelFragment, KernelInstr, Shape,
};

fn scalar(body: Vec<KernelInstr>) -> KernelFragment {
    KernelFragment { param_shape: Shape::USize, body }
}

fn tuple(n: usize, body: Vec<KernelInstr>) -> KernelFragment {
    let items = (0..n).map(|_| Shape::USize).collect();
    KernelFragment { param_shape: Shape::Tuple(items), body }
}

#[test]
fn flat_arity_sums_nested_tuples() {
    // ((Int, Int), Int) flattens to three locals.
    let shape = Shape::Tuple(vec![Shape::Tuple(vec![Shape::USize, Shape::USize]), Shape::USize]);
    assert_eq!(flat_arity(&shape), 3);
    assert_eq!(flat_arity(&Shape::USize), 1);
    assert_eq!(flat_arity(&Shape::Array), 1);
    assert_eq!(flat_arity(&Shape::Tuple(vec![])), 0);
}

#[test]
fn flatten_offset_skips_earlier_elements() {
    let shape = Shape::Tuple(vec![Shape::Tuple(vec![Shape::USize, Shape::USize]), Shape::USize]);
    assert_eq!(flatten_offset(&shape, &[]), Ok(0));
    assert_eq!(flatten_offset(&shape, &[0, 1]), Ok(1));
    assert_eq!(flatten_offset(&shape, &[1]), Ok(2));
    assert_eq!(
        flatten_offset(&shape, &[2]),
        Err("parameter index 2 out of bounds".to_string())
    );
    assert_eq!(
        flatten_offset(&shape, &[1, 0]),
        Err("index into a scalar parameter".to_string())
    );
    assert_eq!(
        flatten_offset(&Shape::Table, &[0]),
        Err("unsupported parameter domain shape".to_string())
    );
}

#[test]
fn registries_hand_out_dense_ids() {
    let mut rt = ComputeRuntime::new();
    assert_eq!(rt.register_kernel(scalar(vec![KernelInstr::LocalGet(0)])), 0);
    assert_eq!(rt.register_kernel(scalar(vec![KernelInstr::LocalGet(0)])), 1);
    assert_eq!(rt.register_buffer(vec![4, 5]), 0);
    assert_eq!(rt.buffer_results(0), Some(vec![4, 5]));
    assert_eq!(rt.buffer_results(1), None);
    assert_eq!(rt.read_buffer(0, 1), Some(5));
    assert_eq!(rt.read_buffer(0, 2), None);
    assert_eq!(rt.read_buffer(3, 0), None);
    assert_eq!(rt.collect_buffer(0), Some(vec![4, 5]));
    assert_eq!(rt.collect_buffer(9), None);
}

#[test]
fn launch_set_follows_cross_calls_breadth_first() {
    let mut rt = ComputeRuntime::new();
    // 0 calls 2 then 1; 2 calls 1 and 0 (a cycle).
    rt.register_kernel(scalar(vec![
        KernelInstr::LocalGet(0),
        KernelInstr::CallKernel(2),
        KernelInstr::CallKernel(1),
    ]));
    rt.register_kernel(scalar(vec![KernelInstr::LocalGet(0)]));
    rt.register_kernel(scalar(vec![KernelInstr::CallKernel(1), KernelInstr::CallKernel(0)]));
    let (order, index) = rt.launch_set(0).unwrap();
    assert_eq!(order, vec![0, 2, 1]);
    assert_eq!(index.get(&0), Some(&0));
    assert_eq!(index.get(&2), Some(&1));
    assert_eq!(index.get(&1), Some(&2));
    // A kernel with no callees is its own launch set.
    let (order, _) = rt.launch_set(1).unwrap();
    assert_eq!(order, vec![1]);
}

#[test]
fn launch_set_reports_unregistered_kernels() {
    let mut rt = ComputeRuntime::new();
    rt.register_kernel(scalar(vec![KernelInstr::CallKernel(7)]));
    assert_eq!(
        rt.launch_set(0).unwrap_err(),
        "cross-kernel callee kernel 7 is not registered"
    );
    assert_eq!(rt.launch_set(3).unwrap_err(), "kernel 3 is not registered");
}

#[test]
fn lower_body_reports_a_callee_outside_the_set() {
    let mut f = wasm_encoder::Function::new([]);
    let index: HashMap<usize, u32> = HashMap::new();
    let r = lower_body(&[KernelInstr::Const(1), KernelInstr::CallKernel(4)], &index, 0, &mut f);
    assert_eq!(
        r,
        Err("cross-kernel call to kernel 4 is not in the assembled set".to_string())
    );
}

#[test]
fn assembled_modules_validate() {
    let frags = vec![scalar(vec![
        KernelInstr::LocalGet(0),
        KernelInstr::Const(1),
        KernelInstr::Bin(KernelBin::Add),
    ])];
    let index: HashMap<usize, u32> = [(0, 0)].into();
    let bytes = assemble_module(&frags, &[0], &index).unwrap();
    assert_eq!(&bytes[..4], b"\0asm");
}

#[test]
fn run_kernel_adds_one() {
    let mut rt = ComputeRuntime::new();
    let id = rt.register_kernel(scalar(vec![
        KernelInstr::LocalGet(0),
        KernelInstr::Const(1),
        KernelInstr::Bin(KernelBin::Add),
    ]));
    assert_eq!(rt.run_kernel(id, &[41]), Ok(42));
}

#[test]
fn run_kernel_over_a_tuple_domain_and_comparisons() {
    let mut rt = ComputeRuntime::new();
    // (a, b) -> if a <= b then a else b  (the minimum)
    let id = rt.register_kernel(tuple(
        2,
        vec![
            KernelInstr::LocalGet(0),
            KernelInstr::LocalGet(1),
            KernelInstr::LocalGet(0),
            KernelInstr::LocalGet(1),
            KernelInstr::Bin(KernelBin::Leq),
            KernelInstr::I32WrapI64,
            KernelInstr::Select,
        ],
    ));
    assert_eq!(rt.run_kernel(id, &[3, 9]), Ok(3));
    assert_eq!(rt.run_kernel(id, &[9, 3]), Ok(3));
    let eq = rt.register_kernel(tuple(
        2,
        vec![KernelInstr::LocalGet(0), KernelInstr::LocalGet(1), KernelInstr::Bin(KernelBin::Eq)],
    ));
    assert_eq!(rt.run_kernel(eq, &[5, 5]), Ok(1));
    assert_eq!(rt.run_kernel(eq, &[5, 6]), Ok(0));
}

#[test]
fn run_kernel_links_cross_kernel_calls() {
    let mut rt = ComputeRuntime::new();
    // double x = x + x; quad x = double (double x)
    let double = rt.register_kernel(scalar(vec![
        KernelInstr::LocalGet(0),
        KernelInstr::LocalGet(0),
        KernelInstr::Bin(KernelBin::Add),
    ]));
    let quad = rt.register_kernel(scalar(vec![
        KernelInstr::LocalGet(0),
        KernelInstr::CallKernel(double),
        KernelInstr::CallKernel(double),
    ]));
    assert_eq!(rt.run_kernel(quad, &[5]), Ok(20));
    let sub = rt.register_kernel(scalar(vec![
        KernelInstr::Const(100),
        KernelInstr::LocalGet(0),
        KernelInstr::Bin(KernelBin::Sub),
    ]));
    assert_eq!(rt.run_kernel(sub, &[1]), Ok(99));
}

#[test]
fn run_kernel_fails_on_missing_kernels_and_bad_arguments() {
    let rt = ComputeRuntime::new();
    assert!(rt.run_kernel(0, &[1]).is_err());
    let mut rt = ComputeRuntime::new();
    let id = rt.register_kernel(scalar(vec![KernelInstr::LocalGet(0)]));
    // The wrong number of arguments is refused by the engine.
    assert!(rt.run_kernel(id, &[1, 2]).is_err());
}

/// The parallel kernel `i => write(0, i, read(0, i) + 10)`.
fn add_ten() -> KernelFragment {
    tuple(
        2,
        vec![
            KernelInstr::Const(0),
            KernelInstr::LocalGet(1),
            KernelInstr::Const(0),
            KernelInstr::LocalGet(1),
            KernelInstr::BufferReadCall,
            KernelInstr::Const(10),
            KernelInstr::Bin(KernelBin::Add),
            KernelInstr::BufferWriteCall,
            KernelInstr::Const(0),
        ],
    )
}

#[test]
fn run_parallel_kernel_maps_an_input_buffer() {
    let mut rt = ComputeRuntime::new();
    let id = rt.register_kernel(add_ten());
    assert_eq!(rt.run_parallel_kernel(id, 3, vec![vec![1, 2, 3]]), Ok(vec![11, 12, 13]));
    // Reads past an input's end give 0.
    assert_eq!(rt.run_parallel_kernel(id, 4, vec![vec![1]]), Ok(vec![11, 10, 10, 10]));
    assert_eq!(rt.run_parallel_kernel(id, 0, vec![]), Ok(vec![]));
    assert_eq!(
        rt.run_parallel_kernel(5, 1, vec![]),
        Err("parallel kernel 5 is not registered".to_string())
    );
}

#[test]
fn par_launch_registers_the_output_buffer() {
    let mut rt = ComputeRuntime::new();
    let id = rt.register_kernel(add_ten());
    let input = rt.register_buffer(vec![5, 6]);
    let out = rt.par_launch(id, 2, &[input]).unwrap();
    assert_eq!(out, 1);
    assert_eq!(rt.collect_buffer(out), Some(vec![15, 16]));
    // A chained launch reads the previous output.
    let again = rt.par_launch(id, 2, &[out]).unwrap();
    assert_eq!(rt.collect_buffer(again), Some(vec![25, 26]));
    // A missing input buffer registers nothing.
    assert_eq!(rt.par_launch(id, 2, &[9]), None);
    assert_eq!(rt.buffers.len(), 3);
}

#[test]
fn compute_value_tags_read_back() {
    assert_eq!(ComputeValue::TypeBuffer.codec_tag(), Some(0));
    assert_eq!(ComputeValue::from_codec_tag(0), Ok(ComputeValue::TypeBuffer));
    assert_eq!(ComputeValue::from_codec_tag(1), Ok(ComputeValue::TypeWrite));
    assert_eq!(ComputeValue::TypeWrite.codec_tag(), Some(1));
    // Runtime handles have no artifact form.
    assert_eq!(ComputeValue::Kernel(3).codec_tag(), None);
    assert_eq!(ComputeValue::Buffer(0).codec_tag(), None);
    assert_eq!(
        ComputeValue::from_codec_tag(7),
        Err("unknown compute-value tag 7".to_string())
    );
    assert_eq!(
        ComputeOperator::from_codec_tag(0),
        Err("unknown compute-operator tag 0".to_string())
    );
}

#[test]
fn operators_compile_run_and_read() {
    let mut rt = ComputeRuntime::new();
    let inc = scalar(vec![KernelInstr::LocalGet(0), KernelInstr::Const(1), KernelInstr::Bin(KernelBin::Add)]);
    assert_eq!(
        rt.run_operator(ComputeOperator::Jit, Operand::Compiled(Some(inc))),
        Outcome::Value(ComputeValue::Kernel(0))
    );
    assert_eq!(
        rt.run_operator(ComputeOperator::Launch, Operand::KernelArgs(Some(0), Some(vec![6]))),
        Outcome::USize(7)
    );
    assert_eq!(
        rt.run_operator(ComputeOperator::Call, Operand::KernelArgs(Some(0), Some(vec![1]))),
        Outcome::USize(2)
    );
    // A lazy operand, a non-kernel, or unflattenable arguments stay lazy.
    assert_eq!(rt.run_operator(ComputeOperator::Launch, Operand::Parameterized), Outcome::Parameterized);
    assert_eq!(
        rt.run_operator(ComputeOperator::Launch, Operand::KernelArgs(None, Some(vec![1]))),
        Outcome::Parameterized
    );
    assert_eq!(
        rt.run_operator(ComputeOperator::Launch, Operand::KernelArgs(Some(0), None)),
        Outcome::Parameterized
    );
    // A function outside the kernel-safe subset registers nothing.
    assert_eq!(rt.run_operator(ComputeOperator::Jit, Operand::Compiled(None)), Outcome::Parameterized);
    assert_eq!(rt.kernels.len(), 1);
    assert_eq!(
        rt.run_operator(ComputeOperator::Parallel, Operand::Compiled(Some(add_ten()))),
        Outcome::Value(ComputeValue::ParKernel(1))
    );
    let input = rt.register_buffer(vec![1, 2]);
    assert_eq!(
        rt.run_operator(
            ComputeOperator::ParLaunch,
            Operand::ParLaunchArgs(Some(1), Some(2), Some(vec![input]))
        ),
        Outcome::Value(ComputeValue::Buffer(1))
    );
    assert_eq!(
        rt.run_operator(ComputeOperator::Read, Operand::BufferIndex(Some(1), Some(1))),
        Outcome::USize(12)
    );
    assert_eq!(
        rt.run_operator(ComputeOperator::Read, Operand::BufferIndex(Some(1), Some(5))),
        Outcome::Parameterized
    );
    assert_eq!(
        rt.run_operator(ComputeOperator::BufferCollect, Operand::Buffer(Some(1))),
        Outcome::Array(vec![11, 12])
    );
    assert_eq!(
        rt.run_operator(ComputeOperator::Range, Operand::BufferIndex(Some(1), Some(0))),
        Outcome::Parameterized
    );
    assert_eq!(
        rt.run_operator(ComputeOperator::Write, Operand::Parameterized),
        Outcome::Parameterized
    );
}

#[test]
fn run_kernel_names_the_unregistered_kernel() {
    let rt = ComputeRuntime::new();
    assert_eq!(rt.run_kernel(3, &[1]), Err("kernel 3 is not registered".to_string()));
    let mut rt = ComputeRuntime::new();
    let id = rt.register_kernel(scalar(vec![KernelInstr::CallKernel(9)]));
    assert_eq!(
        rt.run_kernel(id, &[1]),
        Err("cross-kernel callee kernel 9 is not registered".to_string())
    );
}

#[test]
fn a_parallel_kernel_calling_another_kernel_does_not_assemble() {
    let mut rt = ComputeRuntime::new();
    let id = rt.register_kernel(scalar(vec![KernelInstr::CallKernel(0), KernelInstr::CallKernel(7)]));
    assert_eq!(
        rt.run_parallel_kernel(id, 1, vec![]),
        Err("cross-kernel call to kernel 7 is not in the assembled set".to_string())
    );
}

#[test]
fn both_kind_markers_round_trip_through_their_tags() {
    for v in [ComputeValue::TypeBuffer, ComputeValue::TypeWrite] {
        let tag = v.codec_tag().unwrap();
        assert_eq!(ComputeValue::from_codec_tag(tag), Ok(v));
    }
}

#[test]
fn launch_set_visits_callees_level_by_level() {
    let mut rt = ComputeRuntime::new();
    // 0 calls 1 and 2; 1 calls 3; 2 calls 4: breadth first is 0, 1, 2, 3, 4.
    rt.register_kernel(scalar(vec![KernelInstr::CallKernel(1), KernelInstr::CallKernel(2)]));
    rt.register_kernel(scalar(vec![KernelInstr::CallKernel(3)]));
    rt.register_kernel(scalar(vec![KernelInstr::CallKernel(4)]));
    rt.register_kernel(scalar(vec![KernelInstr::LocalGet(0)]));
    rt.register_kernel(scalar(vec![KernelInstr::LocalGet(0)]));
    let (order, _) = rt.launch_set(0).unwrap();
    assert_eq!(order, vec![0, 1, 2, 3, 4]);
}
