//! Running assembled kernels, through `wasmi`.
//!
//! A kernel module is deterministic: instantiating it and calling its export
//! once is named as a function of the module's bytes, the export's name and
//! the call's arguments ([`main_setup`], [`main_call`]).  A parallel kernel
//! runs against host-side buffers — the [`ParallelState`] a `wasmi` store
//! carries — read and written by two host imports that call
//! [`ParallelState::read`] and [`ParallelState::write`]; instantiating it,
//! and each call's effect on the output buffer, are named as functions of the
//! module, the host imports it is linked against, the buffers before and the
//! call's arguments ([`parallel_setup`], [`parallel_call`]).

use vstd::prelude::*;

use crate::encode::{wasm_binary, WasmSection};
use wasmi::{Caller, Engine, Func, FuncType, Linker, Module, Store, Val, ValType};

verus! {

/// The execution state a parallel kernel's host imports read and write: the
/// input buffers (indexed by cfg position) and the one output buffer (indexed
/// by element).
pub struct ParallelState {
    pub inputs: Vec<Vec<i64>>,
    pub output: Vec<i64>,
}

/// The value at `idx` of input buffer `pos`, or 0 past either end (a
/// negative index wraps past the end).
pub open spec fn read_value(inputs: Seq<Seq<i64>>, pos: i64, idx: i64) -> i64 {
    let p = pos as usize as int;
    let i = idx as usize as int;
    if p < inputs.len() && i < inputs[p].len() {
        inputs[p][i]
    } else {
        0
    }
}

/// The output buffer after writing `value` at `idx` (no change past the end;
/// a negative index wraps past the end).
pub open spec fn written(output: Seq<i64>, idx: i64, value: i64) -> Seq<i64> {
    let i = idx as usize as int;
    if i < output.len() {
        output.update(i, value)
    } else {
        output
    }
}

impl ParallelState {
    /// The host `read(cfg_pos, idx)` import.
    pub fn read(&self, pos: i64, idx: i64) -> (v: i64)
        ensures
            v == read_value(self.inputs@.map_values(|b: Vec<i64>| b@), pos, idx),
    {
        let p = pos as usize;
        let i = idx as usize;
        if p < self.inputs.len() && i < self.inputs[p].len() {
            self.inputs[p][i]
        } else {
            0
        }
    }

    /// The host `write(out_pos, idx, val)` import: the last write to a slot
    /// wins.
    pub fn write(&mut self, idx: i64, value: i64)
        ensures
            final(self).output@ == written(old(self).output@, idx, value),
            final(self).inputs == old(self).inputs,
    {
        let i = idx as usize;
        if i < self.output.len() {
            self.output.set(i, value);
        }
    }
}

#[verifier::external_type_specification]
#[verifier::external_body]
#[verifier::reject_recursive_types(T)]
pub struct ExStore<T>(Store<T>);

#[verifier::external_type_specification]
#[verifier::external_body]
pub struct ExFunc(Func);

#[verifier::external_type_specification]
#[verifier::external_body]
pub struct ExEngine(Engine);

#[verifier::external_type_specification]
#[verifier::external_body]
#[verifier::reject_recursive_types(T)]
pub struct ExLinker<T>(Linker<T>);

/// A host function a parallel kernel imports.
#[derive(Clone, Copy, PartialEq, Eq, Debug, Structural)]
pub enum HostImport {
    /// `read(cfg_pos, idx) -> i64`: [`ParallelState::read`].
    Read,
    /// `write(out_pos, idx, val)`: [`ParallelState::write`].
    Write,
}

/// What instantiating module `code` gives: the error message when it does
/// not load or instantiate, or whether it has an export `name`.
pub uninterp spec fn main_setup(code: Seq<u8>, name: Seq<char>) -> Result<bool, Seq<char>>;

/// What the first call of export `name` of a fresh instance of module `code`
/// with the `i64` arguments `args` gives: the error message of a failed
/// call, or its one result when that is an `i64`.
pub uninterp spec fn main_call(code: Seq<u8>, name: Seq<char>, args: Seq<i64>) -> Result<
    Option<i64>,
    Seq<char>,
>;

/// The host functions a linker defines, in order: `(module, name, function)`.
pub uninterp spec fn linker_defs(l: Linker<ParallelState>) -> Seq<(Seq<char>, Seq<char>, HostImport)>;

/// What instantiating module `code` against the host functions `defs` with
/// input buffers `inputs` and output buffer `output` gives: the error message
/// when it does not load or instantiate, no export `name`, or the output
/// buffer after the module's start function (if any) ran.
pub uninterp spec fn parallel_setup(
    code: Seq<u8>,
    name: Seq<char>,
    defs: Seq<(Seq<char>, Seq<char>, HostImport)>,
    inputs: Seq<Seq<i64>>,
    output: Seq<i64>,
) -> Result<Option<Seq<i64>>, Seq<char>>;

/// The output buffer after one call of the export `name` of module `code`
/// with `args`, against the host functions `defs`, input buffers `inputs`
/// and output buffer `output` (or the error message of a failed call).  It
/// is applied only to a [`kernel_module`], whose instance holds no state of
/// its own between calls: the host buffers are all that one call leaves for
/// the next.
pub uninterp spec fn parallel_call(
    code: Seq<u8>,
    name: Seq<char>,
    defs: Seq<(Seq<char>, Seq<char>, HostImport)>,
    inputs: Seq<Seq<i64>>,
    output: Seq<i64>,
    args: Seq<i64>,
) -> Result<Seq<i64>, Seq<char>>;

/// The input buffers a store's host state holds.
pub uninterp spec fn store_inputs(s: Store<ParallelState>) -> Seq<Seq<i64>>;

/// The output buffer a store's host state holds.
pub uninterp spec fn store_output(s: Store<ParallelState>) -> Seq<i64>;

/// Whether `code` is the encoding of a module built from [`WasmSection`]s:
/// function types, function imports, function declarations, function
/// exports and straight-line bodies of [`WasmInstr`]s.  Such a module has no
/// start function, no globals, no memory and no table, and no loop or
/// branch: each call returns (or traps, when calls nest past the engine's
/// recursion limit), and an instance holds no state of its own between
/// calls.
pub open spec fn kernel_module(code: Seq<u8>) -> bool {
    exists|sections: Seq<WasmSection>| code == wasm_binary(sections)
}

/// A fresh instance of a kernel module and its export, not yet called.
/// Made only in this module, from one engine.
pub struct MainRun {
    store: Store<()>,
    main: Func,
    code: Ghost<Seq<u8>>,
    name: Ghost<Seq<char>>,
}

/// An engine and a linker over it for parallel kernels.  Made only in this
/// module, so the linker and every store made for it share the engine.
pub struct ParallelLinker {
    engine: Engine,
    linker: Linker<ParallelState>,
}

/// An instantiated parallel kernel: its store, its export and the module
/// and host functions it was instantiated from.  Made only in this module.
pub struct ParallelRun {
    store: Store<ParallelState>,
    main: Func,
    code: Ghost<Seq<u8>>,
    name: Ghost<Seq<char>>,
    defs: Ghost<Seq<(Seq<char>, Seq<char>, HostImport)>>,
}

/// Load module `code` with `wasmi`, instantiate it (running its start
/// function, if any) and find its export `name`.
#[verifier::external_body]
fn load_main(code: &[u8], name: &str) -> (r: Result<Option<MainRun>, String>)
    requires
        kernel_module(code@),
    ensures
        match r {
            Ok(Some(run)) => main_setup(code@, name@) == Ok::<bool, Seq<char>>(true)
                && run.code@ == code@ && run.name@ == name@,
            Ok(None) => main_setup(code@, name@) == Ok::<bool, Seq<char>>(false),
            Err(e) => main_setup(code@, name@) == Err::<bool, Seq<char>>(e@),
        },
{
    let engine = Engine::default();
    let module = Module::new(&engine, code).map_err(|e| e.to_string())?;
    let mut store = Store::new(&engine, ());
    let instance = Linker::new(&engine).instantiate_and_start(&mut store, &module).map_err(|e| e.to_string())?;
    let Some(main) = instance.get_func(&store, name) else { return Ok(None) };
    Ok(Some(MainRun { store, main, code: Ghost(code@), name: Ghost(name@) }))
}

/// Call a fresh instance's export once with the `i64` arguments `args`, for
/// one result.
#[verifier::external_body]
fn call_main(run: MainRun, args: &[i64]) -> (r: Result<Option<i64>, String>)
    requires
        kernel_module(run.code@),
    ensures
        match r {
            Ok(v) => main_call(run.code@, run.name@, args@) == Ok::<Option<i64>, Seq<char>>(v),
            Err(e) => main_call(run.code@, run.name@, args@) == Err::<Option<i64>, Seq<char>>(e@),
        },
{
    let MainRun { mut store, main, .. } = run;
    let inputs: Vec<Val> = args.iter().map(|&a| Val::I64(a)).collect();
    let mut outputs = [Val::I64(0)];
    main.call(&mut store, &inputs, &mut outputs).map_err(|e| e.to_string())?;
    Ok(outputs[0].i64())
}

/// A fresh `wasmi` engine and a linker over it, defining no host functions.
#[verifier::external_body]
fn new_parallel_linker() -> (l: ParallelLinker)
    ensures
        linker_defs(l.linker) == Seq::<(Seq<char>, Seq<char>, HostImport)>::empty(),
{
    let engine = Engine::default();
    let linker = Linker::new(&engine);
    ParallelLinker { engine, linker }
}

/// `Linker::func_new` of the host function `module.name` of type
/// `(i64, i64) -> i64`, calling [`ParallelState::read`].  The linker refuses
/// a second definition of a name.
#[verifier::external_body]
fn define_read_import(l: &mut ParallelLinker, module: &str, name: &str) -> (r: Result<(), String>)
    ensures
        r is Ok <==> !defines(linker_defs(old(l).linker), module@, name@),
        linker_defs(final(l).linker) == if r is Ok {
            linker_defs(old(l).linker).push((module@, name@, HostImport::Read))
        } else {
            linker_defs(old(l).linker)
        },
{
    let ty = FuncType::new([ValType::I64, ValType::I64], [ValType::I64]);
    let read = |c: Caller<'_, ParallelState>, p: &[Val], r: &mut [Val]| {
        r[0] = Val::I64(c.data().read(p[0].i64().unwrap_or(0), p[1].i64().unwrap_or(0)));
        Ok(())
    };
    l.linker.func_new(module, name, ty, read).map(|_| ()).map_err(|e| e.to_string())
}

/// `Linker::func_new` of the host function `module.name` of type
/// `(i64, i64, i64) -> ()`, calling [`ParallelState::write`].  The linker
/// refuses a second definition of a name.
#[verifier::external_body]
fn define_write_import(l: &mut ParallelLinker, module: &str, name: &str) -> (r: Result<(), String>)
    ensures
        r is Ok <==> !defines(linker_defs(old(l).linker), module@, name@),
        linker_defs(final(l).linker) == if r is Ok {
            linker_defs(old(l).linker).push((module@, name@, HostImport::Write))
        } else {
            linker_defs(old(l).linker)
        },
{
    let ty = FuncType::new([ValType::I64, ValType::I64, ValType::I64], []);
    let write = |mut c: Caller<'_, ParallelState>, p: &[Val], _: &mut [Val]| {
        c.data_mut().write(p[1].i64().unwrap_or(0), p[2].i64().unwrap_or(0));
        Ok(())
    };
    l.linker.func_new(module, name, ty, write).map(|_| ()).map_err(|e| e.to_string())
}

/// Whether `defs` defines `module.name`.
pub open spec fn defines(defs: Seq<(Seq<char>, Seq<char>, HostImport)>, module: Seq<char>, name: Seq<char>) -> bool {
    exists|i: int| 0 <= i < defs.len() && defs[i].0 == module && defs[i].1 == name
}

/// Load module `code` with the linker's engine, instantiate it against the
/// linker's host functions with `state` as the host state (running its start
/// function, if any) and find its export `name`.  The host functions never
/// change the input buffers.
#[verifier::external_body]
fn instantiate_parallel(l: ParallelLinker, code: &[u8], name: &str, state: ParallelState) -> (r: Result<Option<ParallelRun>, String>)
    requires
        kernel_module(code@),
    ensures
        ({
            let defs = linker_defs(l.linker);
            let setup = parallel_setup(code@, name@, defs, state.inputs@.map_values(|b: Vec<i64>| b@), state.output@);
            match r {
                Ok(Some(run)) => run.code@ == code@ && run.name@ == name@ && run.defs@ == defs
                    && store_inputs(run.store) == state.inputs@.map_values(|b: Vec<i64>| b@)
                    && setup == Ok::<Option<Seq<i64>>, Seq<char>>(Some(store_output(run.store))),
                Ok(None) => setup == Ok::<Option<Seq<i64>>, Seq<char>>(None),
                Err(e) => setup == Err::<Option<Seq<i64>>, Seq<char>>(e@),
            }
        }),
{
    let module = Module::new(&l.engine, code).map_err(|e| e.to_string())?;
    let mut store = Store::new(&l.engine, state);
    let instance = l.linker.instantiate_and_start(&mut store, &module).map_err(|e| e.to_string())?;
    let Some(main) = instance.get_func(&store, name) else { return Ok(None) };
    let (code, name, defs) = (Ghost(code@), Ghost(name@), Ghost(linker_defs(l.linker)));
    Ok(Some(ParallelRun { store, main, code, name, defs }))
}

/// Call a parallel run's export once with the `i64` arguments `args`.
#[verifier::external_body]
fn call_parallel(run: &mut ParallelRun, args: &[i64]) -> (r: Result<(), String>)
    requires
        kernel_module(old(run).code@),
    ensures
        final(run).code@ == old(run).code@,
        final(run).name@ == old(run).name@,
        final(run).defs@ == old(run).defs@,
        store_inputs(final(run).store) == store_inputs(old(run).store),
        match parallel_call(
            old(run).code@,
            old(run).name@,
            old(run).defs@,
            store_inputs(old(run).store),
            store_output(old(run).store),
            args@,
        ) {
            Ok(out) => r is Ok && store_output(final(run).store) == out,
            Err(e) => r matches Err(m) && m@ == e,
        },
{
    let inputs: Vec<Val> = args.iter().map(|&a| Val::I64(a)).collect();
    let mut outputs = [Val::I64(0)];
    run.main.call(&mut run.store, &inputs, &mut outputs).map_err(|e| e.to_string())
}

/// The output buffer of a finished parallel run.
#[verifier::external_body]
fn into_output(run: ParallelRun) -> (out: Vec<i64>)
    ensures
        out@ == store_output(run.store),
{
    run.store.into_data().output
}

/// The host functions a parallel kernel is linked against: `env.read` and
/// `env.write`.
pub open spec fn parallel_host() -> Seq<(Seq<char>, Seq<char>, HostImport)> {
    seq![("env"@, "read"@, HostImport::Read), ("env"@, "write"@, HostImport::Write)]
}

/// The output buffer after calling the export `main` of a parallel kernel
/// once per index of `[i, count)`, each call with `(count, index)`.
pub open spec fn parallel_steps(
    code: Seq<u8>,
    host: Seq<(Seq<char>, Seq<char>, HostImport)>,
    inputs: Seq<Seq<i64>>,
    output: Seq<i64>,
    count: usize,
    i: int,
) -> Result<Seq<i64>, Seq<char>>
    decreases count - i,
{
    if i < 0 || i >= count {
        Ok(output)
    } else {
        match parallel_call(code, "main"@, host, inputs, output, seq![count as i64, i as usize as i64]) {
            Ok(out) => parallel_steps(code, host, inputs, out, count, i + 1),
            Err(e) => Err(e),
        }
    }
}

/// Instantiate kernel module `code` and call its export `name` once with
/// `args`: the error of a failed load, instantiation or call, `None` when
/// there is no such export, `Some(None)` when the call's result is not one
/// `i64`.
pub(crate) fn run_main(code: &[u8], name: &str, args: &[i64]) -> (r: Result<Option<Option<i64>>, String>)
    requires
        kernel_module(code@),
    ensures
        match main_setup(code@, name@) {
            Err(e) => r matches Err(m) && m@ == e,
            Ok(false) => r == Ok::<Option<Option<i64>>, String>(None),
            Ok(true) => match main_call(code@, name@, args@) {
                Ok(v) => r == Ok::<Option<Option<i64>>, String>(Some(v)),
                Err(e) => r matches Err(m) && m@ == e,
            },
        },
{
    match load_main(code, name) {
        Err(e) => Err(e),
        Ok(None) => Ok(None),
        Ok(Some(run)) => match call_main(run, args) {
            Ok(v) => Ok(Some(v)),
            Err(e) => Err(e),
        },
    }
}

/// Instantiate parallel kernel module `code` against the host functions
/// `env.read` and `env.write`, with input buffers `inputs` and output buffer
/// `output`, and call its export `main` once per index of `[0, count)` with
/// `(count, index)`: the output buffer at the end, `None` when there is no
/// export `main`, or the error of a failed load, instantiation or call.
pub(crate) fn run_parallel(code: &[u8], inputs: Vec<Vec<i64>>, output: Vec<i64>, count: usize) -> (r: Result<
    Option<Vec<i64>>,
    String,
>)
    requires
        kernel_module(code@),
    ensures
        match parallel_setup(
            code@,
            "main"@,
            parallel_host(),
            inputs@.map_values(|b: Vec<i64>| b@),
            output@,
        ) {
            Err(e) => r matches Err(m) && m@ == e,
            Ok(None) => r matches Ok(None),
            Ok(Some(started)) => match parallel_steps(
                code@,
                parallel_host(),
                inputs@.map_values(|b: Vec<i64>| b@),
                started,
                count,
                0,
            ) {
                Ok(out) => r matches Ok(Some(v)) && v@ == out,
                Err(e) => r matches Err(m) && m@ == e,
            },
        },
{
    let ghost input_view = inputs@.map_values(|b: Vec<i64>| b@);
    let ghost output0 = output@;
    proof {
        reveal_strlit("main");
        reveal_strlit("env");
        reveal_strlit("read");
        reveal_strlit("write");
    }
    let state = ParallelState { inputs, output };
    let mut linker = new_parallel_linker();
    let read = define_read_import(&mut linker, "env", "read");
    assert(read is Ok);
    let write = define_write_import(&mut linker, "env", "write");
    assert(write is Ok) by {
        assert("read"@.len() != "write"@.len());
    }
    assert(linker_defs(linker.linker) == parallel_host());
    let mut run = match instantiate_parallel(linker, code, "main", state) {
        Err(e) => {
            return Err(e);
        },
        Ok(None) => {
            return Ok(None);
        },
        Ok(Some(run)) => run,
    };
    let ghost started = store_output(run.store);
    let mut i: usize = 0;
    while i < count
        invariant
            i <= count,
            kernel_module(code@),
            run.code@ == code@,
            run.name@ == "main"@,
            run.defs@ == parallel_host(),
            store_inputs(run.store) == input_view,
            input_view == inputs@.map_values(|b: Vec<i64>| b@),
            output0 == output@,
            parallel_setup(code@, "main"@, parallel_host(), input_view, output0)
                == Ok::<Option<Seq<i64>>, Seq<char>>(Some(started)),
            parallel_steps(code@, parallel_host(), input_view, store_output(run.store), count, i as int)
                == parallel_steps(code@, parallel_host(), input_view, started, count, 0),
        decreases count - i,
    {
        let args: [i64; 2] = [count as i64, i as i64];
        assert(args@ =~= seq![count as i64, i as usize as i64]);
        let ghost before = store_output(run.store);
        match call_parallel(&mut run, &args) {
            Ok(()) => {},
            Err(e) => {
                proof {
                    assert(parallel_steps(code@, parallel_host(), input_view, before, count, i as int)
                        == Err::<Seq<i64>, Seq<char>>(e@));
                }
                return Err(e);
            },
        }
        i += 1;
    }
    Ok(Some(into_output(run)))
}

} // verus!
