//! Wasm module encoding, through `wasm_encoder`.
//!
//! Each `wasm_encoder` builder the kernel assembler uses is declared here,
//! with a name for what it holds: the instructions of a function body, the
//! entries of each section, the sections of a module.  The wrappers say how
//! each builder call changes those contents; [`finish_module`] names the
//! bytes of a module as [`wasm_binary`] of its sections.
//!
//! Every function body built here has no locals: [`new_function`] is the one
//! way one is made.  The encoder writes each section's byte length, and each
//! function body's, as a `u32`, and panics on a longer one; the wrappers that
//! add a body or a section require that length to fit.  For a code section
//! and a function body that is the length the encoder reports
//! ([`function_len`], [`code_section_len`]); for a type or function section,
//! an upper bound on it ([`types_bytes`], [`functions_bytes`]).

use vstd::prelude::*;

use wasm_encoder::{
    CodeSection, ExportKind, ExportSection, Function, FunctionSection, ImportSection, Instruction,
    Module, TypeSection, ValType,
};

verus! {

/// A wasm instruction a kernel body lowers to.
#[derive(Clone, Copy, PartialEq, Eq, Debug, Structural)]
pub enum WasmInstr {
    I64Const(i64),
    I64Add,
    I64Sub,
    I64LeS,
    I64Eq,
    I64ExtendI32U,
    I32WrapI64,
    LocalGet(u32),
    Select,
    Call(u32),
    End,
}

/// What one section of a module holds.
pub enum WasmSection {
    /// Function types, each `(params, results)` counts of `i64`s.
    Types(Seq<(nat, nat)>),
    /// Function imports, each `(module, name, type index)`.
    Imports(Seq<(Seq<char>, Seq<char>, u32)>),
    /// The type index of each defined function.
    Functions(Seq<u32>),
    /// Function exports, each `(name, function index)`.
    Exports(Seq<(Seq<char>, u32)>),
    /// The instructions of each defined function's body.
    Code(Seq<Seq<WasmInstr>>),
}

#[verifier::external_type_specification]
#[verifier::external_body]
pub struct ExFunction(Function);

#[verifier::external_type_specification]
#[verifier::external_body]
pub struct ExTypeSection(TypeSection);

#[verifier::external_type_specification]
#[verifier::external_body]
pub struct ExImportSection(ImportSection);

#[verifier::external_type_specification]
#[verifier::external_body]
pub struct ExFunctionSection(FunctionSection);

#[verifier::external_type_specification]
#[verifier::external_body]
pub struct ExExportSection(ExportSection);

#[verifier::external_type_specification]
#[verifier::external_body]
pub struct ExCodeSection(CodeSection);

#[verifier::external_type_specification]
#[verifier::external_body]
pub struct ExModule(Module);

/// The instructions written into a function body.
pub uninterp spec fn function_body(f: Function) -> Seq<WasmInstr>;

/// The function types of a type section.
pub uninterp spec fn type_entries(t: TypeSection) -> Seq<(nat, nat)>;

/// The imports of an import section.
pub uninterp spec fn import_entries(s: ImportSection) -> Seq<(Seq<char>, Seq<char>, u32)>;

/// The type indices of a function section.
pub uninterp spec fn function_entries(s: FunctionSection) -> Seq<u32>;

/// The exports of an export section.
pub uninterp spec fn export_entries(s: ExportSection) -> Seq<(Seq<char>, u32)>;

/// The function bodies of a code section.
pub uninterp spec fn code_entries(s: CodeSection) -> Seq<Seq<WasmInstr>>;

/// The sections written into a module, in order.
pub uninterp spec fn module_sections(m: Module) -> Seq<WasmSection>;

/// The binary encoding of a module with these sections.
pub uninterp spec fn wasm_binary(sections: Seq<WasmSection>) -> Seq<u8>;

/// The byte length `Function::byte_len` reports for a body of these
/// instructions (with no locals).
pub uninterp spec fn function_len(body: Seq<WasmInstr>) -> nat;

/// The byte length `CodeSection::byte_len` reports for a code section of
/// these bodies: the section's bytes without its entry count.
pub uninterp spec fn code_section_len(bodies: Seq<Seq<WasmInstr>>) -> nat;

/// The largest section payload the encoder writes: a `u32` length, less the
/// at most five bytes of the entry count before the entries.
pub open spec fn section_room() -> nat {
    (u32::MAX - 5) as nat
}

/// An upper bound on the bytes of a type section's entries: each function
/// type takes its form byte, two counts of at most five bytes each, and a
/// byte per parameter and per result.
pub open spec fn types_bytes(types: Seq<(nat, nat)>) -> nat
    decreases types.len(),
{
    if types.len() == 0 {
        0
    } else {
        types_bytes(types.drop_last()) + 11 + types.last().0 + types.last().1
    }
}

/// An upper bound on the bytes of a function section's entries: each type
/// index takes at most five bytes.
pub open spec fn functions_bytes(count: nat) -> nat {
    5 * count
}

/// `Function::new` with no locals: an empty body.
#[verifier::external_body]
pub(crate) fn new_function() -> (f: Function)
    ensures
        function_body(f) == Seq::<WasmInstr>::empty(),
{
    Function::new([])
}

/// `Function::byte_len`: the body's byte length so far.
#[verifier::external_body]
pub(crate) fn function_byte_len(f: &Function) -> (n: usize)
    ensures
        n == function_len(function_body(*f)),
{
    f.byte_len()
}

/// `CodeSection::byte_len`: the section's byte length so far, without its
/// entry count.
#[verifier::external_body]
pub(crate) fn code_byte_len(s: &CodeSection) -> (n: usize)
    ensures
        n == code_section_len(code_entries(*s)),
{
    s.byte_len()
}

/// `Function::instruction`: append one instruction to the body.
#[verifier::external_body]
pub(crate) fn push_instr(f: &mut Function, i: WasmInstr)
    ensures
        function_body(*final(f)) == function_body(*old(f)).push(i),
{
    let ins = match i {
        WasmInstr::I64Const(n) => Instruction::I64Const(n),
        WasmInstr::I64Add => Instruction::I64Add,
        WasmInstr::I64Sub => Instruction::I64Sub,
        WasmInstr::I64LeS => Instruction::I64LeS,
        WasmInstr::I64Eq => Instruction::I64Eq,
        WasmInstr::I64ExtendI32U => Instruction::I64ExtendI32U,
        WasmInstr::I32WrapI64 => Instruction::I32WrapI64,
        WasmInstr::LocalGet(k) => Instruction::LocalGet(k),
        WasmInstr::Select => Instruction::Select,
        WasmInstr::Call(k) => Instruction::Call(k),
        WasmInstr::End => Instruction::End,
    };
    f.instruction(&ins);
}

/// `TypeSection::new`: no types.
#[verifier::external_body]
pub(crate) fn new_type_section() -> (t: TypeSection)
    ensures
        type_entries(t) == Seq::<(nat, nat)>::empty(),
{
    TypeSection::new()
}

/// `TypeSection::ty().function(..)` with `params` and `results` `i64`s:
/// append one function type.  The section counts its types in a `u32`.
#[verifier::external_body]
pub(crate) fn push_i64_function_type(t: &mut TypeSection, params: usize, results: usize)
    requires
        type_entries(*old(t)).len() < u32::MAX,
        params <= u32::MAX,
        results <= u32::MAX,
    ensures
        type_entries(*final(t)) == type_entries(*old(t)).push((params as nat, results as nat)),
{
    t.ty().function(vec![ValType::I64; params], vec![ValType::I64; results]);
}

/// `ImportSection::new`: no imports.
#[verifier::external_body]
pub(crate) fn new_import_section() -> (s: ImportSection)
    ensures
        import_entries(s) == Seq::<(Seq<char>, Seq<char>, u32)>::empty(),
{
    ImportSection::new()
}

/// `ImportSection::import` of a function of type `type_index`.
#[verifier::external_body]
pub(crate) fn import_function(s: &mut ImportSection, module: &str, name: &str, type_index: u32)
    requires
        import_entries(*old(s)).len() < u32::MAX,
        module@.len() <= 0x10000,
        name@.len() <= 0x10000,
    ensures
        import_entries(*final(s)) == import_entries(*old(s)).push((module@, name@, type_index)),
{
    s.import(module, name, wasm_encoder::EntityType::Function(type_index));
}

/// `FunctionSection::new`: no functions.
#[verifier::external_body]
pub(crate) fn new_function_section() -> (s: FunctionSection)
    ensures
        function_entries(s) == Seq::<u32>::empty(),
{
    FunctionSection::new()
}

/// `FunctionSection::function`: declare one function of type `type_index`.
#[verifier::external_body]
pub(crate) fn declare_function(s: &mut FunctionSection, type_index: u32)
    requires
        function_entries(*old(s)).len() < u32::MAX,
    ensures
        function_entries(*final(s)) == function_entries(*old(s)).push(type_index),
{
    s.function(type_index);
}

/// `ExportSection::new`: no exports.
#[verifier::external_body]
pub(crate) fn new_export_section() -> (s: ExportSection)
    ensures
        export_entries(s) == Seq::<(Seq<char>, u32)>::empty(),
{
    ExportSection::new()
}

/// `ExportSection::export` of function `index` under `name`.
#[verifier::external_body]
pub(crate) fn export_function(s: &mut ExportSection, name: &str, index: u32)
    requires
        export_entries(*old(s)).len() < u32::MAX,
        name@.len() <= 0x10000,
    ensures
        export_entries(*final(s)) == export_entries(*old(s)).push((name@, index)),
{
    s.export(name, ExportKind::Func, index);
}

/// `CodeSection::new`: no bodies.
#[verifier::external_body]
pub(crate) fn new_code_section() -> (s: CodeSection)
    ensures
        code_entries(s) == Seq::<Seq<WasmInstr>>::empty(),
{
    CodeSection::new()
}

/// `CodeSection::function`: append one body.  The body's byte length is
/// written as a `u32`.
#[verifier::external_body]
pub(crate) fn push_code(s: &mut CodeSection, f: &Function)
    requires
        code_entries(*old(s)).len() < u32::MAX,
        function_len(function_body(*f)) <= u32::MAX,
    ensures
        code_entries(*final(s)) == code_entries(*old(s)).push(function_body(*f)),
{
    s.function(f);
}

/// `Module::new`: no sections.
#[verifier::external_body]
pub(crate) fn new_module() -> (m: Module)
    ensures
        module_sections(m) == Seq::<WasmSection>::empty(),
{
    Module::new()
}

/// `Module::section` with a type section.  Its byte length is written as a
/// `u32`.
#[verifier::external_body]
pub(crate) fn add_type_section(m: &mut Module, t: &TypeSection)
    requires
        types_bytes(type_entries(*t)) <= section_room(),
    ensures
        module_sections(*final(m)) == module_sections(*old(m)).push(
            WasmSection::Types(type_entries(*t)),
        ),
{
    m.section(t);
}

/// `Module::section` with an import section.  Its byte length is written as
/// a `u32`.
#[verifier::external_body]
pub(crate) fn add_import_section(m: &mut Module, s: &ImportSection)
    requires
        import_entries(*s).len() <= 0x1000,
        forall|i: int|
            0 <= i < import_entries(*s).len() ==> (#[trigger] import_entries(*s)[i]).0.len()
                <= 0x10000 && import_entries(*s)[i].1.len() <= 0x10000,
    ensures
        module_sections(*final(m)) == module_sections(*old(m)).push(
            WasmSection::Imports(import_entries(*s)),
        ),
{
    m.section(s);
}

/// `Module::section` with a function section.  Its byte length is written as
/// a `u32`.
#[verifier::external_body]
pub(crate) fn add_function_section(m: &mut Module, s: &FunctionSection)
    requires
        functions_bytes(function_entries(*s).len()) <= section_room(),
    ensures
        module_sections(*final(m)) == module_sections(*old(m)).push(
            WasmSection::Functions(function_entries(*s)),
        ),
{
    m.section(s);
}

/// `Module::section` with an export section.  Its byte length is written as
/// a `u32`.
#[verifier::external_body]
pub(crate) fn add_export_section(m: &mut Module, s: &ExportSection)
    requires
        export_entries(*s).len() <= 0x1000,
        forall|i: int|
            0 <= i < export_entries(*s).len() ==> (#[trigger] export_entries(*s)[i]).0.len()
                <= 0x10000,
    ensures
        module_sections(*final(m)) == module_sections(*old(m)).push(
            WasmSection::Exports(export_entries(*s)),
        ),
{
    m.section(s);
}

/// `Module::section` with a code section.  Its byte length is written as a
/// `u32`.
#[verifier::external_body]
pub(crate) fn add_code_section(m: &mut Module, s: &CodeSection)
    requires
        code_section_len(code_entries(*s)) <= section_room(),
    ensures
        module_sections(*final(m)) == module_sections(*old(m)).push(
            WasmSection::Code(code_entries(*s)),
        ),
{
    m.section(s);
}

/// `Module::finish`: the module's bytes.
#[verifier::external_body]
pub(crate) fn finish_module(m: Module) -> (bytes: Vec<u8>)
    ensures
        bytes@ == wasm_binary(module_sections(m)),
{
    m.finish()
}

} // verus!
