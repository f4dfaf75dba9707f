# lichen

The verified core of the Lichen language toolchain, written in Verus.

- `src/` — the library.  Every executable function carries a contract
  Verus proves, except the trusted items in `encode` and `vm`, whose
  contracts are assumed of `wasm-encoder` and `wasmi`.
  - `lex`, `render`, `diag` — the lexer, diagnostic rendering.
  - `ir`, `attr`, `program`, `checker`, `diagnostic`, `plugin` — the highlevel
    expression IR and the vocabulary around it.
  - `ast`, `names` — the parsed AST, semantic name classification and name
    resolution with its scope rules.
  - `lsp`, `analysis`, `print`, `home` — the language server's span and
    position arithmetic, semantic-token encoding and type-string helpers.
  - `compute`, `assemble`, `launch` — the compute plugin: kernel registries,
    launch sets, lowering kernels to wasm and assembling modules, running
    kernels and parallel kernels.
  - `encode`, `vm` — the trusted boundary to `wasm-encoder` and `wasmi`: each
    item states what it assumes of the outside crate.
- `tests/` — tests that run the compiled library, wasm execution included.
- `app/` — the unverified shell: `lsp-types` conversions, the process-wide
  compute runtime, and Lichen Home on disk.

Not in this crate: the type checker (which compiles the IR into lowlevel
modules and runs their unification), the kernel compiler that lowers a
lowlevel function's node graph to kernel instructions, the reading of a
compute operator's operand off lowlevel nodes (the library takes it as an
`Operand`), the printer of lowlevel types, the
document frontend behind hover, definitions and diagnostics, `evaluate`, and
the language server's request loop.  They are built on the lowlevel VM, the
parser and the async LSP server crates, which this library does not depend
on.
