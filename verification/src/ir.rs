//! The highlevel expression IR: a dense, id-referenced tree built once by
//! the language frontend and walked by the checker.
//!
//! Not slotmap-shaped: the IR never changes structurally, never runs, and is
//! never GC'd, so a plain [`Vec`] with [`ExprId`] indices suffices.  The
//! frontend records the block-wide binding placeholder ids in
//! [`IR::block_roots`]; the checker uses that set to place its cycle-cut
//! skeleton only where a cycle can actually form.

use std::collections::HashSet;

use vstd::prelude::*;

use crate::attr::{AttrSpec, NoAttr};
use crate::program::HighProgramLiteral;

verus! {

/// A source span, supplied by the language frontend: `(line, column)`.
pub type Span = (u32, u32);

/// The static schema of an expression: which compile-time attributes ride on
/// its runtime pair and in which order.  `tail` is index-aligned with the
/// slots below the `[value, type]` head — an empty `tail` is the ordinary
/// 2-wide pair, a one-attribute tail a 3-wide pair `[value, type, attr]`.
#[derive(Clone, Debug)]
pub struct Schema<A> {
    pub tail: Vec<A>,
}

impl<A> Schema<A> {
    /// The empty-`tail` schema.
    pub fn empty() -> (s: Self)
        ensures
            s.tail@ == Seq::<A>::empty(),
    {
        Schema { tail: Vec::new() }
    }

    /// The runtime pair's arity: 2 (value, type) + one slot per attribute.
    pub fn arity(&self) -> (n: usize)
        requires
            self.tail@.len() + 2 <= usize::MAX,
        ensures
            n == self.tail@.len() + 2,
    {
        self.tail.len() + 2
    }
}

impl<A> Default for Schema<A> {
    fn default() -> (s: Self)
        ensures
            s.tail@ == Seq::<A>::empty(),
    {
        Schema::empty()
    }
}

/// An interned index into [`IR::schema_table`].  `0` is always the default
/// (empty-`tail`) schema, so a fresh [`IR::allocate`] needs no write.
#[derive(Clone, Copy, PartialEq, Eq, Debug, Structural)]
pub struct SchemaId(pub u32);

/// A binary operation on integers.  The arithmetic ops (`Add`, `Sub`) yield
/// their result; the comparisons (`Leq`, `Eq`) yield `USize(0/1)` so the
/// result can drive the lazy `Index` branch of an `if` — there is no
/// `Bool` value in the universe.
#[derive(Clone, Copy, PartialEq, Eq, Debug, Structural)]
pub enum BinOp {
    Add,
    Sub,
    Leq,
    Eq,
}

/// A dense index into [`IR::expr`].  References are pre-resolved: a
/// use of a parameter *is* the [`ExprKind::Parameter`]'s own `ExprId` (the
/// checker's scope stack is keyed by it), so the IR carries no name strings.
#[derive(Clone, Copy, PartialEq, Eq, Hash, Debug, Structural)]
pub struct ExprId(pub u32);

/// A half-open range into [`IR::children`] (as plain fields, since
/// `std::ops::Range` is not `Copy`).
#[derive(Clone, Copy, PartialEq, Eq, Debug, Structural)]
pub struct ChildRange {
    pub start: u32,
    pub end: u32,
}

/// A source-blind diagnostic location: the IR expression a check is about,
/// plus a single **recursive** descent path through its `[value, type, …]`
/// spine.
///
/// There is no distinct "kind" in lichen: `kind` is just the type's type, one
/// more `[value, type]` pairing, and that chain is unbounded (`Type : Type`).
/// So a [`LocStep::Type`] may repeat arbitrarily; a [`LocStep::Type`] followed
/// by [`LocStep::Type`] is the type's type, and so on.
#[derive(Clone, Debug)]
pub struct Loc {
    /// The IR expression the diagnostic is about.
    pub expr: ExprId,
    /// The recursive descent of [`LocStep`]s (see [`Self`]).
    pub path: Vec<LocStep>,
}

/// One step of the recursive location descent.
#[derive(Clone, Copy, PartialEq, Eq, Debug, Structural)]
pub enum LocStep {
    /// The value slot of a `[value, type]` pair (element 0).  For an atomic
    /// type expression this is that type's marker.
    Value,
    /// The type slot of a `[value, type]` pair (element 1).  Repeating reaches
    /// the type's type, ad infinitum.
    Type,
    /// An attribute-tail slot of an expression pair (element 2 + index).
    Attr(usize),
    /// Entering a tuple/array/struct structure — a compound type's element 0,
    /// the list of its fields/elements.
    Shape,
    /// Element `i` of a tuple/array/struct shape.
    Elem(usize),
}

/// The coarse category that begins a [`Loc`].
#[derive(Clone, Copy, PartialEq, Eq, Debug, Structural)]
pub enum LocKind {
    /// The expression's value slot (leading [`LocStep::Value`]).
    Value,
    /// The expression's type slot, or a further link of the type chain
    /// (leading [`LocStep::Type`]).
    Type,
    /// The expression's attribute-tail slot (leading [`LocStep::Attr`]).
    Attribute,
}

/// The category a location path begins with.
pub open spec fn loc_kind(path: Seq<LocStep>) -> LocKind {
    if path.len() == 0 {
        LocKind::Value
    } else {
        match path[0] {
            LocStep::Value => LocKind::Value,
            LocStep::Type => LocKind::Type,
            LocStep::Attr(_) => LocKind::Attribute,
            // A shape / element only appears deeper in a type's chain; the
            // leading slot is still the type of the surrounding pair.
            LocStep::Shape | LocStep::Elem(_) => LocKind::Type,
        }
    }
}

/// The number of leading [`LocStep::Type`]s of a path.
pub open spec fn leading_types(path: Seq<LocStep>) -> nat
    decreases path.len(),
{
    if path.len() > 0 && path[0] == LocStep::Type {
        1 + leading_types(path.drop_first())
    } else {
        0
    }
}

impl Loc {
    /// The coarse category the location denotes.
    pub fn kind(&self) -> (k: LocKind)
        ensures
            k == loc_kind(self.path@),
    {
        if self.path.len() == 0 {
            LocKind::Value
        } else {
            match self.path[0] {
                LocStep::Value => LocKind::Value,
                LocStep::Type => LocKind::Type,
                LocStep::Attr(_) => LocKind::Attribute,
                LocStep::Shape | LocStep::Elem(_) => LocKind::Type,
            }
        }
    }

    /// How many `[value, type]` pairings the location descends: how many
    /// leading [`LocStep::Type`]s (the first is the type, the second is the
    /// type's type, and so on, unbounded).
    pub fn type_depth(&self) -> (n: usize)
        ensures
            n == leading_types(self.path@),
    {
        let mut n: usize = 0;
        assert(self.path@.skip(0) =~= self.path@);
        while n < self.path.len() && self.path[n] == LocStep::Type
            invariant
                n <= self.path@.len(),
                forall|i: int| 0 <= i < n ==> #[trigger] self.path@[i] == LocStep::Type,
                leading_types(self.path@) == n + leading_types(self.path@.skip(n as int)),
            decreases self.path@.len() - n,
        {
            proof {
                let rest = self.path@.skip(n as int);
                assert(rest.drop_first() =~= self.path@.skip(n + 1));
            }
            n += 1;
        }
        proof {
            let rest = self.path@.skip(n as int);
            assert(leading_types(rest) == 0);
        }
        n
    }
}

/// An exported pair node of a package in the shared static registry: the
/// module it lives in and its index there.
#[derive(Clone, Copy, PartialEq, Eq, Debug, Structural)]
pub struct StaticNodeId {
    pub module: usize,
    pub index: usize,
}

#[derive(Clone, Copy, Debug)]
pub struct Expr<L> {
    pub kind: ExprKind<L>,
    pub span: Option<Span>,
}

/// The expression kinds.  Generic over the literal vocabulary `L` — a literal
/// node carries an extensible literal value (any struct that builds a
/// `value : type` pair); the built-in leaf literal wraps a raw value token.
#[derive(Clone, Copy, Debug)]
pub enum ExprKind<L> {
    /// A literal leaf — a `value : type` pair declared together.
    Literal(L),
    /// A function parameter (or, `let` desugared by the frontend, a let-bound
    /// name).  Uses of the parameter in the return expression are the
    /// parameter's own `ExprId`.
    Parameter,
    /// `{ parameter, return }` — the parameter is a [`ExprKind::Parameter`].
    /// `depth` is the count of enclosing function scopes at declaration (0
    /// for a top-level function).
    Function {
        parameter: ExprId,
        /// The annotated parameter's type (`x : T => e`), compiled in body
        /// scope.  `None` for an unannotated parameter.
        parameter_type: Option<ExprId>,
        /// The annotated parameter's attribute (`x # n => e`), compiled in
        /// body scope like `parameter_type`.
        parameter_attribute: Option<ExprId>,
        result: ExprId,
        depth: u32,
    },
    /// `{ function, argument }`.
    Apply { function: ExprId, argument: ExprId },
    /// `{ operator, left, right }` — a binary integer operation: `+`, `-`,
    /// `<=`, `==`.
    BinOp { operator: BinOp, left: ExprId, right: ExprId },
    /// `{ type_expr, value }` — struct instantiation: `s(1, 2)` wraps the
    /// positional tuple `value` in the struct type `type_expr`.
    Instantiate { type_expr: ExprId, value: ExprId },
    /// `assert(condition)` — an explicit constraint, not a unify.
    Assert { condition: ExprId },
    /// `{ array, index }` — an element read `a[i]`.
    Index { array: ExprId, index: ExprId },
    /// `{ container, key }` — a positional slot read `a(k)` over a tuple
    /// element or struct field.
    Field { container: ExprId, key: ExprId },
    /// `{ container, key }` — a table lookup `t{k}`.
    Find { container: ExprId, key: ExprId },
    /// `{ value, type?, attribute? }` — a type and/or attribute annotation.
    Annotation { value: ExprId, annotation: Option<ExprId>, attribute: Option<ExprId> },
    /// `{ parameter, return }` — a function type.
    TypeFunction { parameter: ExprId, result: ExprId },
    /// A tuple instance `[v1, ..., vn]` — one type slot per element.
    /// Elements stored in [`IR::children`].
    Tuple(ChildRange),
    /// A tuple type expression `[T1, ..., Tn]`.  Elements stored in
    /// [`IR::children`].
    TypeTuple(ChildRange),
    /// A struct type expression — the field types, kinded with a fixed
    /// `TypeStruct` marker and a fresh nominal id.  Elements stored in
    /// [`IR::children`].
    TypeStruct(ChildRange),
    /// An array instance `[v1, ..., vn]` — every element shares one type.
    /// Elements stored in [`IR::children`].
    Array(ChildRange),
    /// A constant table instance `table { k1 :: v1, k2 :: v2, … }`.  The
    /// entries are stored interleaved in [`IR::children`]: `[k1, v1, k2, v2, …]`.
    Table(ChildRange),
    /// An array instance with `~`-marked positions — `[v1, ~ v2, ~2 v3]`.
    /// Elements stored in [`IR::children`], the per-element depths in
    /// [`IR::depths`] (0 = unmarked, `usize::MAX` = the bare `~`, n = the
    /// value slot shallow at the first n levels of the element's type spine).
    ShallowArray { range: ChildRange, depths: ChildRange },
    /// `_` — an inferrable type position.
    Placeholder,
    /// A recovered-error region, masked at the frontend: an opaque leaf the
    /// checker skips.
    ErrorBlock,
    /// The real array type `{ element_type, length }`.
    TypeArray { element_type: ExprId, length: ExprId },
    /// A value imported from a package in the shared registry: the exported
    /// pair node ref.
    Static { export: StaticNodeId },
    /// `$name(args…)` — a call to a native operator registered by the
    /// compiling module's plugin.  The arguments are stored in
    /// [`IR::children`], like a tuple.
    NativeCall { op: &'static str, args: ChildRange },
}

/// The highlevel program: a pure expression tree, generic over the
/// compile-time attribute type `A` (an expression schema's tail) and the
/// literal vocabulary `L`.
#[derive(Debug)]
pub struct IR<A = NoAttr, L = HighProgramLiteral> {
    pub expr: Vec<Expr<L>>,
    /// One dense arena for all variadic children lists.
    pub children: Vec<ExprId>,
    /// One dense arena for the shallow depths of [`ExprKind::ShallowArray`]
    /// — one `usize` per element.
    pub depths: Vec<usize>,
    pub root: ExprId,
    /// The block-wide binding placeholder ids — the only `ExprId`s whose
    /// subtree can reference themselves (a self/mutual cycle).
    pub block_roots: HashSet<ExprId>,
    /// The per-expression static schema, index-aligned with [`IR::expr`] — one
    /// [`SchemaId`] each.  `allocate` stamps the default (empty-`tail`) schema.
    pub schemas: Vec<SchemaId>,
    /// The interned schema table (see [`Schema`]); [`SchemaId`]s index it.
    pub schema_table: Vec<Schema<A>>,
}

// ---------------------------------------------------------------------------
// The schema table, as specification

/// The tails of a schema table.
pub open spec fn table_view<A>(table: Seq<Schema<A>>) -> Seq<Seq<A>> {
    table.map_values(|s: Schema<A>| s.tail@)
}

/// Whether `tail` occurs in `table` before index `k`.
pub open spec fn occurs_before<A>(table: Seq<Seq<A>>, tail: Seq<A>, k: int) -> bool {
    exists|i: int| 0 <= i < k && table[i] == tail
}

/// Interning `tail` into `table`: the index of its first occurrence, or —
/// when it does not occur — the table grown by `tail` and its new index.
pub open spec fn interned<A>(table: Seq<Seq<A>>, tail: Seq<A>) -> (Seq<Seq<A>>, nat) {
    if occurs_before(table, tail, table.len() as int) {
        (
            table,
            (choose|i: int|
                0 <= i < table.len() && table[i] == tail && !occurs_before(table, tail, i)) as nat,
        )
    } else {
        (table.push(tail), table.len())
    }
}

/// No tail occurs twice in the table.
pub open spec fn distinct<A>(table: Seq<Seq<A>>) -> bool {
    forall|i: int, j: int| 0 <= i < j < table.len() ==> table[i] != table[j]
}

impl<A: AttrSpec, L> IR<A, L> {
    /// The IR's table invariant: one schema id per expression, every id
    /// naming a table entry, entry 0 the default (empty) schema, and no
    /// schema interned twice.
    pub open spec fn wf(&self) -> bool {
        &&& self.schemas@.len() == self.expr@.len()
        &&& self.schema_table@.len() >= 1
        &&& self.schema_table@.len() <= u32::MAX
        &&& table_view(self.schema_table@)[0] == Seq::<A>::empty()
        &&& distinct(table_view(self.schema_table@))
        &&& forall|i: int|
            0 <= i < self.schemas@.len() ==> (#[trigger] self.schemas@[i]).0
                < self.schema_table@.len()
    }

    /// The schema tail of expression `e`.
    pub open spec fn schema_of(&self, e: ExprId) -> Seq<A> {
        table_view(self.schema_table@)[self.schemas@[e.0 as int].0 as int]
    }

    pub fn new() -> (ir: Self)
        ensures
            ir.wf(),
            ir.expr@ == Seq::<Expr<L>>::empty(),
            ir.children@ == Seq::<ExprId>::empty(),
            ir.depths@ == Seq::<usize>::empty(),
            ir.root == ExprId(0),
            table_view(ir.schema_table@) == seq![Seq::<A>::empty()],
    {
        let mut schema_table = Vec::new();
        schema_table.push(Schema::empty());
        let ir = IR {
            expr: Vec::new(),
            children: Vec::new(),
            depths: Vec::new(),
            root: ExprId(0),
            block_roots: HashSet::new(),
            schemas: Vec::new(),
            // Slot 0 is always the default (empty-tail) schema, so a fresh
            // `allocate` (which stamps `SchemaId(0)`) needs no write.
            schema_table,
        };
        assert(table_view(ir.schema_table@) =~= seq![Seq::<A>::empty()]);
        ir
    }

    pub fn allocate(&mut self, kind: ExprKind<L>, span: Option<Span>) -> (id: ExprId)
        requires
            old(self).wf(),
        ensures
            final(self).wf(),
            id == ExprId(old(self).expr@.len() as u32),
            final(self).expr@ == old(self).expr@.push(Expr { kind, span }),
            final(self).schemas@ == old(self).schemas@.push(SchemaId(0)),
            final(self).schema_table@ == old(self).schema_table@,
            final(self).children@ == old(self).children@,
            final(self).depths@ == old(self).depths@,
            final(self).root == old(self).root,
    {
        let id = ExprId(self.expr.len() as u32);
        self.expr.push(Expr { kind, span });
        self.schemas.push(SchemaId(0));
        proof {
            assert forall|i: int| 0 <= i < self.schemas@.len() implies (
            #[trigger] self.schemas@[i]).0 < self.schema_table@.len() by {
                if i < old(self).schemas@.len() {
                    assert(self.schemas@[i] == old(self).schemas@[i]);
                }
            }
        }
        id
    }

    /// Intern a schema into the table (deduped) and return its id.
    pub fn intern_schema(&mut self, schema: Schema<A>) -> (id: SchemaId)
        requires
            old(self).wf(),
            old(self).schema_table@.len() < u32::MAX,
        ensures
            final(self).wf(),
            (table_view(final(self).schema_table@), id.0 as nat) == interned(
                table_view(old(self).schema_table@),
                schema.tail@,
            ),
            final(self).expr@ == old(self).expr@,
            final(self).schemas@ == old(self).schemas@,
            final(self).children@ == old(self).children@,
            final(self).depths@ == old(self).depths@,
            final(self).root == old(self).root,
    {
        let ghost table = table_view(self.schema_table@);
        let mut pos: usize = 0;
        while pos < self.schema_table.len()
            invariant
                pos <= self.schema_table@.len(),
                self.wf(),
                *self == *old(self),
                table == table_view(self.schema_table@),
                !occurs_before(table, schema.tail@, pos as int),
            decreases self.schema_table@.len() - pos,
        {
            if same_tail(&self.schema_table[pos].tail, &schema.tail) {
                proof {
                    assert(table[pos as int] == schema.tail@);
                    let k = pos as int;
                    assert(occurs_before(table, schema.tail@, table.len() as int));
                    let c = choose|i: int|
                        0 <= i < table.len() && table[i] == schema.tail@ && !occurs_before(
                            table,
                            schema.tail@,
                            i,
                        );
                    assert(0 <= k < table.len() && table[k] == schema.tail@ && !occurs_before(
                        table,
                        schema.tail@,
                        k,
                    ));
                    if c < k {
                        assert(occurs_before(table, schema.tail@, k));
                    }
                    if c > k {
                        assert(occurs_before(table, schema.tail@, c));
                    }
                }
                return SchemaId(pos as u32);
            }
            pos += 1;
        }
        let id = self.schema_table.len();
        let ghost tail = schema.tail@;
        self.schema_table.push(schema);
        proof {
            assert(table_view(self.schema_table@) =~= table.push(tail));
            assert forall|i: int| 0 <= i < self.schemas@.len() implies (
            #[trigger] self.schemas@[i]).0 < self.schema_table@.len() by {
                assert(self.schemas@[i] == old(self).schemas@[i]);
            }
            assert forall|i: int, j: int|
                0 <= i < j < table.push(tail).len() implies table.push(tail)[i] != table.push(
                tail,
            )[j] by {
                if j == table.len() {
                    assert(!occurs_before(table, tail, table.len() as int));
                    assert(table[i] == table.push(tail)[i]);
                }
            }
        }
        SchemaId(id as u32)
    }

    /// Stamp an already-allocated node with a schema (interned).
    pub fn set_schema(&mut self, e: ExprId, schema: Schema<A>)
        requires
            old(self).wf(),
            old(self).schema_table@.len() < u32::MAX,
            (e.0 as int) < old(self).schemas@.len(),
        ensures
            final(self).wf(),
            final(self).schema_of(e) == schema.tail@,
            table_view(final(self).schema_table@) == interned(
                table_view(old(self).schema_table@),
                schema.tail@,
            ).0,
            forall|f: ExprId|
                (f.0 as int) < old(self).schemas@.len() && f != e ==> final(self).schema_of(f)
                    == old(self).schema_of(f),
            final(self).expr@ == old(self).expr@,
            final(self).schemas@.len() == old(self).schemas@.len(),
            final(self).children@ == old(self).children@,
            final(self).depths@ == old(self).depths@,
            final(self).root == old(self).root,
    {
        let ghost tail = schema.tail@;
        let id = self.intern_schema(schema);
        proof {
            lemma_interned_resolves(table_view(old(self).schema_table@), tail);
            lemma_interned_extends(table_view(old(self).schema_table@), tail);
        }
        self.schemas.set(e.0 as usize, id);
        proof {
            assert forall|i: int| 0 <= i < self.schemas@.len() implies (
            #[trigger] self.schemas@[i]).0 < self.schema_table@.len() by {
                if i != e.0 as int {
                    assert(self.schemas@[i] == old(self).schemas@[i]);
                }
            }
            assert forall|f: ExprId|
                (f.0 as int) < old(self).schemas@.len() && f != e implies self.schema_of(f)
                == old(self).schema_of(f) by {
                assert(self.schemas@[f.0 as int] == old(self).schemas@[f.0 as int]);
            }
        }
    }

    /// The schema of an expression.
    pub fn schema(&self, e: ExprId) -> (s: &Schema<A>)
        requires
            self.wf(),
            (e.0 as int) < self.schemas@.len(),
        ensures
            s.tail@ == self.schema_of(e),
    {
        &self.schema_table[self.schemas[e.0 as usize].0 as usize]
    }

    /// Append `elements` to the children arena: the range they occupy.
    fn push_children(&mut self, elements: &[ExprId]) -> (range: ChildRange)
        requires
            old(self).wf(),
        ensures
            final(self).wf(),
            final(self).children@ == old(self).children@ + elements@,
            range == (ChildRange {
                start: old(self).children@.len() as u32,
                end: final(self).children@.len() as u32,
            }),
            final(self).expr@ == old(self).expr@,
            final(self).schemas@ == old(self).schemas@,
            final(self).schema_table@ == old(self).schema_table@,
            final(self).depths@ == old(self).depths@,
            final(self).root == old(self).root,
    {
        let start = self.children.len() as u32;
        let mut i: usize = 0;
        while i < elements.len()
            invariant
                i <= elements@.len(),
                self.wf(),
                self.children@ == old(self).children@ + elements@.take(i as int),
                self.expr@ == old(self).expr@,
                self.schemas@ == old(self).schemas@,
                self.schema_table@ == old(self).schema_table@,
                self.depths@ == old(self).depths@,
                self.root == old(self).root,
            decreases elements@.len() - i,
        {
            self.children.push(elements[i]);
            i += 1;
            assert(self.children@ =~= old(self).children@ + elements@.take(i as int));
        }
        assert(elements@.take(i as int) =~= elements@);
        ChildRange { start, end: self.children.len() as u32 }
    }

    pub fn alloc_tuple(&mut self, elements: &[ExprId], span: Option<Span>) -> (id: ExprId)
        requires
            old(self).wf(),
        ensures
            final(self).wf(),
            id == ExprId(old(self).expr@.len() as u32),
            final(self).children@ == old(self).children@ + elements@,
            final(self).expr@ == old(self).expr@.push(
                Expr {
                    kind: ExprKind::Tuple(
                        ChildRange {
                            start: old(self).children@.len() as u32,
                            end: final(self).children@.len() as u32,
                        },
                    ),
                    span,
                },
            ),
    {
        let range = self.push_children(elements);
        self.allocate(ExprKind::Tuple(range), span)
    }

    pub fn alloc_type_tuple(&mut self, elements: &[ExprId], span: Option<Span>) -> (id: ExprId)
        requires
            old(self).wf(),
        ensures
            final(self).wf(),
            id == ExprId(old(self).expr@.len() as u32),
            final(self).children@ == old(self).children@ + elements@,
            final(self).expr@ == old(self).expr@.push(
                Expr {
                    kind: ExprKind::TypeTuple(
                        ChildRange {
                            start: old(self).children@.len() as u32,
                            end: final(self).children@.len() as u32,
                        },
                    ),
                    span,
                },
            ),
    {
        let range = self.push_children(elements);
        self.allocate(ExprKind::TypeTuple(range), span)
    }

    pub fn alloc_type_struct(&mut self, elements: &[ExprId], span: Option<Span>) -> (id: ExprId)
        requires
            old(self).wf(),
        ensures
            final(self).wf(),
            id == ExprId(old(self).expr@.len() as u32),
            final(self).children@ == old(self).children@ + elements@,
            final(self).expr@ == old(self).expr@.push(
                Expr {
                    kind: ExprKind::TypeStruct(
                        ChildRange {
                            start: old(self).children@.len() as u32,
                            end: final(self).children@.len() as u32,
                        },
                    ),
                    span,
                },
            ),
    {
        let range = self.push_children(elements);
        self.allocate(ExprKind::TypeStruct(range), span)
    }

    pub fn alloc_instantiate(&mut self, type_expr: ExprId, value: ExprId, span: Option<Span>) -> (id:
        ExprId)
        requires
            old(self).wf(),
        ensures
            final(self).wf(),
            id == ExprId(old(self).expr@.len() as u32),
            final(self).children@ == old(self).children@,
            final(self).expr@ == old(self).expr@.push(
                Expr { kind: ExprKind::Instantiate { type_expr, value }, span },
            ),
    {
        self.allocate(ExprKind::Instantiate { type_expr, value }, span)
    }

    pub fn alloc_array(&mut self, elements: &[ExprId], span: Option<Span>) -> (id: ExprId)
        requires
            old(self).wf(),
        ensures
            final(self).wf(),
            id == ExprId(old(self).expr@.len() as u32),
            final(self).children@ == old(self).children@ + elements@,
            final(self).expr@ == old(self).expr@.push(
                Expr {
                    kind: ExprKind::Array(
                        ChildRange {
                            start: old(self).children@.len() as u32,
                            end: final(self).children@.len() as u32,
                        },
                    ),
                    span,
                },
            ),
    {
        let range = self.push_children(elements);
        self.allocate(ExprKind::Array(range), span)
    }

    /// Allocate a constant table literal: each `(key, value)` pair is
    /// flattened into the children arena (interleaved, entry by entry), and
    /// the expression is an [`ExprKind::Table`] over that range.
    pub fn alloc_table(&mut self, entries: &[(ExprId, ExprId)], span: Option<Span>) -> (id: ExprId)
        requires
            old(self).wf(),
        ensures
            final(self).wf(),
            id == ExprId(old(self).expr@.len() as u32),
            final(self).children@ == old(self).children@ + interleaved(entries@),
            final(self).expr@ == old(self).expr@.push(
                Expr {
                    kind: ExprKind::Table(
                        ChildRange {
                            start: old(self).children@.len() as u32,
                            end: final(self).children@.len() as u32,
                        },
                    ),
                    span,
                },
            ),
    {
        let start = self.children.len() as u32;
        let mut i: usize = 0;
        while i < entries.len()
            invariant
                i <= entries@.len(),
                self.wf(),
                start == old(self).children@.len() as u32,
                self.children@ == old(self).children@ + interleaved(entries@.take(i as int)),
                self.expr@ == old(self).expr@,
                self.schemas@ == old(self).schemas@,
                self.schema_table@ == old(self).schema_table@,
            decreases entries@.len() - i,
        {
            let (key, value) = entries[i];
            self.children.push(key);
            self.children.push(value);
            proof {
                assert(entries@.take(i + 1).drop_last() =~= entries@.take(i as int));
                assert(self.children@ =~= old(self).children@ + interleaved(entries@.take(i + 1)));
            }
            i += 1;
        }
        assert(entries@.take(i as int) =~= entries@);
        let range = ChildRange { start, end: self.children.len() as u32 };
        self.allocate(ExprKind::Table(range), span)
    }

    /// Allocate a shallow-marked array: each `(element, depth)` pair carries
    /// the element's `~` depth (0 = unmarked, `usize::MAX` = bare `~`).
    pub fn alloc_shallow_array(&mut self, elements: &[(ExprId, usize)], span: Option<Span>) -> (id:
        ExprId)
        requires
            old(self).wf(),
        ensures
            final(self).wf(),
            id == ExprId(old(self).expr@.len() as u32),
            final(self).children@ == old(self).children@ + elements@.map_values(
                |p: (ExprId, usize)| p.0,
            ),
            final(self).depths@ == old(self).depths@ + elements@.map_values(
                |p: (ExprId, usize)| p.1,
            ),
            final(self).expr@ == old(self).expr@.push(
                Expr {
                    kind: ExprKind::ShallowArray {
                        range: ChildRange {
                            start: old(self).children@.len() as u32,
                            end: final(self).children@.len() as u32,
                        },
                        depths: ChildRange {
                            start: old(self).depths@.len() as u32,
                            end: final(self).depths@.len() as u32,
                        },
                    },
                    span,
                },
            ),
    {
        let start = self.children.len() as u32;
        let dstart = self.depths.len() as u32;
        let mut i: usize = 0;
        while i < elements.len()
            invariant
                i <= elements@.len(),
                self.wf(),
                start == old(self).children@.len() as u32,
                dstart == old(self).depths@.len() as u32,
                self.children@ == old(self).children@ + elements@.take(i as int).map_values(
                    |p: (ExprId, usize)| p.0,
                ),
                self.depths@ == old(self).depths@ + elements@.take(i as int).map_values(
                    |p: (ExprId, usize)| p.1,
                ),
                self.expr@ == old(self).expr@,
                self.schemas@ == old(self).schemas@,
                self.schema_table@ == old(self).schema_table@,
            decreases elements@.len() - i,
        {
            let (element, depth) = elements[i];
            self.children.push(element);
            self.depths.push(depth);
            proof {
                assert(self.children@ =~= old(self).children@ + elements@.take(i + 1).map_values(
                    |p: (ExprId, usize)| p.0,
                ));
                assert(self.depths@ =~= old(self).depths@ + elements@.take(i + 1).map_values(
                    |p: (ExprId, usize)| p.1,
                ));
            }
            i += 1;
        }
        assert(elements@.take(i as int) =~= elements@);
        let range = ChildRange { start, end: self.children.len() as u32 };
        let depths = ChildRange { start: dstart, end: self.depths.len() as u32 };
        self.allocate(ExprKind::ShallowArray { range, depths }, span)
    }

    pub fn set_root(&mut self, root: ExprId)
        ensures
            final(self).root == root,
            final(self).expr@ == old(self).expr@,
            final(self).children@ == old(self).children@,
            final(self).depths@ == old(self).depths@,
            final(self).schemas@ == old(self).schemas@,
            final(self).schema_table@ == old(self).schema_table@,
    {
        self.root = root;
    }

    /// The expression `id` names.
    pub fn get(&self, id: ExprId) -> (e: &Expr<L>)
        requires
            (id.0 as int) < self.expr@.len(),
        ensures
            *e == self.expr@[id.0 as int],
    {
        &self.expr[id.0 as usize]
    }
}

/// A table's entries flattened key, value, key, value, ….
pub open spec fn interleaved(entries: Seq<(ExprId, ExprId)>) -> Seq<ExprId>
    decreases entries.len(),
{
    if entries.len() == 0 {
        Seq::empty()
    } else {
        interleaved(entries.drop_last()) + seq![entries.last().0, entries.last().1]
    }
}

/// Whether two schema tails hold the same attributes in the same order.
fn same_tail<A: AttrSpec>(a: &Vec<A>, b: &Vec<A>) -> (r: bool)
    ensures
        r == (a@ == b@),
{
    if a.len() != b.len() {
        return false;
    }
    let mut i: usize = 0;
    while i < a.len()
        invariant
            a@.len() == b@.len(),
            i <= a@.len(),
            forall|j: int| 0 <= j < i ==> a@[j] == b@[j],
        decreases a@.len() - i,
    {
        if !a[i].same(&b[i]) {
            return false;
        }
        i += 1;
    }
    assert(a@ =~= b@);
    true
}

// ---------------------------------------------------------------------------
// Laws of the schema table

/// The id interning returns names the interned tail, and interning only ever
/// appends: every id valid before stays valid and keeps its tail.
pub proof fn lemma_interned_resolves<A>(table: Seq<Seq<A>>, tail: Seq<A>)
    ensures
        interned(table, tail).1 < interned(table, tail).0.len(),
        interned(table, tail).0[interned(table, tail).1 as int] == tail,
{
    if occurs_before(table, tail, table.len() as int) {
        lemma_first_occurrence(table, tail);
    }
}

proof fn lemma_first_occurrence<A>(table: Seq<Seq<A>>, tail: Seq<A>)
    requires
        occurs_before(table, tail, table.len() as int),
    ensures
        exists|i: int| 0 <= i < table.len() && table[i] == tail && !occurs_before(table, tail, i),
    decreases table.len(),
{
    let k = choose|k: int| 0 <= k < table.len() && table[k] == tail;
    lemma_first_below(table, tail, k);
}

proof fn lemma_first_below<A>(table: Seq<Seq<A>>, tail: Seq<A>, k: int)
    requires
        0 <= k < table.len(),
        table[k] == tail,
    ensures
        exists|i: int| 0 <= i < table.len() && table[i] == tail && !occurs_before(table, tail, i),
    decreases k,
{
    if occurs_before(table, tail, k) {
        let j = choose|j: int| 0 <= j < k && table[j] == tail;
        lemma_first_below(table, tail, j);
    } else {
        assert(0 <= k < table.len() && table[k] == tail && !occurs_before(table, tail, k));
    }
}

/// Interning only appends: the old table is a prefix of the new one.
pub proof fn lemma_interned_extends<A>(table: Seq<Seq<A>>, tail: Seq<A>)
    ensures
        interned(table, tail).0.len() >= table.len(),
        interned(table, tail).0.subrange(0, table.len() as int) == table,
{
    assert(interned(table, tail).0.subrange(0, table.len() as int) =~= table);
}

/// Interning is idempotent: interning a tail that was just interned returns
/// the same id and leaves the table as it was.
pub proof fn law_intern_idempotent<A>(table: Seq<Seq<A>>, tail: Seq<A>)
    ensures
        interned(interned(table, tail).0, tail) == interned(table, tail),
{
    let (t1, id1) = interned(table, tail);
    lemma_interned_resolves(table, tail);
    assert(occurs_before(t1, tail, t1.len() as int));
    lemma_first_occurrence(t1, tail);
    let c = choose|i: int| 0 <= i < t1.len() && t1[i] == tail && !occurs_before(t1, tail, i);
    if occurs_before(table, tail, table.len() as int) {
        assert(t1 == table);
        let c0 = choose|i: int|
            0 <= i < table.len() && table[i] == tail && !occurs_before(table, tail, i);
        assert(c == c0) by {
            if c < c0 {
                assert(occurs_before(table, tail, c0));
            }
            if c > c0 {
                assert(occurs_before(t1, tail, c));
            }
        }
    } else {
        assert(t1[table.len() as int] == tail);
        assert(c == table.len()) by {
            if c < table.len() {
                assert(t1[c] == table[c]);
                assert(occurs_before(table, tail, table.len() as int));
            }
            if c > table.len() {
                assert(occurs_before(t1, tail, c));
            }
        }
    }
}

/// Interning keeps the table free of duplicates, and two tails get the same
/// id exactly when they are the same tail.
pub proof fn law_intern_distinct<A>(table: Seq<Seq<A>>, a: Seq<A>, b: Seq<A>)
    requires
        distinct(table),
    ensures
        distinct(interned(table, a).0),
        interned(interned(table, a).0, b).1 == interned(table, a).1 <==> a == b,
{
    let (t1, ia) = interned(table, a);
    lemma_interned_resolves(table, a);
    lemma_interned_extends(table, a);
    assert forall|i: int, j: int| 0 <= i < j < t1.len() implies t1[i] != t1[j] by {
        if j >= table.len() {
            assert(!occurs_before(table, a, table.len() as int));
            assert(t1[i] == table[i]);
        }
    }
    let (t2, ib) = interned(t1, b);
    lemma_interned_resolves(t1, b);
    lemma_interned_extends(t1, b);
    if a == b {
        law_intern_idempotent(table, a);
    } else {
        if ib == ia {
            assert(t2[ib as int] == b);
            assert(t2[ia as int] == t1[ia as int]);
        }
    }
}


/// Interning into a duplicate-free table: the id names the tail; a tail
/// already in the table leaves the table as it was and gets the one position
/// holding it; a new tail is appended, with the old length as its id; and the
/// table stays duplicate-free.
pub proof fn law_intern_places<A>(table: Seq<Seq<A>>, tail: Seq<A>)
    requires
        distinct(table),
    ensures
        interned(table, tail).1 < interned(table, tail).0.len(),
        interned(table, tail).0[interned(table, tail).1 as int] == tail,
        table.contains(tail) ==> interned(table, tail).0 == table && forall|i: int|
            0 <= i < table.len() && table[i] == tail ==> i == interned(table, tail).1,
        !table.contains(tail) ==> interned(table, tail).0 == table.push(tail) && interned(
            table,
            tail,
        ).1 == table.len(),
        distinct(interned(table, tail).0),
{
    lemma_interned_resolves(table, tail);
    law_intern_distinct(table, tail, tail);
    if table.contains(tail) {
        let k = choose|k: int| 0 <= k < table.len() && table[k] == tail;
        assert(occurs_before(table, tail, table.len() as int));
    } else {
        assert(!occurs_before(table, tail, table.len() as int)) by {
            if occurs_before(table, tail, table.len() as int) {
                let k = choose|k: int| 0 <= k < table.len() && table[k] == tail;
                assert(table.contains(tail));
            }
        }
    }
}

impl<A: AttrSpec, L> Default for IR<A, L> {
    fn default() -> (ir: Self)
        ensures
            ir.wf(),
            ir.expr@ == Seq::<Expr<L>>::empty(),
            ir.children@ == Seq::<ExprId>::empty(),
            ir.depths@ == Seq::<usize>::empty(),
            ir.root == ExprId(0),
            table_view(ir.schema_table@) == seq![Seq::<A>::empty()],
    {
        Self::new()
    }
}

} // verus!
