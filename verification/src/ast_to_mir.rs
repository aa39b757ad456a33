//! Lowering parsed source declarations into MIR.
//!
//! A project converts in two phases: discovery walks every unit's top-level
//! declarations and inserts placeholder entries keyed by name with
//! insert-if-absent semantics, so calls resolve by name regardless of
//! cross-unit ordering; body lowering then re-walks the units and replaces
//! each defined function's placeholder with a fully lowered CFG.
//!
//! CFG lowering keeps a cursor over the current block. Sequential statements
//! append to it; each branching construct allocates fresh block ids for its
//! successor paths, finalizes the current block's terminator to reference
//! them, and continues in the new blocks. Convergence points receive a
//! dedicated merge block every incoming path jumps to. Every block ends in
//! exactly one terminator; there is no implicit fallthrough.

use vstd::prelude::*;
use core::mem;
use crate::mir::{
    BasicBlock, BasicBlockId, BinOp, Function, GlobalVar, LValue, ProjectMIR, RValue, Statement,
    Terminator, Type, UnOp, VarId, terminator_targets_ok, wf_function, wf_project, has_function,
    cfg_well_formed, params_slots_sequential, blocks_contiguous,
};
use crate::analysis::liveness::{
    args_reads, block_slots_below, fn_slots_below, lvalue_target_reads, lvalue_target_writes,
    lvalue_value_reads, rvalue_reads, set_below, stmt_reads, stmt_writes, term_reads,
};
use crate::analysis::project_analyzable;
use crate::text::str_eq;

verus! {

// ---------------------------------------------------------------------------
// The parsed source declarations the frontend hands over.
// ---------------------------------------------------------------------------

/// A source type as the frontend reports it; an unrecognized name lowers to
/// `Unknown` with a warning, never a failure.
#[derive(Debug)]
pub enum SrcType {
    Int,
    Float,
    Void,
    Pointer(Box<SrcType>),
    Named(String),
}

/// A place a source statement can assign to.
#[derive(Debug)]
pub enum SrcPlace {
    Name(String),
    Deref(Box<SrcExpr>),
}

/// A source expression.
#[derive(Debug)]
pub enum SrcExpr {
    Name(String),
    Constant(i32),
    Binary(BinOp, Box<SrcExpr>, Box<SrcExpr>),
    Unary(UnOp, Box<SrcExpr>),
    AddressOf(Box<SrcPlace>),
}

/// A source statement.
#[derive(Debug)]
pub enum SrcStmt {
    Decl { name: String, ty: SrcType, init: Option<SrcExpr> },
    Assign { target: SrcPlace, value: SrcExpr },
    Call { target: Option<SrcPlace>, callee: String, args: Vec<SrcExpr> },
    Return(Option<SrcExpr>),
    If { cond: SrcExpr, then_body: Vec<SrcStmt>, else_body: Vec<SrcStmt> },
    While { cond: SrcExpr, body: Vec<SrcStmt> },
    Block(Vec<SrcStmt>),
}

/// A function declaration; `body` is `None` for a bare declaration.
#[derive(Debug)]
pub struct SrcFunctionDecl {
    pub name: Option<String>,
    pub return_type: Option<SrcType>,
    pub params: Vec<SrcParam>,
    pub body: Option<Vec<SrcStmt>>,
    pub is_static: bool,
}

/// A declared parameter; an entity without a resolvable name or type fails
/// its function's conversion.
#[derive(Debug)]
pub struct SrcParam {
    pub name: Option<String>,
    pub ty: Option<SrcType>,
}

/// A global variable declaration.
#[derive(Debug)]
pub struct SrcGlobalDecl {
    pub name: Option<String>,
    pub ty: Option<SrcType>,
    pub is_static: bool,
    pub is_public: bool,
}

/// One top-level declaration.
#[derive(Debug)]
pub enum SrcDecl {
    Function(SrcFunctionDecl),
    Global(SrcGlobalDecl),
}

/// One parsed compilation unit.
#[derive(Debug)]
pub struct SrcUnit {
    pub file: String,
    pub decls: Vec<SrcDecl>,
}

/// Why one function's conversion failed; the rest of the project still
/// converts.
#[derive(Debug)]
pub enum BuilderError {
    UnnamedFunction,
    UnnamedParameter,
    UntypedParameter,
    UnresolvedName(String),
    TooManySlots,
    TooManyBlocks,
}

// ---------------------------------------------------------------------------
// Type lowering.
// ---------------------------------------------------------------------------

/// The exact correspondence between a source type and its lowered MIR type:
/// pointee types recurse, any named (unrecognized) type maps to `Unknown`.
pub open spec fn type_matches(s: SrcType, t: Type) -> bool
    decreases s,
{
    match s {
        SrcType::Int => t == Type::Int,
        SrcType::Float => t == Type::Float,
        SrcType::Void => t == Type::Void,
        SrcType::Pointer(inner) => match t {
            Type::Pointer(ti) => type_matches(*inner, *ti),
            _ => false,
        },
        SrcType::Named(_) => t == Type::Unknown,
    }
}

/// How many unrecognized (named) types this source type holds.
pub open spec fn named_type_count(s: SrcType) -> nat
    decreases s,
{
    match s {
        SrcType::Pointer(inner) => named_type_count(*inner),
        SrcType::Named(_) => 1,
        _ => 0,
    }
}

/// Lowers one source type. Total: an unrecognized type becomes `Unknown`
/// and a warning is recorded — one per named type, earlier warnings kept;
/// lowering never fails here.
pub fn convert_src_type(s: &SrcType, warnings: &mut Vec<String>) -> (t: Type)
    ensures
        type_matches(*s, t),
        final(warnings)@.len() == old(warnings)@.len() + named_type_count(*s),
        forall|j: int|
            0 <= j < old(warnings)@.len() ==> final(warnings)@[j] == old(warnings)@[j],
    decreases *s,
{
    match s {
        SrcType::Int => Type::Int,
        SrcType::Float => Type::Float,
        SrcType::Void => Type::Void,
        SrcType::Pointer(inner) => {
            let ti = convert_src_type(inner, warnings);
            Type::Pointer(Box::new(ti))
        },
        SrcType::Named(n) => {
            let mut w = String::new();
            w.append("unrecognized type lowered to the unknown type: ");
            w.append(n.as_str());
            warnings.push(w);
            Type::Unknown
        },
    }
}

// ---------------------------------------------------------------------------
// Scopes: a name-to-slot table, one table per lexical block, with shadowing
// through a scope stack.
// ---------------------------------------------------------------------------

/// One name-to-slot binding.
#[derive(Debug)]
pub struct Binding {
    pub name: String,
    pub slot: VarId,
}

/// The scope stack as a sequence of binding lists, outermost first.
pub open spec fn sv(scopes: Vec<Vec<Binding>>) -> Seq<Seq<Binding>> {
    Seq::new(scopes@.len() as nat, |i: int| scopes@[i]@)
}

/// The latest binding of a name within one scope, if any.
pub open spec fn lookup_in_scope(sc: Seq<Binding>, name: Seq<char>) -> Option<VarId>
    decreases sc.len(),
{
    if sc.len() == 0 {
        None
    } else if sc.last().name@ == name {
        Some(sc.last().slot)
    } else {
        lookup_in_scope(sc.drop_last(), name)
    }
}

/// Resolution through the scope stack: inner declarations shadow outer ones.
pub open spec fn spec_lookup(scopes: Seq<Seq<Binding>>, name: Seq<char>) -> Option<VarId>
    decreases scopes.len(),
{
    if scopes.len() == 0 {
        None
    } else {
        match lookup_in_scope(scopes.last(), name) {
            Some(s) => Some(s),
            None => spec_lookup(scopes.drop_last(), name),
        }
    }
}

/// A name resolves somewhere in the scope stack.
pub open spec fn resolves(scopes: Seq<Seq<Binding>>, name: Seq<char>) -> bool {
    spec_lookup(scopes, name) is Some
}

/// Every name of this place resolves.
pub open spec fn place_resolves(scopes: Seq<Seq<Binding>>, p: SrcPlace) -> bool
    decreases p,
{
    match p {
        SrcPlace::Name(n) => resolves(scopes, n@),
        SrcPlace::Deref(e) => expr_resolves(scopes, *e),
    }
}

/// Every name of this expression resolves.
pub open spec fn expr_resolves(scopes: Seq<Seq<Binding>>, e: SrcExpr) -> bool
    decreases e,
{
    match e {
        SrcExpr::Name(n) => resolves(scopes, n@),
        SrcExpr::Constant(_) => true,
        SrcExpr::Binary(_, l, r) => expr_resolves(scopes, *l) && expr_resolves(scopes, *r),
        SrcExpr::Unary(_, o) => expr_resolves(scopes, *o),
        SrcExpr::AddressOf(p) => place_resolves(scopes, *p),
    }
}

// ---------------------------------------------------------------------------
// Name-level resolvability: which names a body can read, as a function of
// the declaration alone. Slots are irrelevant to resolution, so this model
// carries scopes of names only.
// ---------------------------------------------------------------------------

/// The names of a binding-scope stack.
pub open spec fn nsv(sc: Seq<Seq<Binding>>) -> Seq<Seq<Seq<char>>> {
    Seq::new(sc.len(), |i: int| Seq::new(sc[i].len(), |j: int| sc[i][j].name@))
}

/// The name is bound somewhere in the stack.
pub open spec fn names_has(sc: Seq<Seq<Seq<char>>>, n: Seq<char>) -> bool {
    exists|i: int, j: int| 0 <= i < sc.len() && 0 <= j < sc[i].len() && sc[i][j] == n
}

/// Every name of this place is bound.
pub open spec fn place_nresolves(sc: Seq<Seq<Seq<char>>>, p: SrcPlace) -> bool
    decreases p,
{
    match p {
        SrcPlace::Name(n) => names_has(sc, n@),
        SrcPlace::Deref(e) => expr_nresolves(sc, *e),
    }
}

/// Every name of this expression is bound.
pub open spec fn expr_nresolves(sc: Seq<Seq<Seq<char>>>, e: SrcExpr) -> bool
    decreases e,
{
    match e {
        SrcExpr::Name(n) => names_has(sc, n@),
        SrcExpr::Constant(_) => true,
        SrcExpr::Binary(_, l, r) => expr_nresolves(sc, *l) && expr_nresolves(sc, *r),
        SrcExpr::Unary(_, o) => expr_nresolves(sc, *o),
        SrcExpr::AddressOf(p) => place_nresolves(sc, *p),
    }
}

/// Binding one more name in the innermost scope.
pub open spec fn nbind(sc: Seq<Seq<Seq<char>>>, name: Seq<char>) -> Seq<Seq<Seq<char>>> {
    if sc.len() == 0 {
        sc
    } else {
        sc.update(sc.len() - 1, sc.last().push(name))
    }
}

/// The scope stack after one statement: only a declaration binds a name at
/// its own level; braced bodies open and close their own scope.
pub open spec fn stmt_scope_after(sc: Seq<Seq<Seq<char>>>, s: SrcStmt) -> Seq<Seq<Seq<char>>> {
    match s {
        SrcStmt::Decl { name, ty: _, init: _ } => nbind(sc, name@),
        _ => sc,
    }
}

/// Every name this statement reads is bound when it is reached; a declared
/// name is in scope in its own initializer.
pub open spec fn stmt_nresolves(sc: Seq<Seq<Seq<char>>>, s: SrcStmt) -> bool
    decreases s,
{
    match s {
        SrcStmt::Decl { name, ty: _, init } => match init {
            Some(e) => expr_nresolves(nbind(sc, name@), e),
            None => true,
        },
        SrcStmt::Assign { target, value } => place_nresolves(sc, target) && expr_nresolves(
            sc,
            value,
        ),
        SrcStmt::Call { target, callee: _, args } => (match target {
            Some(p) => place_nresolves(sc, p),
            None => true,
        }) && (forall|j: int| 0 <= j < args@.len() ==> expr_nresolves(sc, #[trigger] args@[j])),
        SrcStmt::Return(oe) => match oe {
            Some(e) => expr_nresolves(sc, e),
            None => true,
        },
        SrcStmt::If { cond, then_body, else_body } => expr_nresolves(sc, cond) && stmts_nresolve(
            sc.push(Seq::empty()),
            then_body@,
        ) && stmts_nresolve(sc.push(Seq::empty()), else_body@),
        SrcStmt::While { cond, body } => expr_nresolves(sc, cond) && stmts_nresolve(
            sc.push(Seq::empty()),
            body@,
        ),
        SrcStmt::Block(body) => stmts_nresolve(sc.push(Seq::empty()), body@),
    }
}

/// Every name a statement list reads is bound when it is reached.
pub open spec fn stmts_nresolve(sc: Seq<Seq<Seq<char>>>, stmts: Seq<SrcStmt>) -> bool
    decreases stmts,
{
    if stmts.len() == 0 {
        true
    } else {
        stmt_nresolves(sc, stmts[0]) && stmts_nresolve(
            stmt_scope_after(sc, stmts[0]),
            stmts.drop_first(),
        )
    }
}

/// How many storage slots lowering this statement claims: one per local
/// declaration, one per call that needs a scratch result slot.
pub open spec fn stmt_slot_demand(s: SrcStmt) -> nat
    decreases s,
{
    match s {
        SrcStmt::Decl { .. } => 1,
        SrcStmt::Call { target, callee: _, args: _ } => match target {
            Some(_) => 0,
            None => 1,
        },
        SrcStmt::Assign { .. } => 0,
        SrcStmt::Return(_) => 0,
        SrcStmt::If { cond: _, then_body, else_body } => list_slot_demand(then_body@)
            + list_slot_demand(else_body@),
        SrcStmt::While { cond: _, body } => list_slot_demand(body@),
        SrcStmt::Block(body) => list_slot_demand(body@),
    }
}

pub open spec fn list_slot_demand(l: Seq<SrcStmt>) -> nat
    decreases l,
{
    if l.len() == 0 {
        0
    } else {
        list_slot_demand(l.drop_last()) + stmt_slot_demand(l.last())
    }
}

/// How many blocks lowering this statement allocates: one fresh block after
/// a return, three per branching construct.
pub open spec fn stmt_block_demand(s: SrcStmt) -> nat
    decreases s,
{
    match s {
        SrcStmt::Return(_) => 1,
        SrcStmt::If { cond: _, then_body, else_body } => 3 + list_block_demand(then_body@)
            + list_block_demand(else_body@),
        SrcStmt::While { cond: _, body } => 3 + list_block_demand(body@),
        SrcStmt::Block(body) => list_block_demand(body@),
        _ => 0,
    }
}

pub open spec fn list_block_demand(l: Seq<SrcStmt>) -> nat
    decreases l,
{
    if l.len() == 0 {
        0
    } else {
        list_block_demand(l.drop_last()) + stmt_block_demand(l.last())
    }
}

/// A prefix never demands more than the whole list.
proof fn lemma_demand_take_le(l: Seq<SrcStmt>, k: int)
    requires
        0 <= k <= l.len(),
    ensures
        list_slot_demand(l.take(k)) <= list_slot_demand(l),
        list_block_demand(l.take(k)) <= list_block_demand(l),
    decreases l.len() - k,
{
    if k == l.len() {
        assert(l.take(k) =~= l);
    } else {
        lemma_demand_take_le(l, k + 1);
        assert(l.take(k + 1).drop_last() =~= l.take(k));
        assert(l.take(k + 1).last() == l[k]);
    }
}

/// Resolution finds a binding in one scope exactly when one is there.
proof fn lemma_scope_has(sc: Seq<Binding>, n: Seq<char>)
    ensures
        (lookup_in_scope(sc, n) is Some) <==> exists|j: int|
            0 <= j < sc.len() && (#[trigger] sc[j].name@) == n,
    decreases sc.len(),
{
    if sc.len() > 0 {
        lemma_scope_has(sc.drop_last(), n);
        if sc.last().name@ == n {
            assert(sc[sc.len() - 1].name@ == n);
        } else {
            if lookup_in_scope(sc, n) is Some {
                let j = choose|j: int|
                    0 <= j < sc.drop_last().len() && (#[trigger] sc.drop_last()[j].name@) == n;
                assert(sc[j].name@ == n);
            }
            if exists|j: int| 0 <= j < sc.len() && (#[trigger] sc[j].name@) == n {
                let j = choose|j: int| 0 <= j < sc.len() && (#[trigger] sc[j].name@) == n;
                assert(j < sc.len() - 1);
                assert(sc.drop_last()[j].name@ == n);
            }
        }
    }
}

/// Resolution through the stack succeeds exactly when the name is bound in
/// some scope; which slot it maps to is irrelevant here.
proof fn lemma_resolves_names(scopes: Seq<Seq<Binding>>, n: Seq<char>)
    ensures
        resolves(scopes, n) <==> names_has(nsv(scopes), n),
    decreases scopes.len(),
{
    if scopes.len() == 0 {
        assert(!names_has(nsv(scopes), n));
    } else {
        lemma_resolves_names(scopes.drop_last(), n);
        lemma_scope_has(scopes.last(), n);
        assert(nsv(scopes.drop_last()) =~~= nsv(scopes).drop_last());
        let top = scopes.len() - 1;
        if lookup_in_scope(scopes.last(), n) is Some {
            let j = choose|j: int|
                0 <= j < scopes.last().len() && (#[trigger] scopes.last()[j].name@) == n;
            assert(nsv(scopes)[top][j] == n);
            assert(names_has(nsv(scopes), n));
        } else {
            if names_has(nsv(scopes), n) && !names_has(nsv(scopes).drop_last(), n) {
                let (i, j) = choose|i: int, j: int|
                    0 <= i < nsv(scopes).len() && 0 <= j < nsv(scopes)[i].len() && (#[trigger] nsv(
                        scopes,
                    )[i][j]) == n;
                if i < top {
                    assert(nsv(scopes).drop_last()[i][j] == n);
                    assert(names_has(nsv(scopes).drop_last(), n));
                } else {
                    assert(scopes.last()[j].name@ == n);
                }
            }
            if names_has(nsv(scopes).drop_last(), n) {
                let (i, j) = choose|i: int, j: int|
                    0 <= i < nsv(scopes).drop_last().len() && 0 <= j < nsv(
                        scopes,
                    ).drop_last()[i].len() && (#[trigger] nsv(scopes).drop_last()[i][j]) == n;
                assert(nsv(scopes)[i][j] == n);
            }
        }
    }
}

/// Place resolvability depends on the bound names alone.
proof fn lemma_place_bridge(scopes: Seq<Seq<Binding>>, p: SrcPlace)
    ensures
        place_resolves(scopes, p) <==> place_nresolves(nsv(scopes), p),
    decreases p,
{
    match p {
        SrcPlace::Name(n) => {
            lemma_resolves_names(scopes, n@);
        },
        SrcPlace::Deref(e) => {
            lemma_expr_bridge(scopes, *e);
        },
    }
}

/// Expression resolvability depends on the bound names alone.
proof fn lemma_expr_bridge(scopes: Seq<Seq<Binding>>, e: SrcExpr)
    ensures
        expr_resolves(scopes, e) <==> expr_nresolves(nsv(scopes), e),
    decreases e,
{
    match e {
        SrcExpr::Name(n) => {
            lemma_resolves_names(scopes, n@);
        },
        SrcExpr::Constant(_) => {},
        SrcExpr::Binary(_, l, r) => {
            lemma_expr_bridge(scopes, *l);
            lemma_expr_bridge(scopes, *r);
        },
        SrcExpr::Unary(_, o) => {
            lemma_expr_bridge(scopes, *o);
        },
        SrcExpr::AddressOf(p) => {
            lemma_place_bridge(scopes, *p);
        },
    }
}

/// Binding a name only touches the innermost scope.
proof fn lemma_nbind_frame(sc: Seq<Seq<Seq<char>>>, name: Seq<char>)
    requires
        sc.len() >= 1,
    ensures
        nbind(sc, name).len() == sc.len(),
        nbind(sc, name).drop_last() =~~= sc.drop_last(),
{
    assert(nbind(sc, name).drop_last() =~~= sc.drop_last());
}

/// A statement changes at most the innermost scope.
proof fn lemma_scope_after_frame(sc: Seq<Seq<Seq<char>>>, s: SrcStmt)
    requires
        sc.len() >= 1,
    ensures
        stmt_scope_after(sc, s).len() == sc.len(),
        stmt_scope_after(sc, s).drop_last() =~~= sc.drop_last(),
{
    match s {
        SrcStmt::Decl { name, ty: _, init: _ } => {
            lemma_nbind_frame(sc, name@);
        },
        _ => {},
    }
}

// ---------------------------------------------------------------------------
// Small set lemmas.
// ---------------------------------------------------------------------------

proof fn lemma_below_union(a: Set<int>, b: Set<int>, n: int)
    requires
        set_below(a, n),
        set_below(b, n),
    ensures
        set_below(a.union(b), n),
{
    assert forall|v: int| a.union(b).contains(v) implies 0 <= v < n by {
        if a.contains(v) {
        } else {
            assert(b.contains(v));
        }
    }
}

proof fn lemma_args_below(args: Seq<RValue>, n: int)
    requires
        forall|j: int| 0 <= j < args.len() ==> set_below(rvalue_reads(#[trigger] args[j]), n),
    ensures
        set_below(args_reads(args), n),
    decreases args.len(),
{
    if args.len() > 0 {
        let pre = args.drop_last();
        assert forall|j: int|
            0 <= j < pre.len() implies set_below(rvalue_reads(#[trigger] pre[j]), n) by {
            assert(pre[j] == args[j]);
        }
        lemma_args_below(pre, n);
        assert(args.last() == args[args.len() - 1]);
        lemma_below_union(args_reads(pre), rvalue_reads(args.last()), n);
    } else {
        assert forall|v: int| args_reads(args).contains(v) implies 0 <= v < n by {}
    }
}

// ---------------------------------------------------------------------------
// The converter.
// ---------------------------------------------------------------------------

/// Lowers one function; holds the per-instance id counters, the scope stack,
/// the blocks built so far (a pending block is `None` until sealed), and the
/// cursor over the current block.
pub struct Converter {
    function: Function,
    scopes: Vec<Vec<Binding>>,
    next_var_id: VarId,
    next_block_id: BasicBlockId,
    done: Vec<Option<BasicBlock>>,
    cur: BasicBlockId,
    cur_stmts: Vec<Statement>,
    warnings: Vec<String>,
}

impl Converter {
    /// The structural invariant of a converter mid-lowering.
    pub closed spec fn wf(self) -> bool {
        &&& self.scopes@.len() >= 1
        &&& forall|si: int, bi: int|
            0 <= si < sv(self.scopes).len() && 0 <= bi < sv(self.scopes)[si].len() ==> (
            #[trigger] sv(self.scopes)[si][bi]).slot < self.next_var_id
        &&& self.next_block_id == self.done@.len()
        &&& self.cur < self.done@.len()
        &&& self.done@[self.cur as int] is None
        &&& forall|i: int|
            0 <= i < self.done@.len() ==> match #[trigger] self.done@[i] {
                Some(b) => b.id == i && terminator_targets_ok(
                    b.terminator,
                    self.done@.len() as nat,
                ) && block_slots_below(b, self.next_var_id as int),
                None => true,
            }
        &&& forall|j: int|
            0 <= j < self.cur_stmts@.len() ==> set_below(
                stmt_reads(#[trigger] self.cur_stmts@[j]),
                self.next_var_id as int,
            ) && set_below(stmt_writes(self.cur_stmts@[j]), self.next_var_id as int)
        &&& params_slots_sequential(self.function)
        &&& self.function.parameters@.len() <= self.next_var_id
        &&& self.function.basic_blocks@.len() == 0
    }

    pub closed spec fn spec_scopes(self) -> Seq<Seq<Binding>> {
        sv(self.scopes)
    }

    pub closed spec fn spec_next_var(self) -> VarId {
        self.next_var_id
    }

    pub closed spec fn spec_done(self) -> Seq<Option<BasicBlock>> {
        self.done@
    }

    pub closed spec fn spec_cur(self) -> BasicBlockId {
        self.cur
    }

    pub closed spec fn spec_function(self) -> Function {
        self.function
    }

    pub closed spec fn spec_cur_stmts(self) -> Seq<Statement> {
        self.cur_stmts@
    }

    /// The bound names, scope by scope.
    pub open spec fn names_view(self) -> Seq<Seq<Seq<char>>> {
        nsv(self.spec_scopes())
    }

    /// What one lowering step may do to the table of blocks: the table only
    /// grows, every block other than the one under the cursor is untouched,
    /// the cursor stays or moves to a fresh block, the slot counter only
    /// grows, and the signature under construction is untouched.
    pub open spec fn frame_ok(pre: Converter, post: Converter) -> bool {
        &&& post.spec_done().len() >= pre.spec_done().len()
        &&& forall|i: int|
            0 <= i < pre.spec_done().len() && i != pre.spec_cur() ==> post.spec_done()[i]
                == pre.spec_done()[i]
        &&& (post.spec_cur() == pre.spec_cur() || post.spec_cur() >= pre.spec_done().len())
        &&& post.spec_next_var() >= pre.spec_next_var()
        &&& post.spec_function() == pre.spec_function()
    }

    /// A fresh converter: an empty entry block 0 is allocated and current,
    /// one empty scope is open, the slot counter starts at zero.
    pub fn new(function_name: String, return_type: Option<Type>) -> (r: Converter)
        ensures
            r.wf(),
            r.spec_function().name == function_name,
            r.spec_function().return_type == return_type,
            r.spec_function().parameters@.len() == 0,
            r.spec_function().annotations@.len() == 0,
            r.spec_done().len() == 1,
            r.spec_done()[0] is None,
            r.spec_cur() == 0,
            r.spec_next_var() == 0,
            r.spec_scopes().len() == 1,
            r.names_view() == seq![Seq::<Seq<char>>::empty()],
    {
        let function = Function::new(function_name, return_type);
        let mut scopes: Vec<Vec<Binding>> = Vec::new();
        scopes.push(Vec::new());
        let mut done: Vec<Option<BasicBlock>> = Vec::new();
        done.push(None);
        let r = Converter {
            function,
            scopes,
            next_var_id: 0,
            next_block_id: 1,
            done,
            cur: 0,
            cur_stmts: Vec::new(),
            warnings: Vec::new(),
        };
        proof {
            assert(r.names_view() =~~= seq![Seq::<Seq<char>>::empty()]);
        }
        r
    }

    /// Claims the next storage slot.
    pub fn allocate_var_id(&mut self) -> (id: VarId)
        requires
            old(self).wf(),
            old(self).spec_next_var() < usize::MAX,
        ensures
            final(self).wf(),
            id == old(self).spec_next_var(),
            final(self).spec_next_var() == old(self).spec_next_var() + 1,
            final(self).spec_done() == old(self).spec_done(),
            final(self).spec_cur() == old(self).spec_cur(),
            final(self).spec_scopes() == old(self).spec_scopes(),
            final(self).spec_function() == old(self).spec_function(),
            final(self).spec_cur_stmts() == old(self).spec_cur_stmts(),
    {
        let id = self.next_var_id;
        self.next_var_id = self.next_var_id + 1;
        proof {
            lemma_next_var_grow(*old(self), *self);
            assert(sv(self.scopes) =~~= sv(old(self).scopes));
        }
        id
    }

    /// Allocates a fresh, still-pending block id.
    pub fn allocate_block_id(&mut self) -> (id: BasicBlockId)
        requires
            old(self).wf(),
            old(self).spec_done().len() < usize::MAX,
        ensures
            final(self).wf(),
            id == old(self).spec_done().len(),
            final(self).spec_done() == old(self).spec_done().push(None),
            final(self).spec_cur() == old(self).spec_cur(),
            final(self).spec_scopes() == old(self).spec_scopes(),
            final(self).spec_next_var() == old(self).spec_next_var(),
            final(self).spec_function() == old(self).spec_function(),
            final(self).spec_cur_stmts() == old(self).spec_cur_stmts(),
    {
        let id = self.done.len();
        self.done.push(None);
        self.next_block_id = self.next_block_id + 1;
        proof {
            assert(sv(self.scopes) =~~= sv(old(self).scopes));
            assert forall|i: int| 0 <= i < self.done@.len() implies match #[trigger] self.done@[i] {
                Some(b) => b.id == i && terminator_targets_ok(
                    b.terminator,
                    self.done@.len() as nat,
                ) && block_slots_below(b, self.next_var_id as int),
                None => true,
            } by {
                if i < old(self).done@.len() {
                    assert(self.done@[i] == old(self).done@[i]);
                }
            }
        }
        id
    }

    /// Resolves a name through the scope stack, innermost scope first.
    pub fn lookup_var(&self, name: &str) -> (r: Option<VarId>)
        requires
            self.wf(),
        ensures
            r == spec_lookup(self.spec_scopes(), name@),
            r matches Some(s) ==> s < self.spec_next_var(),
    {
        let nsc = self.scopes.len();
        proof {
            assert(sv(self.scopes).take(nsc as int) =~= sv(self.scopes));
        }
        let mut si = nsc;
        while si > 0
            invariant
                si <= nsc,
                nsc == self.scopes@.len(),
                self.wf(),
                spec_lookup(sv(self.scopes), name@) == spec_lookup(
                    sv(self.scopes).take(si as int),
                    name@,
                ),
            decreases si,
        {
            si -= 1;
            let sc = &self.scopes[si];
            let nb = sc.len();
            proof {
                assert(sc@.take(nb as int) =~= sc@);
            }
            let mut bi = nb;
            while bi > 0
                invariant
                    bi <= nb,
                    nb == sc@.len(),
                    si < self.scopes@.len(),
                    sc == self.scopes@[si as int],
                    self.wf(),
                    spec_lookup(sv(self.scopes), name@) == spec_lookup(
                        sv(self.scopes).take(si + 1),
                        name@,
                    ),
                    lookup_in_scope(sc@, name@) == lookup_in_scope(sc@.take(bi as int), name@),
                decreases bi,
            {
                bi -= 1;
                if str_eq(sc[bi].name.as_str(), name) {
                    proof {
                        assert(sc@.take(bi + 1).last() == sc@[bi as int]);
                        assert(lookup_in_scope(sc@.take(bi + 1), name@) == Some(
                            sc@[bi as int].slot,
                        ));
                        assert(sv(self.scopes)[si as int] == sc@);
                        assert(sv(self.scopes).take(si + 1).last() == sc@);
                        assert(sv(self.scopes).take(si + 1).drop_last() =~= sv(self.scopes).take(
                            si as int,
                        ));
                        assert(spec_lookup(sv(self.scopes).take(si + 1), name@) == Some(
                            sc@[bi as int].slot,
                        ));
                        assert(sv(self.scopes)[si as int][bi as int].slot < self.next_var_id);
                        assert(spec_lookup(sv(self.scopes), name@) == Some(sc@[bi as int].slot));
                    }
                    return Some(sc[bi].slot);
                }
                proof {
                    assert(sc@.take(bi + 1).drop_last() =~= sc@.take(bi as int));
                    assert(sc@.take(bi + 1).last() == sc@[bi as int]);
                }
            }
            proof {
                assert(sc@.take(0) =~= Seq::<Binding>::empty());
                assert(lookup_in_scope(sc@, name@) is None);
                assert(sv(self.scopes).take(si + 1).last() == sc@);
                assert(sv(self.scopes).take(si + 1).drop_last() =~= sv(self.scopes).take(
                    si as int,
                ));
            }
        }
        proof {
            assert(sv(self.scopes).take(0) =~= Seq::<Seq<Binding>>::empty());
        }
        None
    }

    /// Adds a binding to the innermost scope; the name then resolves to
    /// this slot, shadowing any outer binding.
    fn bind(&mut self, name: String, slot: VarId)
        requires
            old(self).wf(),
            slot < old(self).spec_next_var(),
        ensures
            final(self).wf(),
            final(self).spec_scopes().len() == old(self).spec_scopes().len(),
            spec_lookup(final(self).spec_scopes(), name@) == Some(slot),
            final(self).names_view() == nbind(old(self).names_view(), name@),
            final(self).spec_done() == old(self).spec_done(),
            final(self).spec_cur() == old(self).spec_cur(),
            final(self).spec_next_var() == old(self).spec_next_var(),
            final(self).spec_function() == old(self).spec_function(),
            final(self).spec_cur_stmts() == old(self).spec_cur_stmts(),
    {
        let ghost name_v = name@;
        let mut top = match self.scopes.pop() {
            Some(t) => t,
            None => {
                proof {
                    assert(false);
                }
                Vec::new()
            },
        };
        top.push(Binding { name, slot });
        self.scopes.push(top);
        proof {
            let s = sv(self.scopes);
            assert(s.len() == old(self).scopes@.len());
            assert(s.last() == top@);
            assert(top@.last().name@ == name_v);
            assert(lookup_in_scope(s.last(), name_v) == Some(slot));
            assert forall|si: int, bi: int|
                0 <= si < s.len() && 0 <= bi < s[si].len() implies (#[trigger] s[si][bi]).slot
                < self.next_var_id by {
                if si < s.len() - 1 {
                    assert(s[si] == sv(old(self).scopes)[si]);
                    assert(sv(old(self).scopes)[si][bi].slot < self.next_var_id);
                } else {
                    if bi < s[si].len() - 1 {
                        assert(s[si][bi] == sv(old(self).scopes)[si][bi]);
                        assert(sv(old(self).scopes)[si][bi].slot < self.next_var_id);
                    }
                }
            }
            assert(nsv(s) =~~= nbind(nsv(sv(old(self).scopes)), name_v));
        }
    }

    fn push_scope(&mut self)
        requires
            old(self).wf(),
        ensures
            final(self).wf(),
            final(self).spec_scopes().len() == old(self).spec_scopes().len() + 1,
            final(self).names_view() == old(self).names_view().push(Seq::empty()),
            final(self).spec_done() == old(self).spec_done(),
            final(self).spec_cur() == old(self).spec_cur(),
            final(self).spec_next_var() == old(self).spec_next_var(),
            final(self).spec_function() == old(self).spec_function(),
            final(self).spec_cur_stmts() == old(self).spec_cur_stmts(),
    {
        self.scopes.push(Vec::new());
        proof {
            let s = sv(self.scopes);
            assert forall|si: int, bi: int|
                0 <= si < s.len() && 0 <= bi < s[si].len() implies (#[trigger] s[si][bi]).slot
                < self.next_var_id by {
                assert(si < s.len() - 1);
                assert(s[si] == sv(old(self).scopes)[si]);
                assert(sv(old(self).scopes)[si][bi].slot < self.next_var_id);
            }
            assert(nsv(s) =~~= nsv(sv(old(self).scopes)).push(Seq::empty()));
        }
    }

    fn pop_scope(&mut self)
        requires
            old(self).wf(),
            old(self).spec_scopes().len() >= 2,
        ensures
            final(self).wf(),
            final(self).spec_scopes().len() == old(self).spec_scopes().len() - 1,
            final(self).names_view() == old(self).names_view().drop_last(),
            final(self).spec_done() == old(self).spec_done(),
            final(self).spec_cur() == old(self).spec_cur(),
            final(self).spec_next_var() == old(self).spec_next_var(),
            final(self).spec_function() == old(self).spec_function(),
            final(self).spec_cur_stmts() == old(self).spec_cur_stmts(),
    {
        let _ = self.scopes.pop();
        proof {
            let s = sv(self.scopes);
            assert forall|si: int, bi: int|
                0 <= si < s.len() && 0 <= bi < s[si].len() implies (#[trigger] s[si][bi]).slot
                < self.next_var_id by {
                assert(s[si] == sv(old(self).scopes)[si]);
                assert(sv(old(self).scopes)[si][bi].slot < self.next_var_id);
            }
            assert(nsv(s) =~~= nsv(sv(old(self).scopes)).drop_last());
        }
    }

    /// Lowers a place used as an assignment target or address operand.
    fn lower_place(&self, p: &SrcPlace) -> (r: Result<LValue, BuilderError>)
        requires
            self.wf(),
        ensures
            (r is Ok) == place_resolves(self.spec_scopes(), *p),
            r matches Err(e2) ==> e2 is UnresolvedName,
            r matches Ok(lv) ==> set_below(lvalue_value_reads(lv), self.spec_next_var() as int)
                && set_below(lvalue_target_reads(lv), self.spec_next_var() as int) && set_below(
                lvalue_target_writes(lv),
                self.spec_next_var() as int,
            ),
        decreases *p,
    {
        match p {
            SrcPlace::Name(n) => {
                match self.lookup_var(n.as_str()) {
                    Some(slot) => {
                        let lv = LValue::Variable(slot);
                        proof {
                            assert(lvalue_value_reads(lv) =~= Set::empty().insert(slot as int));
                            assert(lvalue_target_writes(lv) =~= Set::empty().insert(slot as int));
                            assert forall|v: int|
                                lvalue_value_reads(lv).contains(v) implies 0 <= v
                                < self.next_var_id as int by {
                                assert(v == slot as int);
                            }
                            assert forall|v: int|
                                lvalue_target_writes(lv).contains(v) implies 0 <= v
                                < self.next_var_id as int by {
                                assert(v == slot as int);
                            }
                            assert forall|v: int|
                                lvalue_target_reads(lv).contains(v) implies 0 <= v
                                < self.next_var_id as int by {}
                        }
                        Ok(lv)
                    },
                    None => Err(BuilderError::UnresolvedName(n.clone())),
                }
            },
            SrcPlace::Deref(e) => {
                match self.lower_expr(e) {
                    Ok(rv) => {
                        let lv = LValue::Deref(Box::new(rv));
                        proof {
                            assert(lvalue_value_reads(lv) == rvalue_reads(rv));
                            assert(lvalue_target_reads(lv) == rvalue_reads(rv));
                            assert forall|v: int|
                                lvalue_target_writes(lv).contains(v) implies 0 <= v
                                < self.next_var_id as int by {}
                        }
                        Ok(lv)
                    },
                    Err(err) => Err(err),
                }
            },
        }
    }

    /// Lowers an expression to an r-value. Succeeds exactly when every name
    /// it mentions resolves in the current scopes.
    fn lower_expr(&self, e: &SrcExpr) -> (r: Result<RValue, BuilderError>)
        requires
            self.wf(),
        ensures
            (r is Ok) == expr_resolves(self.spec_scopes(), *e),
            r matches Err(e2) ==> e2 is UnresolvedName,
            r matches Ok(rv) ==> set_below(rvalue_reads(rv), self.spec_next_var() as int),
        decreases *e,
    {
        match e {
            SrcExpr::Name(n) => {
                match self.lookup_var(n.as_str()) {
                    Some(slot) => {
                        let lv0 = LValue::Variable(slot);
                        let rv = RValue::Use(Box::new(lv0));
                        proof {
                            assert(rvalue_reads(rv) == lvalue_value_reads(lv0));
                            assert(lvalue_value_reads(lv0) =~= Set::empty().insert(slot as int));
                            assert forall|v: int|
                                rvalue_reads(rv).contains(v) implies 0 <= v
                                < self.next_var_id as int by {
                                assert(v == slot as int);
                            }
                        }
                        Ok(rv)
                    },
                    None => Err(BuilderError::UnresolvedName(n.clone())),
                }
            },
            SrcExpr::Constant(c) => {
                let rv = RValue::Constant(*c);
                proof {
                    assert(rvalue_reads(rv) =~= Set::<int>::empty());
                    assert forall|v: int|
                        rvalue_reads(rv).contains(v) implies 0 <= v < self.next_var_id as int by {}
                }
                Ok(rv)
            },
            SrcExpr::Binary(op, l, rr) => {
                let lv = match self.lower_expr(l) {
                    Ok(x) => x,
                    Err(err) => {
                        return Err(err);
                    },
                };
                let rv = match self.lower_expr(rr) {
                    Ok(x) => x,
                    Err(err) => {
                        return Err(err);
                    },
                };
                let out = RValue::BinaryOp(clone_binop(op), Box::new(lv), Box::new(rv));
                proof {
                    assert(rvalue_reads(out) == rvalue_reads(lv).union(rvalue_reads(rv)));
                    lemma_below_union(rvalue_reads(lv), rvalue_reads(rv), self.next_var_id as int);
                }
                Ok(out)
            },
            SrcExpr::Unary(op, o) => {
                let ov = match self.lower_expr(o) {
                    Ok(x) => x,
                    Err(err) => {
                        return Err(err);
                    },
                };
                let out = RValue::UnaryOp(clone_unop(op), Box::new(ov));
                proof {
                    assert(rvalue_reads(out) == rvalue_reads(ov));
                }
                Ok(out)
            },
            SrcExpr::AddressOf(p) => {
                let pv = match self.lower_place(p) {
                    Ok(x) => x,
                    Err(err) => {
                        return Err(err);
                    },
                };
                let out = RValue::AddressOf(Box::new(pv));
                proof {
                    assert(rvalue_reads(out) == lvalue_value_reads(pv));
                }
                Ok(out)
            },
        }
    }

    /// Appends a statement to the current block.
    fn append_statement(&mut self, st: Statement)
        requires
            old(self).wf(),
            set_below(stmt_reads(st), old(self).spec_next_var() as int),
            set_below(stmt_writes(st), old(self).spec_next_var() as int),
        ensures
            final(self).wf(),
            final(self).spec_done() == old(self).spec_done(),
            final(self).spec_cur() == old(self).spec_cur(),
            final(self).spec_scopes() == old(self).spec_scopes(),
            final(self).spec_next_var() == old(self).spec_next_var(),
            final(self).spec_function() == old(self).spec_function(),
    {
        self.cur_stmts.push(st);
        proof {
            assert(sv(self.scopes) =~~= sv(old(self).scopes));
        }
    }

    /// Seals the current block with its terminator and moves the cursor to
    /// an already-allocated pending block.
    fn seal_current(&mut self, t: Terminator, next_cur: BasicBlockId)
        requires
            old(self).wf(),
            terminator_targets_ok(t, old(self).spec_done().len() as nat),
            set_below(term_reads(t), old(self).spec_next_var() as int),
            next_cur < old(self).spec_done().len(),
            next_cur != old(self).spec_cur(),
            old(self).spec_done()[next_cur as int] is None,
        ensures
            final(self).wf(),
            final(self).spec_done().len() == old(self).spec_done().len(),
            final(self).spec_cur() == next_cur,
            final(self).spec_done()[old(self).spec_cur() as int] is Some,
            forall|i: int|
                0 <= i < old(self).spec_done().len() && i != old(self).spec_cur() ==> final(self).spec_done()[i] == old(self).spec_done()[i],
            final(self).spec_scopes() == old(self).spec_scopes(),
            final(self).spec_next_var() == old(self).spec_next_var(),
            final(self).spec_function() == old(self).spec_function(),
            final(self).spec_cur_stmts().len() == 0,
    {
        let mut stmts: Vec<Statement> = Vec::new();
        mem::swap(&mut stmts, &mut self.cur_stmts);
        let id = self.cur;
        let block = BasicBlock { id, statements: stmts, terminator: t };
        proof {
            assert forall|i2: int|
                0 <= i2 < block.statements@.len() implies set_below(
                stmt_reads(#[trigger] block.statements@[i2]),
                self.next_var_id as int,
            ) && set_below(stmt_writes(block.statements@[i2]), self.next_var_id as int) by {
                assert(block.statements@[i2] == old(self).cur_stmts@[i2]);
            }
            assert(block_slots_below(block, self.next_var_id as int));
        }
        self.done.set(id, Some(block));
        self.cur = next_cur;
        proof {
            assert(sv(self.scopes) =~~= sv(old(self).scopes));
        }
    }

    /// Closes a freshly allocated block that never becomes current, giving
    /// it an empty statement list and the given terminator.
    fn close_fresh(&mut self, id: BasicBlockId, t: Terminator)
        requires
            old(self).wf(),
            terminator_targets_ok(t, old(self).spec_done().len() as nat),
            set_below(term_reads(t), old(self).spec_next_var() as int),
            id < old(self).spec_done().len(),
            id != old(self).spec_cur(),
            old(self).spec_done()[id as int] is None,
        ensures
            final(self).wf(),
            final(self).spec_done().len() == old(self).spec_done().len(),
            final(self).spec_cur() == old(self).spec_cur(),
            final(self).spec_done()[id as int] is Some,
            forall|i: int|
                0 <= i < old(self).spec_done().len() && i != id ==> final(self).spec_done()[i]
                    == old(self).spec_done()[i],
            final(self).spec_scopes() == old(self).spec_scopes(),
            final(self).spec_next_var() == old(self).spec_next_var(),
            final(self).spec_function() == old(self).spec_function(),
            final(self).spec_cur_stmts() == old(self).spec_cur_stmts(),
    {
        let block = BasicBlock { id, statements: Vec::new(), terminator: t };
        proof {
            assert(block_slots_below(block, self.next_var_id as int));
        }
        self.done.set(id, Some(block));
        proof {
            assert(sv(self.scopes) =~~= sv(old(self).scopes));
        }
    }

    /// Lowers one source statement into the CFG under construction. Blocks
    /// other than the one under the cursor are untouched; the cursor stays
    /// or moves to a freshly allocated block.
    fn lower_stmt(&mut self, s: &SrcStmt) -> (r: Result<(), BuilderError>)
        requires
            old(self).wf(),
        ensures
            final(self).wf(),
            Converter::frame_ok(*old(self), *final(self)),
            r is Ok ==> final(self).spec_scopes().len() == old(self).spec_scopes().len(),
            r is Ok ==> final(self).names_view() == stmt_scope_after(
                old(self).names_view(),
                *s,
            ),
            final(self).spec_next_var() <= old(self).spec_next_var() + stmt_slot_demand(*s),
            final(self).spec_done().len() <= old(self).spec_done().len() + stmt_block_demand(*s),
            r matches Err(e2) ==> match e2 {
                BuilderError::UnresolvedName(_) => !stmt_nresolves(old(self).names_view(), *s),
                BuilderError::TooManySlots => final(self).spec_next_var() == usize::MAX,
                BuilderError::TooManyBlocks => final(self).spec_done().len() + 3 >= usize::MAX
                    as int,
                _ => false,
            },
        decreases *s,
    {
        match s {
            SrcStmt::Decl { name, ty: _, init } => {
                if self.next_var_id == usize::MAX {
                    return Err(BuilderError::TooManySlots);
                }
                let slot = self.allocate_var_id();
                self.bind(name.clone(), slot);
                match init {
                    Some(e) => {
                        let rv = match self.lower_expr(e) {
                            Ok(x) => x,
                            Err(err) => {
                                proof {
                                    lemma_expr_bridge(self.spec_scopes(), *e);
                                }
                                return Err(err);
                            },
                        };
                        let st = Statement::Assign(LValue::Variable(slot), rv);
                        proof {
                            assert forall|v: int|
                                stmt_reads(st).contains(v) implies 0 <= v
                                < self.next_var_id as int by {
                                if rvalue_reads(rv).contains(v) {
                                } else {
                                    assert(lvalue_target_reads(LValue::Variable(slot)).contains(
                                        v,
                                    ));
                                }
                            }
                            assert forall|v: int|
                                stmt_writes(st).contains(v) implies 0 <= v
                                < self.next_var_id as int by {
                                assert(v == slot as int);
                            }
                        }
                        self.append_statement(st);
                    },
                    None => {},
                }
                Ok(())
            },
            SrcStmt::Assign { target, value } => {
                let lv = match self.lower_place(target) {
                    Ok(x) => x,
                    Err(err) => {
                        proof {
                            lemma_place_bridge(self.spec_scopes(), *target);
                        }
                        return Err(err);
                    },
                };
                let rv = match self.lower_expr(value) {
                    Ok(x) => x,
                    Err(err) => {
                        proof {
                            lemma_expr_bridge(self.spec_scopes(), *value);
                        }
                        return Err(err);
                    },
                };
                let st = Statement::Assign(lv, rv);
                proof {
                    assert(stmt_reads(st) == lvalue_target_reads(lv).union(rvalue_reads(rv)));
                    assert(stmt_writes(st) == lvalue_target_writes(lv));
                    lemma_below_union(
                        lvalue_target_reads(lv),
                        rvalue_reads(rv),
                        self.next_var_id as int,
                    );
                }
                self.append_statement(st);
                Ok(())
            },
            SrcStmt::Call { target, callee, args } => {
                let tlv = match target {
                    Some(p) => {
                        match self.lower_place(p) {
                            Ok(x) => x,
                            Err(err) => {
                                proof {
                                    lemma_place_bridge(self.spec_scopes(), *p);
                                }
                                return Err(err);
                            },
                        }
                    },
                    None => {
                        if self.next_var_id == usize::MAX {
                            return Err(BuilderError::TooManySlots);
                        }
                        let slot = self.allocate_var_id();
                        let lv0 = LValue::Variable(slot);
                        proof {
                            assert(lvalue_target_writes(lv0) =~= Set::empty().insert(slot as int));
                            assert forall|v: int|
                                lvalue_target_writes(lv0).contains(v) implies 0 <= v
                                < self.next_var_id as int by {
                                assert(v == slot as int);
                            }
                            assert forall|v: int|
                                lvalue_target_reads(lv0).contains(v) implies 0 <= v
                                < self.next_var_id as int by {}
                        }
                        lv0
                    },
                };
                let ghost nv0 = self.next_var_id;
                let n = args.len();
                let mut lowered: Vec<RValue> = Vec::new();
                let mut i: usize = 0;
                while i < n
                    invariant
                        i <= n,
                        n == args@.len(),
                        self.wf(),
                        Converter::frame_ok(*old(self), *self),
                        self.spec_scopes() == old(self).spec_scopes(),
                        *s == (SrcStmt::Call { target: *target, callee: *callee, args: *args }),
                        self.spec_next_var() == nv0,
                        nv0 <= old(self).spec_next_var() + stmt_slot_demand(*s),
                        self.spec_done().len() == old(self).spec_done().len(),
                        set_below(lvalue_target_reads(tlv), nv0 as int),
                        set_below(lvalue_target_writes(tlv), nv0 as int),
                        lowered@.len() == i,
                        forall|j: int|
                            0 <= j < i ==> set_below(
                                rvalue_reads(#[trigger] lowered@[j]),
                                nv0 as int,
                            ),
                    decreases n - i,
                {
                    let a = match self.lower_expr(&args[i]) {
                        Ok(x) => x,
                        Err(err) => {
                            proof {
                                lemma_expr_bridge(self.spec_scopes(), args@[i as int]);
                                assert(!expr_nresolves(
                                    old(self).names_view(),
                                    args@[i as int],
                                ));
                                match s {
                                    SrcStmt::Call { target: t0, callee: c0, args: a0 } => {
                                        assert(a0@[i as int] == args@[i as int]);
                                        assert(!stmt_nresolves(old(self).names_view(), *s)) by {
                                            if stmt_nresolves(old(self).names_view(), *s) {
                                                assert(expr_nresolves(
                                                    old(self).names_view(),
                                                    a0@[i as int],
                                                ));
                                            }
                                        }
                                    },
                                    _ => {},
                                }
                                assert(!stmt_nresolves(old(self).names_view(), *s));
                            }
                            return Err(err);
                        },
                    };
                    lowered.push(a);
                    i += 1;
                }
                let ghost largs = lowered@;
                let st = Statement::Call(tlv, callee.clone(), lowered);
                proof {
                    lemma_args_below(largs, self.next_var_id as int);
                    assert(stmt_reads(st) == lvalue_target_reads(tlv).union(args_reads(largs)));
                    assert(stmt_writes(st) == lvalue_target_writes(tlv));
                    lemma_below_union(
                        lvalue_target_reads(tlv),
                        args_reads(largs),
                        self.next_var_id as int,
                    );
                }
                self.append_statement(st);
                Ok(())
            },
            SrcStmt::Return(oe) => {
                let orv = match oe {
                    Some(e) => {
                        match self.lower_expr(e) {
                            Ok(x) => Some(x),
                            Err(err) => {
                                proof {
                                    lemma_expr_bridge(self.spec_scopes(), *e);
                                }
                                return Err(err);
                            },
                        }
                    },
                    None => None,
                };
                if self.done.len() == usize::MAX {
                    return Err(BuilderError::TooManyBlocks);
                }
                let dead = self.allocate_block_id();
                let t = Terminator::Return(orv);
                proof {
                    assert forall|v: int|
                        term_reads(t).contains(v) implies 0 <= v < self.next_var_id as int by {
                        match orv {
                            Some(rv) => {
                                assert(rvalue_reads(rv).contains(v));
                            },
                            None => {},
                        }
                    }
                }
                self.seal_current(t, dead);
                Ok(())
            },
            SrcStmt::If { cond, then_body, else_body } => {
                let c = match self.lower_expr(cond) {
                    Ok(x) => x,
                    Err(err) => {
                        proof {
                            lemma_expr_bridge(self.spec_scopes(), *cond);
                        }
                        return Err(err);
                    },
                };
                if self.done.len() >= usize::MAX - 3 {
                    return Err(BuilderError::TooManyBlocks);
                }
                let then_b = self.allocate_block_id();
                let else_b = self.allocate_block_id();
                let merge_b = self.allocate_block_id();
                let t = Terminator::If { condition: c, then_block: then_b, else_block: else_b };
                proof {
                    assert forall|v: int|
                        term_reads(t).contains(v) implies 0 <= v < self.next_var_id as int by {
                        assert(rvalue_reads(c).contains(v));
                    }
                }
                self.seal_current(t, then_b);
                self.push_scope();
                let ghost base = *self;
                proof {
                    assert(Converter::frame_ok(*old(self), base));
                    assert(Converter::frame_ok(base, base));
                    assert(base.names_view() == old(self).names_view().push(Seq::empty()));
                    assert(base.names_view().drop_last() =~~= old(self).names_view());
                    assert(then_body@.skip(0) =~= then_body@);
                    assert(decreases_to!(*s => *then_body));
                    assert(decreases_to!(*then_body => then_body@));
                    assert(decreases_to!(*s => then_body@));
                    assert(decreases_to!(*s => *else_body));
                    assert(decreases_to!(*else_body => else_body@));
                    assert(decreases_to!(*s => else_body@));
                }
                let nt = then_body.len();
                let mut i: usize = 0;
                while i < nt
                    invariant
                        i <= nt,
                        nt == then_body@.len(),
                        decreases_to!(*s => then_body@),
                        decreases_to!(*s => else_body@),
                        self.wf(),
                        base.wf(),
                        Converter::frame_ok(*old(self), base),
                        Converter::frame_ok(base, *self),
                        else_b < base.spec_done().len(),
                        merge_b < base.spec_done().len(),
                        base.spec_cur() != else_b,
                        base.spec_cur() != merge_b,
                        base.spec_cur() >= old(self).spec_done().len(),
                        else_b >= old(self).spec_done().len(),
                        merge_b >= old(self).spec_done().len(),
                        base.spec_done()[else_b as int] is None,
                        base.spec_done()[merge_b as int] is None,
                        base.spec_scopes().len() == old(self).spec_scopes().len() + 1,
                        self.spec_scopes().len() == base.spec_scopes().len(),
                        base.names_view() == old(self).names_view().push(Seq::empty()),
                        self.names_view().len() == base.names_view().len(),
                        self.names_view().drop_last() == old(self).names_view(),
                        *s == (SrcStmt::If {
                            cond: *cond,
                            then_body: *then_body,
                            else_body: *else_body,
                        }),
                        stmts_nresolve(base.names_view(), then_body@) ==> stmts_nresolve(
                            self.names_view(),
                            then_body@.skip(i as int),
                        ),
                        base.spec_next_var() == old(self).spec_next_var(),
                        base.spec_done().len() == old(self).spec_done().len() + 3,
                        self.spec_next_var() <= base.spec_next_var() + list_slot_demand(
                            then_body@.take(i as int),
                        ),
                        self.spec_done().len() <= base.spec_done().len() + list_block_demand(
                            then_body@.take(i as int),
                        ),
                    decreases nt - i,
                {
                    let ghost before = *self;
                    proof {
                        assert(decreases_to!(then_body@ => then_body@[i as int]));
                    }
                    match self.lower_stmt(&then_body[i]) {
                        Ok(()) => {},
                        Err(err) => {
                            proof {
                                lemma_frame_trans(base, before, *self);
                                lemma_frame_trans(*old(self), base, *self);
                                if err is UnresolvedName {
                                    if stmts_nresolve(base.names_view(), then_body@) {
                                        assert(stmts_nresolve(
                                            before.names_view(),
                                            then_body@.skip(i as int),
                                        ));
                                        assert(then_body@.skip(i as int)[0] == then_body@[
                                            i as int
                                        ]);
                                        assert(stmt_nresolves(
                                            before.names_view(),
                                            then_body@[i as int],
                                        ));
                                        assert(false);
                                    }
                                    assert(!stmt_nresolves(old(self).names_view(), *s));
                                }
                                assert(then_body@.take(i + 1).drop_last() =~= then_body@.take(
                                    i as int,
                                ));
                                assert(then_body@.take(i + 1).last() == then_body@[i as int]);
                                lemma_demand_take_le(then_body@, i + 1);
                            }
                            return Err(err);
                        },
                    }
                    proof {
                        lemma_frame_trans(base, before, *self);
                        lemma_scope_after_frame(before.names_view(), then_body@[i as int]);
                        assert(then_body@.take(i + 1).drop_last() =~= then_body@.take(i as int));
                        assert(then_body@.take(i + 1).last() == then_body@[i as int]);
                        if stmts_nresolve(base.names_view(), then_body@) {
                            assert(stmts_nresolve(before.names_view(), then_body@.skip(i as int)));
                            assert(then_body@.skip(i as int)[0] == then_body@[i as int]);
                            assert(then_body@.skip(i as int).drop_first() =~= then_body@.skip(
                                i + 1,
                            ));
                            assert(stmts_nresolve(self.names_view(), then_body@.skip(i + 1)));
                        }
                    }
                    i += 1;
                }
                proof {
                    lemma_frame_pending(base, *self, else_b as int);
                    lemma_frame_pending(base, *self, merge_b as int);
                    assert(then_body@.take(nt as int) =~= then_body@);
                }
                self.pop_scope();
                let ghost mid = *self;
                self.seal_current(Terminator::Goto(merge_b), else_b);
                proof {
                    lemma_frame_reseal(*old(self), base, mid, *self, else_b as int);
                }
                self.push_scope();
                let ghost base3 = *self;
                proof {
                    assert(Converter::frame_ok(*old(self), base3));
                    assert(Converter::frame_ok(base3, base3));
                    assert(base3.names_view() == old(self).names_view().push(Seq::empty()));
                    assert(base3.names_view().drop_last() =~~= old(self).names_view());
                    assert(else_body@.skip(0) =~= else_body@);
                }
                let ne = else_body.len();
                let mut j: usize = 0;
                while j < ne
                    invariant
                        j <= ne,
                        ne == else_body@.len(),
                        decreases_to!(*s => else_body@),
                        self.wf(),
                        base3.wf(),
                        Converter::frame_ok(*old(self), base3),
                        Converter::frame_ok(base3, *self),
                        merge_b < base3.spec_done().len(),
                        base3.spec_cur() != merge_b,
                        base3.spec_cur() >= old(self).spec_done().len(),
                        merge_b >= old(self).spec_done().len(),
                        base3.spec_done()[merge_b as int] is None,
                        base3.spec_scopes().len() == old(self).spec_scopes().len() + 1,
                        self.spec_scopes().len() == base3.spec_scopes().len(),
                        base3.names_view() == old(self).names_view().push(Seq::empty()),
                        self.names_view().len() == base3.names_view().len(),
                        self.names_view().drop_last() == old(self).names_view(),
                        *s == (SrcStmt::If {
                            cond: *cond,
                            then_body: *then_body,
                            else_body: *else_body,
                        }),
                        stmts_nresolve(base3.names_view(), else_body@) ==> stmts_nresolve(
                            self.names_view(),
                            else_body@.skip(j as int),
                        ),
                        base3.spec_next_var() <= old(self).spec_next_var() + list_slot_demand(
                            then_body@,
                        ),
                        base3.spec_done().len() <= old(self).spec_done().len() + 3
                            + list_block_demand(then_body@),
                        self.spec_next_var() <= base3.spec_next_var() + list_slot_demand(
                            else_body@.take(j as int),
                        ),
                        self.spec_done().len() <= base3.spec_done().len() + list_block_demand(
                            else_body@.take(j as int),
                        ),
                    decreases ne - j,
                {
                    let ghost before = *self;
                    proof {
                        assert(decreases_to!(else_body@ => else_body@[j as int]));
                    }
                    match self.lower_stmt(&else_body[j]) {
                        Ok(()) => {},
                        Err(err) => {
                            proof {
                                lemma_frame_trans(base3, before, *self);
                                lemma_frame_trans(*old(self), base3, *self);
                                if err is UnresolvedName {
                                    if stmts_nresolve(base3.names_view(), else_body@) {
                                        assert(stmts_nresolve(
                                            before.names_view(),
                                            else_body@.skip(j as int),
                                        ));
                                        assert(else_body@.skip(j as int)[0] == else_body@[
                                            j as int
                                        ]);
                                        assert(stmt_nresolves(
                                            before.names_view(),
                                            else_body@[j as int],
                                        ));
                                        assert(false);
                                    }
                                    assert(!stmt_nresolves(old(self).names_view(), *s));
                                }
                                assert(else_body@.take(j + 1).drop_last() =~= else_body@.take(
                                    j as int,
                                ));
                                assert(else_body@.take(j + 1).last() == else_body@[j as int]);
                                lemma_demand_take_le(else_body@, j + 1);
                            }
                            return Err(err);
                        },
                    }
                    proof {
                        lemma_frame_trans(base3, before, *self);
                        lemma_scope_after_frame(before.names_view(), else_body@[j as int]);
                        assert(else_body@.take(j + 1).drop_last() =~= else_body@.take(j as int));
                        assert(else_body@.take(j + 1).last() == else_body@[j as int]);
                        if stmts_nresolve(base3.names_view(), else_body@) {
                            assert(stmts_nresolve(before.names_view(), else_body@.skip(j as int)));
                            assert(else_body@.skip(j as int)[0] == else_body@[j as int]);
                            assert(else_body@.skip(j as int).drop_first() =~= else_body@.skip(
                                j + 1,
                            ));
                            assert(stmts_nresolve(self.names_view(), else_body@.skip(j + 1)));
                        }
                    }
                    j += 1;
                }
                proof {
                    lemma_frame_pending(base3, *self, merge_b as int);
                }
                self.pop_scope();
                let ghost mid2 = *self;
                self.seal_current(Terminator::Goto(merge_b), merge_b);
                proof {
                    lemma_frame_reseal(*old(self), base3, mid2, *self, merge_b as int);
                    assert(self.names_view() == old(self).names_view());
                    assert(else_body@.take(ne as int) =~= else_body@);
                }
                Ok(())
            },
            SrcStmt::While { cond, body } => {
                let c = match self.lower_expr(cond) {
                    Ok(x) => x,
                    Err(err) => {
                        proof {
                            lemma_expr_bridge(self.spec_scopes(), *cond);
                        }
                        return Err(err);
                    },
                };
                if self.done.len() >= usize::MAX - 3 {
                    return Err(BuilderError::TooManyBlocks);
                }
                let header = self.allocate_block_id();
                let body_b = self.allocate_block_id();
                let exit_b = self.allocate_block_id();
                let t = Terminator::If { condition: c, then_block: body_b, else_block: exit_b };
                proof {
                    assert forall|v: int|
                        term_reads(t).contains(v) implies 0 <= v < self.next_var_id as int by {
                        assert(rvalue_reads(c).contains(v));
                    }
                }
                self.close_fresh(header, t);
                self.seal_current(Terminator::Goto(header), body_b);
                self.push_scope();
                let ghost base = *self;
                proof {
                    assert(Converter::frame_ok(*old(self), base));
                    assert(Converter::frame_ok(base, base));
                    assert(base.names_view() == old(self).names_view().push(Seq::empty()));
                    assert(base.names_view().drop_last() =~~= old(self).names_view());
                    assert(body@.skip(0) =~= body@);
                    assert(decreases_to!(*s => *body));
                    assert(decreases_to!(*body => body@));
                    assert(decreases_to!(*s => body@));
                }
                let nb = body.len();
                let mut i: usize = 0;
                while i < nb
                    invariant
                        i <= nb,
                        nb == body@.len(),
                        decreases_to!(*s => body@),
                        self.wf(),
                        base.wf(),
                        Converter::frame_ok(*old(self), base),
                        Converter::frame_ok(base, *self),
                        exit_b < base.spec_done().len(),
                        base.spec_cur() != exit_b,
                        base.spec_cur() >= old(self).spec_done().len(),
                        exit_b >= old(self).spec_done().len(),
                        base.spec_done()[exit_b as int] is None,
                        base.spec_scopes().len() == old(self).spec_scopes().len() + 1,
                        self.spec_scopes().len() == base.spec_scopes().len(),
                        base.names_view() == old(self).names_view().push(Seq::empty()),
                        self.names_view().len() == base.names_view().len(),
                        self.names_view().drop_last() == old(self).names_view(),
                        *s == (SrcStmt::While { cond: *cond, body: *body }),
                        stmts_nresolve(base.names_view(), body@) ==> stmts_nresolve(
                            self.names_view(),
                            body@.skip(i as int),
                        ),
                        base.spec_next_var() == old(self).spec_next_var(),
                        base.spec_done().len() == old(self).spec_done().len() + 3,
                        self.spec_next_var() <= base.spec_next_var() + list_slot_demand(
                            body@.take(i as int),
                        ),
                        self.spec_done().len() <= base.spec_done().len() + list_block_demand(
                            body@.take(i as int),
                        ),
                    decreases nb - i,
                {
                    let ghost before = *self;
                    proof {
                        assert(decreases_to!(body@ => body@[i as int]));
                    }
                    match self.lower_stmt(&body[i]) {
                        Ok(()) => {},
                        Err(err) => {
                            proof {
                                lemma_frame_trans(base, before, *self);
                                lemma_frame_trans(*old(self), base, *self);
                                if err is UnresolvedName {
                                    if stmts_nresolve(base.names_view(), body@) {
                                        assert(stmts_nresolve(
                                            before.names_view(),
                                            body@.skip(i as int),
                                        ));
                                        assert(body@.skip(i as int)[0] == body@[i as int]);
                                        assert(stmt_nresolves(
                                            before.names_view(),
                                            body@[i as int],
                                        ));
                                        assert(false);
                                    }
                                    assert(!stmt_nresolves(old(self).names_view(), *s));
                                }
                                assert(body@.take(i + 1).drop_last() =~= body@.take(i as int));
                                assert(body@.take(i + 1).last() == body@[i as int]);
                                lemma_demand_take_le(body@, i + 1);
                            }
                            return Err(err);
                        },
                    }
                    proof {
                        lemma_frame_trans(base, before, *self);
                        lemma_scope_after_frame(before.names_view(), body@[i as int]);
                        assert(body@.take(i + 1).drop_last() =~= body@.take(i as int));
                        assert(body@.take(i + 1).last() == body@[i as int]);
                        if stmts_nresolve(base.names_view(), body@) {
                            assert(stmts_nresolve(before.names_view(), body@.skip(i as int)));
                            assert(body@.skip(i as int)[0] == body@[i as int]);
                            assert(body@.skip(i as int).drop_first() =~= body@.skip(i + 1));
                            assert(stmts_nresolve(self.names_view(), body@.skip(i + 1)));
                        }
                    }
                    i += 1;
                }
                proof {
                    lemma_frame_pending(base, *self, exit_b as int);
                }
                self.pop_scope();
                let ghost mid = *self;
                self.seal_current(Terminator::Goto(header), exit_b);
                proof {
                    lemma_frame_reseal(*old(self), base, mid, *self, exit_b as int);
                    assert(self.names_view() == old(self).names_view());
                    assert(body@.take(nb as int) =~= body@);
                }
                Ok(())
            },
            SrcStmt::Block(body) => {
                self.push_scope();
                let ghost base = *self;
                proof {
                    assert(Converter::frame_ok(*old(self), base));
                    assert(Converter::frame_ok(base, base));
                    assert(base.names_view() == old(self).names_view().push(Seq::empty()));
                    assert(base.names_view().drop_last() =~~= old(self).names_view());
                    assert(body@.skip(0) =~= body@);
                    assert(decreases_to!(*s => *body));
                    assert(decreases_to!(*body => body@));
                    assert(decreases_to!(*s => body@));
                }
                let nb = body.len();
                let mut i: usize = 0;
                while i < nb
                    invariant
                        i <= nb,
                        nb == body@.len(),
                        decreases_to!(*s => body@),
                        self.wf(),
                        base.wf(),
                        Converter::frame_ok(*old(self), base),
                        Converter::frame_ok(base, *self),
                        base.spec_scopes().len() == old(self).spec_scopes().len() + 1,
                        self.spec_scopes().len() == base.spec_scopes().len(),
                        base.names_view() == old(self).names_view().push(Seq::empty()),
                        self.names_view().len() == base.names_view().len(),
                        self.names_view().drop_last() == old(self).names_view(),
                        *s == (SrcStmt::Block(*body)),
                        stmts_nresolve(base.names_view(), body@) ==> stmts_nresolve(
                            self.names_view(),
                            body@.skip(i as int),
                        ),
                        base.spec_next_var() == old(self).spec_next_var(),
                        base.spec_done().len() == old(self).spec_done().len(),
                        self.spec_next_var() <= base.spec_next_var() + list_slot_demand(
                            body@.take(i as int),
                        ),
                        self.spec_done().len() <= base.spec_done().len() + list_block_demand(
                            body@.take(i as int),
                        ),
                    decreases nb - i,
                {
                    let ghost before = *self;
                    proof {
                        assert(decreases_to!(body@ => body@[i as int]));
                    }
                    match self.lower_stmt(&body[i]) {
                        Ok(()) => {},
                        Err(err) => {
                            proof {
                                lemma_frame_trans(base, before, *self);
                                lemma_frame_trans(*old(self), base, *self);
                                if err is UnresolvedName {
                                    if stmts_nresolve(base.names_view(), body@) {
                                        assert(stmts_nresolve(
                                            before.names_view(),
                                            body@.skip(i as int),
                                        ));
                                        assert(body@.skip(i as int)[0] == body@[i as int]);
                                        assert(stmt_nresolves(
                                            before.names_view(),
                                            body@[i as int],
                                        ));
                                        assert(false);
                                    }
                                    assert(!stmt_nresolves(old(self).names_view(), *s));
                                }
                                assert(body@.take(i + 1).drop_last() =~= body@.take(i as int));
                                assert(body@.take(i + 1).last() == body@[i as int]);
                                lemma_demand_take_le(body@, i + 1);
                            }
                            return Err(err);
                        },
                    }
                    proof {
                        lemma_frame_trans(base, before, *self);
                        lemma_scope_after_frame(before.names_view(), body@[i as int]);
                        assert(body@.take(i + 1).drop_last() =~= body@.take(i as int));
                        assert(body@.take(i + 1).last() == body@[i as int]);
                        if stmts_nresolve(base.names_view(), body@) {
                            assert(stmts_nresolve(before.names_view(), body@.skip(i as int)));
                            assert(body@.skip(i as int)[0] == body@[i as int]);
                            assert(body@.skip(i as int).drop_first() =~= body@.skip(i + 1));
                            assert(stmts_nresolve(self.names_view(), body@.skip(i + 1)));
                        }
                    }
                    i += 1;
                }
                self.pop_scope();
                proof {
                    lemma_frame_trans(*old(self), base, *self);
                    assert(self.names_view() == old(self).names_view());
                    assert(body@.take(nb as int) =~= body@);
                }
                Ok(())
            },
        }
    }
}

/// The frame relation composes.
proof fn lemma_frame_trans(a: Converter, b: Converter, c: Converter)
    requires
        Converter::frame_ok(a, b),
        Converter::frame_ok(b, c),
    ensures
        Converter::frame_ok(a, c),
{
    assert forall|i: int|
        0 <= i < a.spec_done().len() && i != a.spec_cur() implies c.spec_done()[i]
        == a.spec_done()[i] by {
        assert(b.spec_done()[i] == a.spec_done()[i]);
        if b.spec_cur() == a.spec_cur() {
            assert(i != b.spec_cur());
        } else {
            assert(b.spec_cur() >= a.spec_done().len());
            assert(i != b.spec_cur());
        }
        assert(c.spec_done()[i] == b.spec_done()[i]);
    }
}

/// A pending block off the cursor stays pending across lowering steps.
proof fn lemma_frame_pending(a: Converter, b: Converter, p: int)
    requires
        Converter::frame_ok(a, b),
        0 <= p < a.spec_done().len(),
        p != a.spec_cur(),
        a.spec_done()[p] is None,
    ensures
        b.spec_done()[p] is None,
        b.spec_cur() != p,
{
    assert(b.spec_done()[p] == a.spec_done()[p]);
    if b.spec_cur() == a.spec_cur() {
    } else {
        assert(b.spec_cur() >= a.spec_done().len());
    }
}

/// Sealing the block under the cursor and moving to another fresh block
/// keeps the frame relative to a state all of whose blocks lie below the
/// cursor chain.
proof fn lemma_frame_reseal(
    orig: Converter,
    base: Converter,
    mid: Converter,
    aft: Converter,
    newcur: int,
)
    requires
        Converter::frame_ok(orig, base),
        Converter::frame_ok(base, mid),
        base.spec_cur() >= orig.spec_done().len(),
        aft.spec_done().len() == mid.spec_done().len(),
        forall|i: int|
            0 <= i < mid.spec_done().len() && i != mid.spec_cur() ==> aft.spec_done()[i]
                == mid.spec_done()[i],
        aft.spec_cur() == newcur,
        newcur >= orig.spec_done().len(),
        aft.spec_next_var() == mid.spec_next_var(),
        aft.spec_function() == mid.spec_function(),
    ensures
        Converter::frame_ok(orig, aft),
{
    assert forall|i: int|
        0 <= i < orig.spec_done().len() && i != orig.spec_cur() implies aft.spec_done()[i]
        == orig.spec_done()[i] by {
        assert(base.spec_done()[i] == orig.spec_done()[i]);
        assert(i != base.spec_cur());
        assert(mid.spec_done()[i] == base.spec_done()[i]);
        if mid.spec_cur() == base.spec_cur() {
        } else {
            assert(mid.spec_cur() >= base.spec_done().len());
            assert(base.spec_done().len() >= orig.spec_done().len());
        }
        assert(aft.spec_done()[i] == mid.spec_done()[i]);
    }
}

/// Facts bounded by the old slot counter persist when it grows.
proof fn lemma_next_var_grow(pre: Converter, post: Converter)
    requires
        pre.wf(),
        post.spec_next_var() >= pre.spec_next_var(),
        post.spec_done() == pre.spec_done(),
        post.spec_cur_stmts() == pre.spec_cur_stmts(),
    ensures
        forall|i: int|
            0 <= i < post.spec_done().len() ==> match #[trigger] post.spec_done()[i] {
                Some(b) => b.id == i && terminator_targets_ok(
                    b.terminator,
                    post.spec_done().len() as nat,
                ) && block_slots_below(b, post.spec_next_var() as int),
                None => true,
            },
        forall|j: int|
            0 <= j < post.spec_cur_stmts().len() ==> set_below(
                stmt_reads(#[trigger] post.spec_cur_stmts()[j]),
                post.spec_next_var() as int,
            ) && set_below(stmt_writes(post.spec_cur_stmts()[j]), post.spec_next_var() as int),
{
    assert forall|i: int|
        0 <= i < post.spec_done().len() implies match #[trigger] post.spec_done()[i] {
        Some(b) => b.id == i && terminator_targets_ok(b.terminator, post.spec_done().len() as nat)
            && block_slots_below(b, post.spec_next_var() as int),
        None => true,
    } by {
        match post.spec_done()[i] {
            Some(b) => {
                assert(pre.spec_done()[i] == Some(b));
                assert(block_slots_below(b, pre.spec_next_var() as int));
                assert forall|i2: int|
                    0 <= i2 < b.statements@.len() implies set_below(
                    stmt_reads(#[trigger] b.statements@[i2]),
                    post.spec_next_var() as int,
                ) && set_below(stmt_writes(b.statements@[i2]), post.spec_next_var() as int) by {
                    assert(set_below(stmt_reads(b.statements@[i2]), pre.spec_next_var() as int));
                    assert(set_below(stmt_writes(b.statements@[i2]), pre.spec_next_var() as int));
                }
            },
            None => {},
        }
    }
    assert forall|j: int|
        0 <= j < post.spec_cur_stmts().len() implies set_below(
        stmt_reads(#[trigger] post.spec_cur_stmts()[j]),
        post.spec_next_var() as int,
    ) && set_below(stmt_writes(post.spec_cur_stmts()[j]), post.spec_next_var() as int) by {
        assert(set_below(stmt_reads(pre.spec_cur_stmts()[j]), pre.spec_next_var() as int));
        assert(set_below(stmt_writes(pre.spec_cur_stmts()[j]), pre.spec_next_var() as int));
    }
}

fn clone_binop(op: &BinOp) -> (r: BinOp)
    ensures
        r == *op,
{
    match op {
        BinOp::Add => BinOp::Add,
        BinOp::Sub => BinOp::Sub,
        BinOp::Mul => BinOp::Mul,
        BinOp::Div => BinOp::Div,
        BinOp::Mod => BinOp::Mod,
        BinOp::Eq => BinOp::Eq,
        BinOp::Ne => BinOp::Ne,
        BinOp::Lt => BinOp::Lt,
        BinOp::Le => BinOp::Le,
        BinOp::Gt => BinOp::Gt,
        BinOp::Ge => BinOp::Ge,
        BinOp::And => BinOp::And,
        BinOp::Or => BinOp::Or,
    }
}

fn clone_unop(op: &UnOp) -> (r: UnOp)
    ensures
        r == *op,
{
    match op {
        UnOp::Not => UnOp::Not,
        UnOp::Neg => UnOp::Neg,
    }
}

/// The names of the first `n` parameters, in declaration order; an unnamed
/// parameter contributes an empty name (such a declaration fails earlier).
pub open spec fn param_names_prefix(decl: SrcFunctionDecl, n: int) -> Seq<Seq<char>> {
    Seq::new(n as nat, |j: int| match decl.params@[j].name {
        Some(nm) => nm@,
        None => Seq::empty(),
    })
}

/// The scope a function body starts in: one scope holding the parameters.
pub open spec fn decl_scope(decl: SrcFunctionDecl) -> Seq<Seq<Seq<char>>> {
    seq![param_names_prefix(decl, decl.params@.len() as int)]
}

/// The first `n` parameters of the lowered function correspond one to one
/// to the declared parameters: same name, matching type, slot in
/// declaration order.
pub open spec fn params_match(decl: SrcFunctionDecl, f: Function, n: int) -> bool {
    forall|j: int|
        0 <= j < n ==> ((#[trigger] decl.params@[j]).name matches Some(pn) && f.parameters@[j].name@
            == pn@) && (decl.params@[j].ty matches Some(pt) && type_matches(
            pt,
            f.parameters@[j].param_type,
        ))
}

/// The lowered return type corresponds to the declared one.
pub open spec fn ret_matches(decl: SrcFunctionDecl, f: Function) -> bool {
    match decl.return_type {
        Some(rt) => f.return_type matches Some(t) && type_matches(rt, t),
        None => f.return_type is None,
    }
}

/// The lowered signature corresponds to the declaration: every parameter by
/// name, type and position, the return type, and the storage class.
pub open spec fn signature_matches(decl: SrcFunctionDecl, f: Function) -> bool {
    &&& f.parameters@.len() == decl.params@.len()
    &&& params_match(decl, f, decl.params@.len() as int)
    &&& ret_matches(decl, f)
    &&& f.is_static == decl.is_static
    &&& f.is_public == !decl.is_static
}

impl Converter {
    /// Lowers one defined function into a well-formed MIR function: block
    /// ids contiguous from the entry block 0, every terminator target
    /// resolving, parameters on slots 0, 1, ... in declaration order.
    pub fn convert_function(decl: &SrcFunctionDecl) -> (r: Result<Function, BuilderError>)
        ensures
            r matches Ok(f) ==> wf_function(f) && fn_slots_below(f, usize::MAX as int) && (
            decl.name matches Some(n) && f.name@ == n@),
            r matches Ok(f) ==> signature_matches(*decl, f),
            r matches Ok(f) ==> (decl.body is Some ==> f.basic_blocks@.len() >= 1) && (
            decl.body is None ==> f.basic_blocks@.len() == 0),
            r matches Err(e) ==> match e {
                BuilderError::UnnamedFunction => decl.name is None,
                BuilderError::UnnamedParameter => exists|j: int|
                    0 <= j < decl.params@.len() && (#[trigger] decl.params@[j]).name is None,
                BuilderError::UntypedParameter => exists|j: int|
                    0 <= j < decl.params@.len() && (#[trigger] decl.params@[j]).ty is None,
                BuilderError::UnresolvedName(_) => decl.body matches Some(b) && !stmts_nresolve(
                    decl_scope(*decl),
                    b@,
                ),
                BuilderError::TooManySlots => decl.body matches Some(b) && decl.params@.len()
                    + list_slot_demand(b@) >= usize::MAX as int,
                BuilderError::TooManyBlocks => decl.body matches Some(b) && 4 + list_block_demand(
                    b@,
                ) >= usize::MAX as int,
            },
            decl.name is None ==> r is Err,
    {
        let name = match &decl.name {
            Some(n) => n.clone(),
            None => {
                return Err(BuilderError::UnnamedFunction);
            },
        };
        let ghost name_v = name@;
        let mut warnings: Vec<String> = Vec::new();
        let ret = match &decl.return_type {
            Some(t) => Some(convert_src_type(t, &mut warnings)),
            None => None,
        };
        let mut conv = Converter::new(name, ret);
        conv.function.is_static = decl.is_static;
        conv.function.is_public = !decl.is_static;
        proof {
            assert(conv.wf());
            assert(param_names_prefix(*decl, 0) =~= Seq::<Seq<char>>::empty());
            assert(conv.names_view() == seq![param_names_prefix(*decl, 0)]);
        }
        // parameters claim slots first, in declaration order
        let np = decl.params.len();
        let mut i: usize = 0;
        while i < np
            invariant
                i <= np,
                np == decl.params@.len(),
                conv.wf(),
                conv.spec_function().parameters@.len() == i,
                conv.spec_next_var() == i,
                conv.spec_function().name@ == name_v,
                params_match(*decl, conv.spec_function(), i as int),
                ret_matches(*decl, conv.spec_function()),
                conv.spec_function().is_static == decl.is_static,
                conv.spec_function().is_public == !decl.is_static,
                conv.spec_done().len() == 1,
                conv.spec_done()[0] is None,
                conv.spec_cur() == 0,
                conv.spec_scopes().len() == 1,
                conv.names_view() == seq![param_names_prefix(*decl, i as int)],
            decreases np - i,
        {
            let pname = match &decl.params[i].name {
                Some(n) => n.clone(),
                None => {
                    proof {
                        assert(decl.params@[i as int].name is None);
                    }
                    return Err(BuilderError::UnnamedParameter);
                },
            };
            let pty = match &decl.params[i].ty {
                Some(t) => convert_src_type(t, &mut conv.warnings),
                None => {
                    proof {
                        assert(decl.params@[i as int].ty is None);
                    }
                    return Err(BuilderError::UntypedParameter);
                },
            };
            assert(conv.spec_next_var() < usize::MAX);
            let slot = conv.allocate_var_id();
            conv.bind(pname.clone(), slot);
            conv.function.add_parameter(pname, pty, slot);
            proof {
                assert(params_slots_sequential(conv.function));
                assert(conv.wf());
                assert(params_match(*decl, conv.spec_function(), i + 1));
                assert(conv.names_view() =~~= seq![param_names_prefix(*decl, i + 1)]);
            }
            i += 1;
        }
        // lower the body of a definition
        match &decl.body {
            Some(stmts) => {
                let ghost base = conv;
                proof {
                    assert(Converter::frame_ok(base, conv));
                    assert(conv.names_view() == decl_scope(*decl));
                    assert(stmts@.skip(0) =~= stmts@);
                    assert(stmts@.take(0) =~= Seq::<SrcStmt>::empty());
                }
                let ns = stmts.len();
                let mut k: usize = 0;
                while k < ns
                    invariant
                        k <= ns,
                        ns == stmts@.len(),
                        conv.wf(),
                        base.wf(),
                        Converter::frame_ok(base, conv),
                        conv.spec_function().name@ == name_v,
                        params_match(*decl, conv.spec_function(), decl.params@.len() as int),
                        conv.spec_function().parameters@.len() == decl.params@.len(),
                        ret_matches(*decl, conv.spec_function()),
                        conv.spec_function().is_static == decl.is_static,
                        conv.spec_function().is_public == !decl.is_static,
                        decl.body == Some(*stmts),
                        stmts_nresolve(decl_scope(*decl), stmts@) ==> stmts_nresolve(
                            conv.names_view(),
                            stmts@.skip(k as int),
                        ),
                        conv.spec_next_var() <= decl.params@.len() + list_slot_demand(
                            stmts@.take(k as int),
                        ),
                        conv.spec_done().len() <= 1 + list_block_demand(stmts@.take(k as int)),
                    decreases ns - k,
                {
                    let ghost before = conv;
                    match conv.lower_stmt(&stmts[k]) {
                        Ok(()) => {},
                        Err(err) => {
                            proof {
                                if err is UnresolvedName {
                                    if stmts_nresolve(decl_scope(*decl), stmts@) {
                                        assert(stmts_nresolve(
                                            before.names_view(),
                                            stmts@.skip(k as int),
                                        ));
                                        assert(stmts@.skip(k as int)[0] == stmts@[k as int]);
                                        assert(stmt_nresolves(
                                            before.names_view(),
                                            stmts@[k as int],
                                        ));
                                        assert(false);
                                    }
                                }
                                assert(stmts@.take(k + 1).drop_last() =~= stmts@.take(k as int));
                                assert(stmts@.take(k + 1).last() == stmts@[k as int]);
                                lemma_demand_take_le(stmts@, k + 1);
                            }
                            return Err(err);
                        },
                    }
                    proof {
                        lemma_frame_trans(base, before, conv);
                        assert(stmts@.take(k + 1).drop_last() =~= stmts@.take(k as int));
                        assert(stmts@.take(k + 1).last() == stmts@[k as int]);
                        if stmts_nresolve(decl_scope(*decl), stmts@) {
                            assert(stmts_nresolve(before.names_view(), stmts@.skip(k as int)));
                            assert(stmts@.skip(k as int)[0] == stmts@[k as int]);
                            assert(stmts@.skip(k as int).drop_first() =~= stmts@.skip(k + 1));
                            assert(stmts_nresolve(conv.names_view(), stmts@.skip(k + 1)));
                        }
                    }
                    k += 1;
                }
                let blocks = conv.finish_blocks();
                let ghost nv = conv.spec_next_var();
                conv.function.basic_blocks = blocks;
                proof {
                    assert(cfg_well_formed(conv.function));
                    assert(blocks_contiguous(conv.function));
                    assert(params_slots_sequential(conv.function));
                    assert(wf_function(conv.function));
                    assert forall|b: int|
                        0 <= b < conv.function.basic_blocks@.len() implies block_slots_below(
                        #[trigger] conv.function.basic_blocks@[b],
                        usize::MAX as int,
                    ) by {
                        lemma_block_widen(conv.function.basic_blocks@[b], nv as int,
                            usize::MAX as int);
                    }
                    assert(fn_slots_below(conv.function, usize::MAX as int));
                }
                Ok(conv.function)
            },
            None => {
                // a bare declaration: signature only, no blocks
                proof {
                    assert(cfg_well_formed(conv.function));
                    assert(fn_slots_below(conv.function, usize::MAX as int));
                }
                Ok(conv.function)
            },
        }
    }

    /// Seals the current block with a void return (a fall-through at the end
    /// of a body returns nothing) and assembles the blocks in id order. A
    /// block still pending here never happened during lowering; it closes
    /// as an empty void return so that assembly stays total.
    fn finish_blocks(&mut self) -> (blocks: Vec<BasicBlock>)
        requires
            old(self).wf(),
        ensures
            blocks@.len() == old(self).spec_done().len(),
            forall|i: int|
                0 <= i < blocks@.len() ==> (#[trigger] blocks@[i]).id == i
                    && terminator_targets_ok(blocks@[i].terminator, blocks@.len() as nat)
                    && block_slots_below(blocks@[i], final(self).spec_next_var() as int),
            final(self).spec_function() == old(self).spec_function(),
            final(self).spec_next_var() == old(self).spec_next_var(),
    {
        let t = Terminator::Return(None);
        proof {
            assert forall|v: int|
                term_reads(t).contains(v) implies 0 <= v < self.next_var_id as int by {}
        }
        let mut stmts: Vec<Statement> = Vec::new();
        mem::swap(&mut stmts, &mut self.cur_stmts);
        let id = self.cur;
        let block = BasicBlock { id, statements: stmts, terminator: t };
        proof {
            assert forall|i2: int|
                0 <= i2 < block.statements@.len() implies set_below(
                stmt_reads(#[trigger] block.statements@[i2]),
                self.next_var_id as int,
            ) && set_below(stmt_writes(block.statements@[i2]), self.next_var_id as int) by {
                assert(block.statements@[i2] == old(self).cur_stmts@[i2]);
            }
            assert(block_slots_below(block, self.next_var_id as int));
        }
        self.done.set(id, Some(block));
        let n = self.done.len();
        let mut rev: Vec<BasicBlock> = Vec::new();
        while self.done.len() > 0
            invariant
                self.done@.len() + rev@.len() == n,
                forall|i: int|
                    0 <= i < self.done@.len() ==> match #[trigger] self.done@[i] {
                        Some(b2) => b2.id == i && terminator_targets_ok(b2.terminator, n as nat)
                            && block_slots_below(b2, self.next_var_id as int),
                        None => true,
                    },
                forall|j: int|
                    0 <= j < rev@.len() ==> (#[trigger] rev@[j]).id == n - 1 - j
                        && terminator_targets_ok(rev@[j].terminator, n as nat)
                        && block_slots_below(rev@[j], self.next_var_id as int),
                self.function == old(self).function,
                self.next_var_id == old(self).next_var_id,
            decreases self.done@.len(),
        {
            let idx = self.done.len() - 1;
            match self.done.pop() {
                Some(opt) => {
                    match opt {
                        Some(b) => {
                            rev.push(b);
                        },
                        None => {
                            let fallback = BasicBlock {
                                id: idx,
                                statements: Vec::new(),
                                terminator: Terminator::Return(None),
                            };
                            proof {
                                assert(block_slots_below(fallback, self.next_var_id as int));
                            }
                            rev.push(fallback);
                        },
                    }
                },
                None => {
                    proof {
                        assert(false);
                    }
                },
            }
        }
        let mut blocks: Vec<BasicBlock> = Vec::new();
        while rev.len() > 0
            invariant
                rev@.len() + blocks@.len() == n,
                forall|j: int|
                    0 <= j < rev@.len() ==> (#[trigger] rev@[j]).id == n - 1 - j
                        && terminator_targets_ok(rev@[j].terminator, n as nat)
                        && block_slots_below(rev@[j], self.next_var_id as int),
                forall|i: int|
                    0 <= i < blocks@.len() ==> (#[trigger] blocks@[i]).id == i
                        && terminator_targets_ok(blocks@[i].terminator, n as nat)
                        && block_slots_below(blocks@[i], self.next_var_id as int),
                blocks@.len() == n - rev@.len(),
                self.function == old(self).function,
                self.next_var_id == old(self).next_var_id,
            decreases rev@.len(),
        {
            match rev.pop() {
                Some(b) => {
                    blocks.push(b);
                },
                None => {
                    proof {
                        assert(false);
                    }
                },
            }
        }
        proof {
            assert(blocks@.len() == n);
        }
        blocks
    }

    /// Converts a whole project in two phases: discovery of every named
    /// function and global with insert-if-absent semantics, then body
    /// lowering for each definition. A defining declaration replaces its
    /// whole placeholder entry under the same name — placeholders carry no
    /// parameter list, and the lowered body's slots belong with the
    /// parameter list that allocated them. A function whose conversion
    /// fails is reported in the returned warnings and keeps its
    /// placeholder; the rest of the project still converts.
    pub fn convert_project(units: &Vec<SrcUnit>) -> (r: (ProjectMIR, Vec<String>))
        ensures
            wf_project(r.0),
            project_analyzable(r.0),
            units_covered(r.0, units@, units@.len() as int),
            units_handled(r.0, r.1@.len() > 0, units@, units@.len() as int),
    {
        let mut p = ProjectMIR::new();
        let mut warnings: Vec<String> = Vec::new();
        // phase 1: discovery
        let nu = units.len();
        let mut u: usize = 0;
        while u < nu
            invariant
                u <= nu,
                nu == units@.len(),
                wf_project(p),
                project_analyzable(p),
                units_covered(p, units@, u as int),
            decreases nu - u,
        {
            let nd = units[u].decls.len();
            let mut d: usize = 0;
            while d < nd
                invariant
                    d <= nd,
                    u < units@.len(),
                    nd == units@[u as int].decls@.len(),
                    wf_project(p),
                    project_analyzable(p),
                    units_covered(p, units@, u as int),
                    decls_covered(p, units@[u as int].decls@, d as int),
                decreases nd - d,
            {
                let ghost decls = units@[u as int].decls@;
                let ghost pre_decl = p;
                match &units[u].decls[d] {
                    SrcDecl::Function(fd) => {
                        match &fd.name {
                            Some(n) => {
                                let ret = match &fd.return_type {
                                    Some(t) => Some(convert_src_type(t, &mut warnings)),
                                    None => None,
                                };
                                let mut f = Function::new(n.clone(), ret);
                                f.is_static = fd.is_static;
                                f.is_public = !fd.is_static;
                                proof {
                                    assert(wf_function(f));
                                    assert(fn_slots_below(f, usize::MAX as int));
                                }
                                let ghost pre = p;
                                let added = p.add_function(f);
                                proof {
                                    lemma_project_grow(pre, p, f, added);
                                    if added {
                                        assert(p.functions@[p.functions@.len() - 1].name@ == n@);
                                        assert(has_function(p, n@));
                                    } else {
                                        lemma_names_mono(pre, p);
                                    }
                                    assert(has_function(p, n@));
                                }
                            },
                            None => {},
                        }
                    },
                    SrcDecl::Global(gd) => {
                        match &gd.name {
                            Some(n) => {
                                let ty = match &gd.ty {
                                    Some(t) => convert_src_type(t, &mut warnings),
                                    None => Type::Unknown,
                                };
                                let g = GlobalVar {
                                    name: n.clone(),
                                    var_type: ty,
                                    is_static: gd.is_static,
                                    is_public: gd.is_public,
                                };
                                let ghost pre = p;
                                let added = p.add_global(g);
                                proof {
                                    lemma_project_grow_global(pre, p, g, added);
                                    if added {
                                        assert(p.globals@[p.globals@.len() - 1].name@ == n@);
                                        assert(crate::mir::has_global(p, n@));
                                    } else {
                                        lemma_names_mono(pre, p);
                                    }
                                    assert(crate::mir::has_global(p, n@));
                                }
                            },
                            None => {},
                        }
                    },
                }
                proof {
                    lemma_covered_mono(pre_decl, p, units@, u as int);
                    lemma_decls_covered_mono(pre_decl, p, decls, d as int);
                    assert(decls_covered(p, decls, d + 1)) by {
                        assert forall|d2: int|
                            0 <= d2 < d + 1 implies match #[trigger] decls[d2] {
                            SrcDecl::Function(fd2) => match fd2.name {
                                Some(nm) => has_function(p, nm@),
                                None => true,
                            },
                            SrcDecl::Global(gd2) => match gd2.name {
                                Some(nm) => crate::mir::has_global(p, nm@),
                                None => true,
                            },
                        } by {
                            if d2 < d {
                                assert(decls_covered(p, decls, d as int));
                            }
                        }
                    }
                }
                d += 1;
            }
            proof {
                assert(units_covered(p, units@, u + 1)) by {
                    assert forall|u2: int|
                        0 <= u2 < u + 1 implies decls_covered(
                        p,
                        (#[trigger] units@[u2]).decls@,
                        units@[u2].decls@.len() as int,
                    ) by {
                        if u2 < u {
                            assert(units_covered(p, units@, u as int));
                        } else {
                            assert(decls_covered(p, units@[u as int].decls@, nd as int));
                        }
                    }
                }
            }
            u += 1;
        }
        // phase 2: body lowering for definitions
        let mut u2: usize = 0;
        while u2 < nu
            invariant
                u2 <= nu,
                nu == units@.len(),
                wf_project(p),
                project_analyzable(p),
                units_covered(p, units@, nu as int),
                units_handled(p, warnings@.len() > 0, units@, u2 as int),
            decreases nu - u2,
        {
            let nd = units[u2].decls.len();
            let mut d: usize = 0;
            while d < nd
                invariant
                    d <= nd,
                    u2 < units@.len(),
                    nu == units@.len(),
                    nd == units@[u2 as int].decls@.len(),
                    wf_project(p),
                    project_analyzable(p),
                    units_covered(p, units@, nu as int),
                    units_handled(p, warnings@.len() > 0, units@, u2 as int),
                    decls_handled(
                        p,
                        warnings@.len() > 0,
                        units@[u2 as int].decls@,
                        d as int,
                    ),
                decreases nd - d,
            {
                let ghost decls = units@[u2 as int].decls@;
                match &units[u2].decls[d] {
                    SrcDecl::Function(fd) => {
                        let is_def = match &fd.body {
                            Some(_) => true,
                            None => false,
                        };
                        if is_def {
                            match Converter::convert_function(fd) {
                                Ok(f) => {
                                    match p.find_function(f.name.as_str()) {
                                        Some(idx) => {
                                            let ghost pre = p;
                                            let ghost fg = f;
                                            let ghost w0 = warnings@.len() > 0;
                                            p.functions.set(idx, f);
                                            proof {
                                                lemma_project_replace(pre, p, idx as int, fg);
                                                lemma_covered_mono(pre, p, units@, nu as int);
                                                lemma_lowered_kept(pre, p, idx as int, fg);
                                                lemma_handled_mono(pre, p, w0, w0, units@,
                                                    u2 as int);
                                                assert(p.functions@[idx as int].name@ == fg.name@);
                                                assert(has_lowered_function(p, fg.name@));
                                                assert(defn_handled(p, w0, decls[d as int]));
                                                assert forall|d2: int|
                                                    0 <= d2 < d + 1 implies defn_handled(
                                                    p,
                                                    w0,
                                                    #[trigger] decls[d2],
                                                ) by {
                                                    if d2 < d {
                                                        assert(defn_handled(pre, w0, decls[d2]));
                                                        lemma_handled_one(pre, p, w0, decls[d2]);
                                                    }
                                                }
                                            }
                                        },
                                        None => {
                                            proof {
                                                // discovery covered every named
                                                // declaration, so the entry exists
                                                assert(units_covered(p, units@, nu as int));
                                                assert(0 <= u2 < nu);
                                                assert(decls_covered(
                                                    p,
                                                    units@[u2 as int].decls@,
                                                    units@[u2 as int].decls@.len() as int,
                                                ));
                                                assert(fd.name matches Some(nm2)
                                                    && f.name@ == nm2@ && has_function(p, nm2@));
                                                assert(false);
                                            }
                                        },
                                    }
                                },
                                Err(err) => {
                                    let ghost w0 = warnings@.len() > 0;
                                    warnings.push(builder_error_message(&err));
                                    proof {
                                        assert(warnings@.len() > 0);
                                        lemma_handled_mono(p, p, w0, true, units@, u2 as int);
                                        assert forall|d2: int|
                                            0 <= d2 < d + 1 implies defn_handled(
                                            p,
                                            true,
                                            #[trigger] decls[d2],
                                        ) by {
                                            match decls[d2] {
                                                SrcDecl::Function(fd2) => {},
                                                SrcDecl::Global(_) => {},
                                            }
                                        }
                                    }
                                },
                            }
                        }
                    },
                    SrcDecl::Global(_) => {},
                }
                d += 1;
            }
            proof {
                assert forall|u3: int|
                    0 <= u3 < u2 + 1 implies decls_handled(
                    p,
                    warnings@.len() > 0,
                    (#[trigger] units@[u3]).decls@,
                    units@[u3].decls@.len() as int,
                ) by {
                    if u3 == u2 {
                        assert(decls_handled(
                            p,
                            warnings@.len() > 0,
                            units@[u2 as int].decls@,
                            nd as int,
                        ));
                    }
                }
            }
            u2 += 1;
        }
        (p, warnings)
    }
}

/// The first `n` declarations of the list are discovered: every named
/// function has a project entry under its name, and so has every named
/// global.
pub open spec fn decls_covered(p: ProjectMIR, decls: Seq<SrcDecl>, n: int) -> bool {
    forall|d: int|
        0 <= d < n ==> match #[trigger] decls[d] {
            SrcDecl::Function(fd) => match fd.name {
                Some(nm) => has_function(p, nm@),
                None => true,
            },
            SrcDecl::Global(gd) => match gd.name {
                Some(nm) => crate::mir::has_global(p, nm@),
                None => true,
            },
        }
}

/// The first `n` units of the stream are discovered.
pub open spec fn units_covered(p: ProjectMIR, units: Seq<SrcUnit>, n: int) -> bool {
    forall|u: int|
        0 <= u < n ==> decls_covered(
            p,
            (#[trigger] units[u]).decls@,
            units[u].decls@.len() as int,
        )
}

/// The project holds a lowered (non-empty-bodied) function of this name.
pub open spec fn has_lowered_function(p: ProjectMIR, name: Seq<char>) -> bool {
    exists|i: int|
        0 <= i < p.functions@.len() && (#[trigger] p.functions@[i].name@) == name
            && p.functions@[i].basic_blocks@.len() >= 1
}

/// One declaration is settled after body lowering: a named definition has a
/// lowered entry under its name, or some failure was reported.
pub open spec fn defn_handled(p: ProjectMIR, warned: bool, d: SrcDecl) -> bool {
    match d {
        SrcDecl::Function(fd) => match fd.name {
            Some(nm) => match fd.body {
                Some(_) => has_lowered_function(p, nm@) || warned,
                None => true,
            },
            None => true,
        },
        SrcDecl::Global(_) => true,
    }
}

/// The first `n` declarations of the list are settled.
pub open spec fn decls_handled(p: ProjectMIR, warned: bool, decls: Seq<SrcDecl>, n: int) -> bool {
    forall|d: int| 0 <= d < n ==> defn_handled(p, warned, #[trigger] decls[d])
}

/// The first `n` units of the stream are settled.
pub open spec fn units_handled(p: ProjectMIR, warned: bool, units: Seq<SrcUnit>, n: int) -> bool {
    forall|u: int|
        0 <= u < n ==> decls_handled(
            p,
            warned,
            (#[trigger] units[u]).decls@,
            units[u].decls@.len() as int,
        )
}

/// Settled declarations stay settled when lowered entries are kept and the
/// warning flag only rises.
proof fn lemma_handled_mono(
    pre: ProjectMIR,
    post: ProjectMIR,
    w1: bool,
    w2: bool,
    units: Seq<SrcUnit>,
    n: int,
)
    requires
        units_handled(pre, w1, units, n),
        w1 ==> w2,
        forall|nm: Seq<char>| has_lowered_function(pre, nm) ==> has_lowered_function(post, nm),
    ensures
        units_handled(post, w2, units, n),
{
    assert forall|u: int|
        0 <= u < n implies decls_handled(
        post,
        w2,
        (#[trigger] units[u]).decls@,
        units[u].decls@.len() as int,
    ) by {
        let decls = units[u].decls@;
        assert(decls_handled(pre, w1, decls, decls.len() as int));
        assert forall|d: int|
            0 <= d < decls.len() implies defn_handled(post, w2, #[trigger] decls[d]) by {
            assert(defn_handled(pre, w1, decls[d]));
            match decls[d] {
                SrcDecl::Function(fd) => {
                    match fd.name {
                        Some(nm) => {
                            match fd.body {
                                Some(_) => {
                                    if has_lowered_function(pre, nm@) {
                                        assert(has_lowered_function(post, nm@));
                                    }
                                },
                                None => {},
                            }
                        },
                        None => {},
                    }
                },
                SrcDecl::Global(_) => {},
            }
        }
    }
}

/// A name-preserving update whose new entry is lowered keeps every lowered
/// name lowered.
proof fn lemma_lowered_kept(pre: ProjectMIR, post: ProjectMIR, idx: int, f: Function)
    requires
        0 <= idx < pre.functions@.len(),
        f.name@ == pre.functions@[idx].name@,
        f.basic_blocks@.len() >= 1,
        post.functions@ == pre.functions@.update(idx, f),
    ensures
        forall|nm: Seq<char>| has_lowered_function(pre, nm) ==> has_lowered_function(post, nm),
{
    assert forall|nm: Seq<char>|
        has_lowered_function(pre, nm) implies has_lowered_function(post, nm) by {
        let i = choose|i: int|
            0 <= i < pre.functions@.len() && (#[trigger] pre.functions@[i].name@) == nm
                && pre.functions@[i].basic_blocks@.len() >= 1;
        if i == idx {
            assert(post.functions@[idx].name@ == nm);
            assert(post.functions@[idx].basic_blocks@.len() >= 1);
        } else {
            assert(post.functions@[i].name@ == nm);
        }
    }
}

/// One settled declaration stays settled when lowered names are kept.
proof fn lemma_handled_one(pre: ProjectMIR, post: ProjectMIR, w: bool, x: SrcDecl)
    requires
        defn_handled(pre, w, x),
        forall|nm: Seq<char>| has_lowered_function(pre, nm) ==> has_lowered_function(post, nm),
    ensures
        defn_handled(post, w, x),
{
    match x {
        SrcDecl::Function(fd) => {
            match fd.name {
                Some(nm) => {
                    match fd.body {
                        Some(_) => {
                            if has_lowered_function(pre, nm@) {
                                assert(has_lowered_function(post, nm@));
                            }
                        },
                        None => {},
                    }
                },
                None => {},
            }
        },
        SrcDecl::Global(_) => {},
    }
}

/// Entries found by name are kept under growth and name-preserving updates.
proof fn lemma_names_mono(pre: ProjectMIR, post: ProjectMIR)
    requires
        post.functions@.len() >= pre.functions@.len(),
        forall|i: int|
            0 <= i < pre.functions@.len() ==> (#[trigger] post.functions@[i]).name@
                == pre.functions@[i].name@,
        post.globals@.len() >= pre.globals@.len(),
        forall|i: int|
            0 <= i < pre.globals@.len() ==> (#[trigger] post.globals@[i]).name@
                == pre.globals@[i].name@,
    ensures
        forall|n: Seq<char>| has_function(pre, n) ==> has_function(post, n),
        forall|n: Seq<char>| crate::mir::has_global(pre, n) ==> crate::mir::has_global(post, n),
{
    assert forall|n: Seq<char>| has_function(pre, n) implies has_function(post, n) by {
        let i = choose|i: int|
            0 <= i < pre.functions@.len() && (#[trigger] pre.functions@[i].name@) == n;
        assert(post.functions@[i].name@ == n);
    }
    assert forall|n: Seq<char>|
        crate::mir::has_global(pre, n) implies crate::mir::has_global(post, n) by {
        let i = choose|i: int|
            0 <= i < pre.globals@.len() && (#[trigger] pre.globals@[i].name@) == n;
        assert(post.globals@[i].name@ == n);
    }
}

/// Coverage facts are kept when entries only grow or keep their names.
proof fn lemma_covered_mono(pre: ProjectMIR, post: ProjectMIR, units: Seq<SrcUnit>, n: int)
    requires
        post.functions@.len() >= pre.functions@.len(),
        forall|i: int|
            0 <= i < pre.functions@.len() ==> (#[trigger] post.functions@[i]).name@
                == pre.functions@[i].name@,
        post.globals@.len() >= pre.globals@.len(),
        forall|i: int|
            0 <= i < pre.globals@.len() ==> (#[trigger] post.globals@[i]).name@
                == pre.globals@[i].name@,
        units_covered(pre, units, n),
    ensures
        units_covered(post, units, n),
{
    lemma_names_mono(pre, post);
    assert forall|u: int|
        0 <= u < n implies decls_covered(
        post,
        (#[trigger] units[u]).decls@,
        units[u].decls@.len() as int,
    ) by {
        let decls = units[u].decls@;
        assert(decls_covered(pre, decls, decls.len() as int));
        assert forall|d: int|
            0 <= d < decls.len() implies match #[trigger] decls[d] {
            SrcDecl::Function(fd) => match fd.name {
                Some(nm) => has_function(post, nm@),
                None => true,
            },
            SrcDecl::Global(gd) => match gd.name {
                Some(nm) => crate::mir::has_global(post, nm@),
                None => true,
            },
        } by {
            match decls[d] {
                SrcDecl::Function(fd) => {
                    match fd.name {
                        Some(nm) => {
                            assert(has_function(pre, nm@));
                        },
                        None => {},
                    }
                },
                SrcDecl::Global(gd) => {
                    match gd.name {
                        Some(nm) => {
                            assert(crate::mir::has_global(pre, nm@));
                        },
                        None => {},
                    }
                },
            }
        }
    }
}

/// The same, for the declarations of a single unit.
proof fn lemma_decls_covered_mono(pre: ProjectMIR, post: ProjectMIR, decls: Seq<SrcDecl>, n: int)
    requires
        post.functions@.len() >= pre.functions@.len(),
        forall|i: int|
            0 <= i < pre.functions@.len() ==> (#[trigger] post.functions@[i]).name@
                == pre.functions@[i].name@,
        post.globals@.len() >= pre.globals@.len(),
        forall|i: int|
            0 <= i < pre.globals@.len() ==> (#[trigger] post.globals@[i]).name@
                == pre.globals@[i].name@,
        decls_covered(pre, decls, n),
    ensures
        decls_covered(post, decls, n),
{
    lemma_names_mono(pre, post);
    assert forall|d: int|
        0 <= d < n implies match #[trigger] decls[d] {
        SrcDecl::Function(fd) => match fd.name {
            Some(nm) => has_function(post, nm@),
            None => true,
        },
        SrcDecl::Global(gd) => match gd.name {
            Some(nm) => crate::mir::has_global(post, nm@),
            None => true,
        },
    } by {
        match decls[d] {
            SrcDecl::Function(fd) => {
                match fd.name {
                    Some(nm) => {
                        assert(has_function(pre, nm@));
                    },
                    None => {},
                }
            },
            SrcDecl::Global(gd) => {
                match gd.name {
                    Some(nm) => {
                        assert(crate::mir::has_global(pre, nm@));
                    },
                    None => {},
                }
            },
        }
    }
}

/// The warning line each conversion failure produces.
pub open spec fn spec_builder_error_message(e: BuilderError) -> Seq<char> {
    match e {
        BuilderError::UnnamedFunction => "a function without a resolvable name was skipped"@,
        BuilderError::UnnamedParameter => "a function with an unnamed parameter was skipped"@,
        BuilderError::UntypedParameter => "a function with an untyped parameter was skipped"@,
        BuilderError::UnresolvedName(n) => "a function reading the unresolved name "@ + n@
            + " was skipped"@,
        BuilderError::TooManySlots => "a function with too many storage slots was skipped"@,
        BuilderError::TooManyBlocks => "a function with too many blocks was skipped"@,
    }
}

/// A human-readable line for one conversion failure.
pub fn builder_error_message(e: &BuilderError) -> (r: String)
    ensures
        r@ == spec_builder_error_message(*e),
{
    match e {
        BuilderError::UnnamedFunction => {
            let mut s = String::new();
            s.append("a function without a resolvable name was skipped");
            proof {
                assert(s@ =~= spec_builder_error_message(*e));
            }
            s
        },
        BuilderError::UnnamedParameter => {
            let mut s = String::new();
            s.append("a function with an unnamed parameter was skipped");
            proof {
                assert(s@ =~= spec_builder_error_message(*e));
            }
            s
        },
        BuilderError::UntypedParameter => {
            let mut s = String::new();
            s.append("a function with an untyped parameter was skipped");
            proof {
                assert(s@ =~= spec_builder_error_message(*e));
            }
            s
        },
        BuilderError::UnresolvedName(n) => {
            let mut s = String::new();
            s.append("a function reading the unresolved name ");
            s.append(n.as_str());
            s.append(" was skipped");
            proof {
                assert(s@ =~= spec_builder_error_message(*e));
            }
            s
        },
        BuilderError::TooManySlots => {
            let mut s = String::new();
            s.append("a function with too many storage slots was skipped");
            proof {
                assert(s@ =~= spec_builder_error_message(*e));
            }
            s
        },
        BuilderError::TooManyBlocks => {
            let mut s = String::new();
            s.append("a function with too many blocks was skipped");
            proof {
                assert(s@ =~= spec_builder_error_message(*e));
            }
            s
        },
    }
}

proof fn lemma_block_widen(bb: BasicBlock, n1: int, n2: int)
    requires
        block_slots_below(bb, n1),
        n1 <= n2,
    ensures
        block_slots_below(bb, n2),
{
    assert forall|i: int|
        0 <= i < bb.statements@.len() implies set_below(
        stmt_reads(#[trigger] bb.statements@[i]),
        n2,
    ) && set_below(stmt_writes(bb.statements@[i]), n2) by {
        assert(set_below(stmt_reads(bb.statements@[i]), n1));
        assert(set_below(stmt_writes(bb.statements@[i]), n1));
    }
}

proof fn lemma_project_grow(pre: ProjectMIR, post: ProjectMIR, f: Function, added: bool)
    requires
        wf_project(pre),
        project_analyzable(pre),
        wf_function(f),
        fn_slots_below(f, usize::MAX as int),
        cfg_well_formed(f),
        added ==> !has_function(pre, f.name@) && post.functions@ == pre.functions@.push(f),
        !added ==> post.functions@ == pre.functions@,
        post.globals == pre.globals,
    ensures
        wf_project(post),
        project_analyzable(post),
{
    if added {
        assert forall|i: int, j: int|
            0 <= i < j < post.functions@.len() implies (#[trigger] post.functions@[i].name@) != (
            #[trigger] post.functions@[j].name@) by {
            if j == post.functions@.len() - 1 {
                if post.functions@[i].name@ == f.name@ {
                    assert(has_function(pre, f.name@));
                }
            }
        }
    }
}

proof fn lemma_project_grow_global(pre: ProjectMIR, post: ProjectMIR, g: GlobalVar, added: bool)
    requires
        wf_project(pre),
        project_analyzable(pre),
        added ==> !crate::mir::has_global(pre, g.name@) && post.globals@ == pre.globals@.push(g),
        !added ==> post.globals@ == pre.globals@,
        post.functions == pre.functions,
    ensures
        wf_project(post),
        project_analyzable(post),
{
    if added {
        assert forall|i: int, j: int|
            0 <= i < j < post.globals@.len() implies (#[trigger] post.globals@[i].name@) != (
            #[trigger] post.globals@[j].name@) by {
            if j == post.globals@.len() - 1 {
                if post.globals@[i].name@ == g.name@ {
                    assert(crate::mir::has_global(pre, g.name@));
                }
            }
        }
    }
}

proof fn lemma_project_replace(pre: ProjectMIR, post: ProjectMIR, idx: int, f: Function)
    requires
        wf_project(pre),
        project_analyzable(pre),
        0 <= idx < pre.functions@.len(),
        wf_function(f),
        fn_slots_below(f, usize::MAX as int),
        cfg_well_formed(f),
        f.name@ == pre.functions@[idx].name@,
        post.functions@ == pre.functions@.update(idx, f),
        post.globals == pre.globals,
    ensures
        wf_project(post),
        project_analyzable(post),
{
    assert forall|i: int, j: int|
        0 <= i < j < post.functions@.len() implies (#[trigger] post.functions@[i].name@) != (
        #[trigger] post.functions@[j].name@) by {
        assert(post.functions@[i].name@ == pre.functions@[i].name@);
        assert(post.functions@[j].name@ == pre.functions@[j].name@);
        assert(pre.functions@[i].name@ != pre.functions@[j].name@);
    }
}

} // verus!
