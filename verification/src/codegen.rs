//! The code synthesizer: renders a `ProjectMIR` plus analysis results into a
//! target-language file tree, deterministically. Every statement classified
//! as needing an unsafe escape hatch is wrapped in an `unsafe` region with a
//! safety comment carrying the reason code. The synthesizer computes file
//! contents only; writing them to disk is the caller's concern.

use vstd::prelude::*;
use vstd::string::StrSliceExecFns;
use vstd::string::StringExecFns;
use crate::analysis::ProjectAnalysisResults;
use crate::mir::{BinOp, Function, GlobalVar, LValue, ProjectMIR, RValue, Statement, Terminator,
    Type, UnOp};
use crate::text::{
    contains_seq, contains_sub, spec_dec, spec_dec_int, spec_upper, starts_with, starts_with_seq,
    ascii_upper, i32_to_dec, usize_to_dec,
};

verus! {

/// Error for a failed file write, reported by the caller that performs I/O.
#[derive(Debug)]
pub struct SynthesisIoError {
    pub file: String,
}

/// One output file: a path relative to the output root, and its content.
#[derive(Debug)]
pub struct GeneratedFile {
    pub path: String,
    pub content: String,
}

/// The whole rendered output tree, in emission order.
#[derive(Debug)]
pub struct GeneratedProject {
    pub files: Vec<GeneratedFile>,
}

/// The assignment of one entity (function or global) to an output module.
#[derive(Debug)]
pub struct ModuleAssignment {
    pub key: String,
    pub module: String,
}

/// The module assignment is total: every function and every global of the
/// project stands at exactly one position of the table, functions first in
/// entry order (assigned to their inferred module), then globals (assigned
/// to the globals module).
pub open spec fn mapping_total(m: Seq<ModuleAssignment>, p: ProjectMIR) -> bool {
    &&& m.len() == p.functions@.len() + p.globals@.len()
    &&& forall|i: int|
        0 <= i < p.functions@.len() ==> (#[trigger] m[i]).key@ == p.functions@[i].name@
            && m[i].module@ == "generated"@
    &&& forall|i: int|
        0 <= i < p.globals@.len() ==> (#[trigger] m[p.functions@.len() + i]).key@
            == p.globals@[i].name@ && m[p.functions@.len() + i].module@ == "globals"@
}

// ---------------------------------------------------------------------------
// Token rendering.
// ---------------------------------------------------------------------------

/// The target token of a binary operator.
pub open spec fn spec_binop_str(op: BinOp) -> Seq<char> {
    match op {
        BinOp::Add => "+"@,
        BinOp::Sub => "-"@,
        BinOp::Mul => "*"@,
        BinOp::Div => "/"@,
        BinOp::Mod => "%"@,
        BinOp::Eq => "=="@,
        BinOp::Ne => "!="@,
        BinOp::Lt => "<"@,
        BinOp::Le => "<="@,
        BinOp::Gt => ">"@,
        BinOp::Ge => ">="@,
        BinOp::And => "&&"@,
        BinOp::Or => "||"@,
    }
}

/// The target token of a unary operator.
pub open spec fn spec_unop_str(op: UnOp) -> Seq<char> {
    match op {
        UnOp::Not => "!"@,
        UnOp::Neg => "-"@,
    }
}

/// The target type token of a MIR type: total, and never empty. `Void` and
/// `Unknown` both map to the unit type; mapping is never an error.
pub open spec fn spec_type_str(t: Type) -> Seq<char>
    decreases t,
{
    match t {
        Type::Int => "i32"@,
        Type::Float => "f64"@,
        Type::Pointer(inner) => "*mut "@ + spec_type_str(*inner),
        Type::Void => "()"@,
        Type::Unknown => "()"@,
    }
}

/// Every type variant, arbitrarily deep pointer nesting included, maps to a
/// non-empty target-type token.
pub proof fn lemma_type_token_nonempty(t: Type)
    ensures
        spec_type_str(t).len() > 0,
    decreases t,
{
    reveal_strlit("i32");
    reveal_strlit("f64");
    reveal_strlit("*mut ");
    reveal_strlit("()");
    match t {
        Type::Pointer(inner) => {
            lemma_type_token_nonempty(*inner);
        },
        _ => {},
    }
}

/// The rendered text of an l-value.
pub open spec fn spec_lvalue_str(lv: LValue) -> Seq<char>
    decreases lv,
{
    match lv {
        LValue::Variable(v) => "var_"@ + spec_dec(v as nat),
        LValue::Deref(rv) => "(*"@ + spec_rvalue_str(*rv) + ")"@,
    }
}

/// The rendered text of an r-value.
pub open spec fn spec_rvalue_str(rv: RValue) -> Seq<char>
    decreases rv,
{
    match rv {
        RValue::Use(lv) => spec_lvalue_str(*lv),
        RValue::Constant(c) => spec_dec_int(c as int),
        RValue::BinaryOp(op, l, r) => "("@ + spec_rvalue_str(*l) + " "@ + spec_binop_str(op) + " "@
            + spec_rvalue_str(*r) + ")"@,
        RValue::UnaryOp(op, o) => "("@ + spec_unop_str(op) + spec_rvalue_str(*o) + ")"@,
        RValue::AddressOf(lv) => "(&"@ + spec_lvalue_str(*lv) + ")"@,
    }
}

/// The rendered argument list, separated by `, `.
pub open spec fn spec_args_str(args: Seq<RValue>) -> Seq<char>
    decreases args.len(),
{
    if args.len() == 0 {
        Seq::empty()
    } else if args.len() == 1 {
        spec_rvalue_str(args[0])
    } else {
        spec_args_str(args.drop_last()) + ", "@ + spec_rvalue_str(args.last())
    }
}

/// Four spaces per indentation level.
pub open spec fn spec_indent(n: nat) -> Seq<char>
    decreases n,
{
    if n == 0 {
        Seq::empty()
    } else {
        spec_indent((n - 1) as nat) + "    "@
    }
}

// ---------------------------------------------------------------------------
// Unsafe-region classification: pure, syntax-directed, deterministic.
// ---------------------------------------------------------------------------

/// Does evaluating this r-value involve a raw-pointer operation? True iff an
/// address-of operation occurs anywhere in the operand tree.
pub open spec fn spec_rvalue_contains_pointer(rv: RValue) -> bool
    decreases rv,
{
    match rv {
        RValue::AddressOf(_) => true,
        RValue::Use(lv) => spec_lvalue_contains_pointer(*lv),
        RValue::BinaryOp(_, l, r) => spec_rvalue_contains_pointer(*l)
            || spec_rvalue_contains_pointer(*r),
        RValue::UnaryOp(_, o) => spec_rvalue_contains_pointer(*o),
        RValue::Constant(_) => false,
    }
}

/// The same, for the operand tree of a place: a dereference carries its
/// address operand's tree.
pub open spec fn spec_lvalue_contains_pointer(lv: LValue) -> bool
    decreases lv,
{
    match lv {
        LValue::Variable(_) => false,
        LValue::Deref(rv) => spec_rvalue_contains_pointer(*rv),
    }
}

/// An address-of operation occurs in some argument's operand tree.
pub open spec fn spec_args_contain_pointer(args: Seq<RValue>) -> bool
    decreases args.len(),
{
    if args.len() == 0 {
        false
    } else {
        spec_args_contain_pointer(args.drop_last()) || spec_rvalue_contains_pointer(args.last())
    }
}

/// The foreign-call naming heuristic: a namespaced external-library prefix,
/// or a substring indicating raw allocation, deallocation, pointer
/// manipulation, or foreign-function interfacing.
pub open spec fn spec_callee_needs_unsafe(name: Seq<char>) -> bool {
    ||| starts_with_seq(name, "libc::"@)
    ||| contains_seq(name, "malloc"@)
    ||| contains_seq(name, "free"@)
    ||| contains_seq(name, "ptr"@)
    ||| contains_seq(name, "ffi"@)
}

/// Does this statement require an unsafe escape hatch? Annotation wrappers
/// are unwrapped recursively; the statement qualifies when an address-of
/// operation occurs anywhere in its operand tree — target, assigned value
/// or call argument — or when its callee name matches the foreign-call
/// heuristic. The predicate depends on the statement structure alone, so
/// identical structure always gives the same answer.
pub open spec fn spec_stmt_needs_unsafe(s: Statement) -> bool
    decreases s,
{
    match s {
        Statement::Call(target, name, args) => spec_callee_needs_unsafe(name@)
            || spec_lvalue_contains_pointer(target) || spec_args_contain_pointer(args@),
        Statement::Assign(lv, rv) => spec_rvalue_contains_pointer(rv)
            || spec_lvalue_contains_pointer(lv),
        Statement::Annotated { stmt, annotations: _ } => spec_stmt_needs_unsafe(*stmt),
    }
}

/// Unsafe classification is deterministic: structurally identical statements
/// always receive the same classification.
pub proof fn lemma_unsafe_classification_deterministic(s1: Statement, s2: Statement)
    requires
        s1 == s2,
    ensures
        spec_stmt_needs_unsafe(s1) == spec_stmt_needs_unsafe(s2),
{
}

/// The reason code attached to an unsafe region, derived from which
/// classification rule fired.
pub open spec fn spec_unsafe_reason(s: Statement) -> Seq<char>
    decreases s,
{
    match s {
        Statement::Call(_, name, _) => if starts_with_seq(name@, "libc::"@) {
            "calls the foreign function "@ + name@
        } else if contains_seq(name@, "malloc"@) {
            "allocates raw memory"@
        } else if contains_seq(name@, "free"@) {
            "releases raw memory"@
        } else if contains_seq(name@, "ptr"@) || contains_seq(name@, "ffi"@) {
            "calls a possibly unsafe function"@
        } else {
            "operates on a raw pointer"@
        },
        Statement::Assign(lv, rv) => if spec_rvalue_contains_pointer(rv)
            || spec_lvalue_contains_pointer(lv) {
            "operates on a raw pointer"@
        } else {
            "potentially unsafe operation"@
        },
        Statement::Annotated { stmt, annotations: _ } => spec_unsafe_reason(*stmt),
    }
}

// ---------------------------------------------------------------------------
// Statement, terminator and body rendering.
// ---------------------------------------------------------------------------

/// The comment lines rendered for a list of annotation tags.
pub open spec fn spec_comments(anns: Seq<Seq<char>>, ind: Seq<char>) -> Seq<char>
    decreases anns.len(),
{
    if anns.len() == 0 {
        Seq::empty()
    } else {
        spec_comments(anns.drop_last(), ind) + ind + "// "@ + anns.last() + "\n"@
    }
}

/// The plain rendering of a statement at an indentation level, annotation
/// tags as comments.
pub open spec fn spec_stmt_str(s: Statement, level: nat) -> Seq<char>
    decreases s,
{
    let ind = spec_indent(level);
    match s {
        Statement::Assign(lv, rv) => ind + "let "@ + spec_lvalue_str(lv) + " = "@
            + spec_rvalue_str(rv) + ";\n"@,
        Statement::Call(lv, name, args) => ind + "let "@ + spec_lvalue_str(lv) + " = "@ + name@
            + "("@ + spec_args_str(args@) + ");\n"@,
        Statement::Annotated { stmt, annotations } => spec_comments(
            annotations.deep_view(),
            ind,
        ) + spec_stmt_str(*stmt, level),
    }
}

/// The safety-annotated rendering: a statement that needs an unsafe escape
/// hatch is wrapped in an `unsafe` region under a safety narrative — the
/// externally supplied justification text when one is given, else the
/// deterministic fallback comment carrying the reason code. Other
/// statements render plainly.
pub open spec fn spec_justified_stmt_str(
    s: Statement,
    level: nat,
    justification: Option<Seq<char>>,
) -> Seq<char> {
    let ind = spec_indent(level);
    if spec_stmt_needs_unsafe(s) {
        let narrative = match justification {
            Some(t) => t,
            None => ind + "// SAFETY: "@ + spec_unsafe_reason(s) + "\n"@,
        };
        narrative + ind + "unsafe {\n"@ + spec_stmt_str(s, level + 1) + ind + "}\n"@
    } else {
        spec_stmt_str(s, level)
    }
}

/// The safety-checked rendering with the deterministic fallback narrative.
pub open spec fn spec_checked_stmt_str(s: Statement, level: nat) -> Seq<char> {
    spec_justified_stmt_str(s, level, None)
}

/// The narrative supplied for one statement position, if any.
pub open spec fn opt_text_at(row: Seq<Option<Seq<char>>>, i: int) -> Option<Seq<char>> {
    if 0 <= i < row.len() {
        row[i]
    } else {
        None
    }
}

/// The narrative row supplied for one block, if any.
pub open spec fn row_text_at(j: Seq<Seq<Option<Seq<char>>>>, b: int) -> Seq<Option<Seq<char>>> {
    if 0 <= b < j.len() {
        j[b]
    } else {
        Seq::empty()
    }
}

/// A block's statements rendered under supplied narratives; positions the
/// table does not cover fall back to the deterministic comment.
pub open spec fn spec_annotated_stmts_str(
    stmts: Seq<Statement>,
    level: nat,
    row: Seq<Option<Seq<char>>>,
) -> Seq<char>
    decreases stmts.len(),
{
    if stmts.len() == 0 {
        Seq::empty()
    } else {
        spec_annotated_stmts_str(stmts.drop_last(), level, row) + spec_justified_stmt_str(
            stmts.last(),
            level,
            opt_text_at(row, stmts.len() - 1),
        )
    }
}

/// The blocks with index at least `from`, rendered under supplied
/// narratives.
pub open spec fn spec_annotated_blocks_str(
    f: Function,
    j: Seq<Seq<Option<Seq<char>>>>,
    from: int,
) -> Seq<char>
    decreases f.basic_blocks@.len() - from when 0 <= from <= f.basic_blocks@.len()
{
    if from >= f.basic_blocks@.len() {
        Seq::empty()
    } else {
        let bb = f.basic_blocks@[from];
        let label = if from > 0 {
            "    // block "@ + spec_dec(bb.id as nat) + "
"@
        } else {
            Seq::empty()
        };
        label + spec_annotated_stmts_str(bb.statements@, 1, row_text_at(j, from)) + spec_term_str(
            bb.terminator,
            1,
        ) + spec_annotated_blocks_str(f, j, from + 1)
    }
}

/// One function rendered under supplied safety narratives: the signature as
/// in the plain rendering, the body with each classified statement under
/// its supplied narrative or the deterministic fallback.
pub open spec fn spec_function_annotated_str(f: Function, j: Seq<Seq<Option<Seq<char>>>>) -> Seq<
    char,
> {
    let vis = if f.is_static {
        Seq::<char>::empty()
    } else {
        "pub "@
    };
    let ret = match f.return_type {
        Some(t) => " -> "@ + spec_type_str(t),
        None => Seq::<char>::empty(),
    };
    let body = if f.basic_blocks@.len() == 0 {
        "    // no function body
"@ + if f.return_type is Some {
            "    loop {}
"@
        } else {
            Seq::<char>::empty()
        }
    } else {
        spec_annotated_blocks_str(f, j, 0)
    };
    spec_fn_doc(f) + vis + "fn "@ + f.name@ + "("@ + spec_params_str(f) + ")"@ + ret + " {
"@
        + body + "}"@
}

/// A module file composed from an externally supplied module narrative and
/// already-rendered function texts.
pub open spec fn spec_composed_module(doc: Seq<char>, texts: Seq<Seq<char>>) -> Seq<char>
    decreases texts.len(),
{
    if texts.len() == 0 {
        doc + "
"@ + "#![allow(unused)]
use libc::*;

"@
    } else {
        spec_composed_module(doc, texts.drop_last()) + texts.last() + "

"@
    }
}

/// The safety narratives supplied for one function: one optional text per
/// statement, per block. Positions the table does not cover take the
/// deterministic fallback, so any table shape is accepted.
#[derive(Debug)]
pub struct FunctionJustifications {
    pub blocks: Vec<Vec<Option<String>>>,
}

/// The rendering of a terminator: the matching control transfer, with jump
/// targets named as labeled block references.
pub open spec fn spec_term_str(t: Terminator, level: nat) -> Seq<char> {
    let ind = spec_indent(level);
    match t {
        Terminator::Return(None) => ind + "return;\n"@,
        Terminator::Return(Some(rv)) => ind + "return "@ + spec_rvalue_str(rv) + ";\n"@,
        Terminator::Goto(b) => ind + "// goto block "@ + spec_dec(b as nat) + "\n"@,
        Terminator::If { condition, then_block, else_block } => ind + "if "@ + spec_rvalue_str(
            condition,
        ) + " {\n"@ + ind + "    // goto block "@ + spec_dec(then_block as nat) + "\n"@ + ind
            + "} else {\n"@ + ind + "    // goto block "@ + spec_dec(else_block as nat) + "\n"@
            + ind + "}\n"@,
    }
}

/// The statements of one block, safety-checked, in declaration order.
pub open spec fn spec_block_stmts_str(stmts: Seq<Statement>, level: nat) -> Seq<char>
    decreases stmts.len(),
{
    if stmts.len() == 0 {
        Seq::empty()
    } else {
        spec_block_stmts_str(stmts.drop_last(), level) + spec_checked_stmt_str(
            stmts.last(),
            level,
        )
    }
}

/// The rendering of the blocks with index at least `from`, in id order; each
/// block after the entry gets a label comment.
pub open spec fn spec_blocks_str(f: Function, from: int) -> Seq<char>
    decreases f.basic_blocks@.len() - from when 0 <= from <= f.basic_blocks@.len()
{
    if from >= f.basic_blocks@.len() {
        Seq::empty()
    } else {
        let bb = f.basic_blocks@[from];
        let label = if from > 0 {
            "    // block "@ + spec_dec(bb.id as nat) + "\n"@
        } else {
            Seq::empty()
        };
        label + spec_block_stmts_str(bb.statements@, 1) + spec_term_str(bb.terminator, 1)
            + spec_blocks_str(f, from + 1)
    }
}

/// The rendered function body: blocks in id order.
pub open spec fn spec_body_str(f: Function) -> Seq<char> {
    spec_blocks_str(f, 0)
}

// ---------------------------------------------------------------------------
// Function and global rendering.
// ---------------------------------------------------------------------------

/// The doc-comment lines for a function's annotation tags.
pub open spec fn spec_fn_doc(f: Function) -> Seq<char> {
    let head = "/// Function: "@ + f.name@ + "\n"@;
    if f.annotations@.len() == 0 {
        head
    } else {
        head + "///\n"@ + "/// # Semantic annotations\n"@ + spec_fn_doc_tags(
            f.annotations.deep_view(),
        )
    }
}

pub open spec fn spec_fn_doc_tags(tags: Seq<Seq<char>>) -> Seq<char>
    decreases tags.len(),
{
    if tags.len() == 0 {
        Seq::empty()
    } else {
        spec_fn_doc_tags(tags.drop_last()) + "/// - "@ + tags.last() + "\n"@
    }
}

/// The rendered parameter list.
pub open spec fn spec_params_str(f: Function) -> Seq<char> {
    spec_params_prefix(f, f.parameters@.len() as int)
}

pub open spec fn spec_params_prefix(f: Function, n: int) -> Seq<char>
    decreases n,
{
    if n <= 0 {
        Seq::empty()
    } else {
        let p = f.parameters@[n - 1];
        let one = p.name@ + ": "@ + spec_type_str(p.param_type);
        if n == 1 {
            one
        } else {
            spec_params_prefix(f, n - 1) + ", "@ + one
        }
    }
}

/// The rendered signature and body of one function. A static function is
/// module-internal; any other is public.
pub open spec fn spec_function_str(f: Function) -> Seq<char> {
    let vis = if f.is_static {
        Seq::<char>::empty()
    } else {
        "pub "@
    };
    let ret = match f.return_type {
        Some(t) => " -> "@ + spec_type_str(t),
        None => Seq::<char>::empty(),
    };
    let body = if f.basic_blocks@.len() == 0 {
        "    // no function body\n"@ + if f.return_type is Some {
            "    loop {}\n"@
        } else {
            Seq::<char>::empty()
        }
    } else {
        spec_body_str(f)
    };
    spec_fn_doc(f) + vis + "fn "@ + f.name@ + "("@ + spec_params_str(f) + ")"@ + ret + " {\n"@
        + body + "}"@
}

/// The rendered definition of one global variable. A static global is
/// wrapped in a synchronized container, since it may be mutated through
/// multiple call sites; any other renders as a plain mutable global.
pub open spec fn spec_global_str(name: Seq<char>, g: GlobalVar) -> Seq<char> {
    let vis = if g.is_public {
        "pub "@
    } else {
        Seq::<char>::empty()
    };
    let doc = "/// Global variable: "@ + name + "\n"@;
    if g.is_static {
        doc + vis + "static "@ + spec_upper(name) + ": Mutex<"@ + spec_type_str(g.var_type)
            + "> = Mutex::new(Default::default());"@
    } else {
        doc + vis + "static mut "@ + spec_upper(name) + ": "@ + spec_type_str(g.var_type)
            + " = Default::default();"@
    }
}

// ---------------------------------------------------------------------------
// File-level rendering.
// ---------------------------------------------------------------------------

/// The package manifest text.
pub open spec fn spec_cargo_toml(project_name: Seq<char>) -> Seq<char> {
    "[package]\nname = \""@ + project_name + "\"\nversion = \"0.1.0\"\nedition = \"2021\"\n\n"@
        + "[dependencies]\nlibc = \"0.2\"\n\n"@ + "[lib]\nname = \""@ + spec_snake(project_name)
        + "\"\npath = \"src/lib.rs\"\n"@
}

/// Dashes become underscores; a crate name in snake form.
pub open spec fn spec_snake(s: Seq<char>) -> Seq<char> {
    s.map(|i: int, c: char| if c == '-' {
        '_'
    } else {
        c
    })
}

/// The globals module: one definition per global, in entry order.
pub open spec fn spec_globals_module(globals: Seq<GlobalVar>) -> Seq<char>
    decreases globals.len(),
{
    if globals.len() == 0 {
        "//! Global variables\n\nuse std::sync::Mutex;\n\n"@
    } else {
        spec_globals_module(globals.drop_last()) + spec_global_str(
            globals.last().name@,
            globals.last(),
        ) + "\n\n"@
    }
}

/// One module file: module doc, imports, every function in entry order.
pub open spec fn spec_module_file(p: ProjectMIR, module_name: Seq<char>) -> Seq<char> {
    "//! Module: "@ + module_name + "\n\n"@ + "#![allow(unused)]\nuse libc::*;\n\n"@
        + spec_module_fns(p.functions@)
}

pub open spec fn spec_module_fns(fns: Seq<Function>) -> Seq<char>
    decreases fns.len(),
{
    if fns.len() == 0 {
        Seq::empty()
    } else {
        spec_module_fns(fns.drop_last()) + spec_function_str(fns.last()) + "\n\n"@
    }
}

/// The entry module: library doc, lint openings, the globals module when any
/// global exists, and every generated sub-module.
pub open spec fn spec_lib_rs(p: ProjectMIR, project_name: Seq<char>) -> Seq<char> {
    let head = "//! "@ + project_name + "\n\n"@
        + "#![allow(non_snake_case)]\n#![allow(non_camel_case_types)]\n#![allow(dead_code)]\n\n"@;
    let globals_decl = if p.globals@.len() > 0 {
        "pub mod globals;\n"@
    } else {
        Seq::<char>::empty()
    };
    let mods_decl = if p.functions@.len() > 0 {
        "pub mod generated;\n"@
    } else {
        Seq::<char>::empty()
    };
    head + globals_decl + mods_decl
}

/// The whole output tree, in emission order: the manifest, the globals file
/// when any global exists, one file per module, the entry module.
pub open spec fn spec_output_files(p: ProjectMIR, project_name: Seq<char>) -> Seq<
    (Seq<char>, Seq<char>),
> {
    let manifest = seq![("Cargo.toml"@, spec_cargo_toml(project_name))];
    let globals = if p.globals@.len() > 0 {
        seq![("src/globals.rs"@, spec_globals_module(p.globals@))]
    } else {
        Seq::<(Seq<char>, Seq<char>)>::empty()
    };
    let modules = if p.functions@.len() > 0 {
        seq![("src/generated.rs"@, spec_module_file(p, "generated"@))]
    } else {
        Seq::<(Seq<char>, Seq<char>)>::empty()
    };
    let entry = seq![("src/lib.rs"@, spec_lib_rs(p, project_name))];
    manifest + globals + modules + entry
}

// ---------------------------------------------------------------------------
// The generator.
// ---------------------------------------------------------------------------

/// Renders a `ProjectMIR` into a target project under a given project name.
/// The output directory is carried for the caller that writes files.
pub struct CodeGenerator {
    pub output_dir: String,
    pub project_name: String,
    pub source_to_module: Vec<ModuleAssignment>,
}

impl CodeGenerator {
    /// A fresh generator for an output root and a project name.
    pub fn new(output_dir: String, project_name: String) -> (r: CodeGenerator)
        ensures
            r.output_dir == output_dir,
            r.project_name == project_name,
            r.source_to_module@.len() == 0,
    {
        CodeGenerator { output_dir, project_name, source_to_module: Vec::new() }
    }

    /// The module an entity belongs to, inferred from its origin key. Every
    /// entity currently carries no tracked source file, so assignment falls
    /// to the fixed default module; it is total and deterministic either way.
    pub fn infer_module_name(&self, _func_name: &str) -> (r: String)
        ensures
            r@ == "generated"@,
    {
        String::from_str("generated")
    }

    /// Assigns every function and global of the project to exactly one
    /// output module: functions to their inferred module, globals to the
    /// globals module. The assignment is total and deterministic.
    pub fn build_source_module_mapping(&mut self, project_mir: &ProjectMIR) -> (r: Result<
        (),
        SynthesisIoError,
    >)
        ensures
            r is Ok,
            mapping_total(final(self).source_to_module@, *project_mir),
            final(self).output_dir == old(self).output_dir,
            final(self).project_name == old(self).project_name,
    {
        self.source_to_module = Vec::new();
        let nf = project_mir.functions.len();
        let mut i: usize = 0;
        while i < nf
            invariant
                i <= nf,
                nf == project_mir.functions@.len(),
                self.source_to_module@.len() == i,
                forall|j: int|
                    0 <= j < i ==> (#[trigger] self.source_to_module@[j]).key@
                        == project_mir.functions@[j].name@ && self.source_to_module@[j].module@
                        == "generated"@,
                self.output_dir == old(self).output_dir,
                self.project_name == old(self).project_name,
            decreases nf - i,
        {
            let module = self.infer_module_name(project_mir.functions[i].name.as_str());
            let key = project_mir.functions[i].name.clone();
            self.source_to_module.push(ModuleAssignment { key, module });
            i += 1;
        }
        let ng = project_mir.globals.len();
        let mut g: usize = 0;
        while g < ng
            invariant
                g <= ng,
                ng == project_mir.globals@.len(),
                nf == project_mir.functions@.len(),
                self.source_to_module@.len() == nf + g,
                forall|j: int|
                    0 <= j < nf ==> (#[trigger] self.source_to_module@[j]).key@
                        == project_mir.functions@[j].name@ && self.source_to_module@[j].module@
                        == "generated"@,
                forall|j: int|
                    0 <= j < g ==> (#[trigger] self.source_to_module@[nf + j]).key@
                        == project_mir.globals@[j].name@ && self.source_to_module@[nf + j].module@
                        == "globals"@,
                self.output_dir == old(self).output_dir,
                self.project_name == old(self).project_name,
            decreases ng - g,
        {
            let key = project_mir.globals[g].name.clone();
            let module = String::from_str("globals");
            self.source_to_module.push(ModuleAssignment { key, module });
            g += 1;
        }
        Ok(())
    }

    /// The target type token of a MIR type: total, never an error.
    pub fn type_to_rust(&self, ty: &Type) -> (r: Result<String, SynthesisIoError>)
        ensures
            r is Ok,
            r matches Ok(s) ==> s@ == spec_type_str(*ty),
        decreases *ty,
    {
        match ty {
            Type::Int => Ok(String::from_str("i32")),
            Type::Float => Ok(String::from_str("f64")),
            Type::Pointer(inner) => {
                let inner_str = match self.type_to_rust(inner) {
                    Ok(s) => s,
                    Err(e) => {
                        return Err(e);
                    },
                };
                let mut s = String::from_str("*mut ");
                s.append(inner_str.as_str());
                Ok(s)
            },
            Type::Void => Ok(String::from_str("()")),
            Type::Unknown => Ok(String::from_str("()")),
        }
    }

    /// The target token of a binary operator.
    pub fn binop_to_rust(&self, op: &BinOp) -> (r: &'static str)
        ensures
            r@ == spec_binop_str(*op),
    {
        match op {
            BinOp::Add => "+",
            BinOp::Sub => "-",
            BinOp::Mul => "*",
            BinOp::Div => "/",
            BinOp::Mod => "%",
            BinOp::Eq => "==",
            BinOp::Ne => "!=",
            BinOp::Lt => "<",
            BinOp::Le => "<=",
            BinOp::Gt => ">",
            BinOp::Ge => ">=",
            BinOp::And => "&&",
            BinOp::Or => "||",
        }
    }

    /// The target token of a unary operator.
    pub fn unop_to_rust(&self, op: &UnOp) -> (r: &'static str)
        ensures
            r@ == spec_unop_str(*op),
    {
        match op {
            UnOp::Not => "!",
            UnOp::Neg => "-",
        }
    }

    /// The rendered text of an l-value.
    pub fn generate_lvalue(&self, lvalue: &LValue) -> (r: String)
        ensures
            r@ == spec_lvalue_str(*lvalue),
        decreases *lvalue,
    {
        match lvalue {
            LValue::Variable(v) => {
                let mut s = String::from_str("var_");
                let d = usize_to_dec(*v);
                s.append(d.as_str());
                s
            },
            LValue::Deref(rv) => {
                let mut s = String::from_str("(*");
                let inner = self.generate_rvalue(rv);
                s.append(inner.as_str());
                s.append(")");
                s
            },
        }
    }

    /// The rendered text of an r-value.
    pub fn generate_rvalue(&self, rvalue: &RValue) -> (r: String)
        ensures
            r@ == spec_rvalue_str(*rvalue),
        decreases *rvalue,
    {
        match rvalue {
            RValue::Use(lv) => self.generate_lvalue(lv),
            RValue::Constant(c) => i32_to_dec(*c),
            RValue::BinaryOp(op, l, rr) => {
                let mut s = String::from_str("(");
                let ls = self.generate_rvalue(l);
                s.append(ls.as_str());
                s.append(" ");
                s.append(self.binop_to_rust(op));
                s.append(" ");
                let rs = self.generate_rvalue(rr);
                s.append(rs.as_str());
                s.append(")");
                s
            },
            RValue::UnaryOp(op, o) => {
                let mut s = String::from_str("(");
                s.append(self.unop_to_rust(op));
                let os = self.generate_rvalue(o);
                s.append(os.as_str());
                s.append(")");
                s
            },
            RValue::AddressOf(lv) => {
                let mut s = String::from_str("(&");
                let ls = self.generate_lvalue(lv);
                s.append(ls.as_str());
                s.append(")");
                s
            },
        }
    }

    /// Does this statement require an unsafe escape hatch? Pure and
    /// syntax-directed: annotation wrappers are unwrapped, an address-of
    /// anywhere in the statement's operand tree counts — in the assigned
    /// value, the target place or any call argument — and so does a callee
    /// name matching the foreign-call heuristic.
    pub fn statement_needs_unsafe(&self, stmt: &Statement) -> (r: bool)
        ensures
            r == spec_stmt_needs_unsafe(*stmt),
        decreases *stmt,
    {
        match stmt {
            Statement::Call(target, func_name, args) => {
                starts_with(func_name.as_str(), "libc::") || contains_sub(
                    func_name.as_str(),
                    "malloc",
                ) || contains_sub(func_name.as_str(), "free") || contains_sub(
                    func_name.as_str(),
                    "ptr",
                ) || contains_sub(func_name.as_str(), "ffi") || self.lvalue_contains_pointer(
                    target,
                ) || self.args_contain_pointer(args)
            },
            Statement::Assign(lvalue, rvalue) => {
                self.rvalue_contains_pointer(rvalue) || self.lvalue_contains_pointer(lvalue)
            },
            Statement::Annotated { stmt, annotations: _ } => self.statement_needs_unsafe(stmt),
        }
    }

    /// Does this r-value hold an address-of operation anywhere in its tree?
    pub fn rvalue_contains_pointer(&self, rvalue: &RValue) -> (r: bool)
        ensures
            r == spec_rvalue_contains_pointer(*rvalue),
        decreases *rvalue,
    {
        match rvalue {
            RValue::AddressOf(_) => true,
            RValue::Use(lv) => self.lvalue_contains_pointer(lv),
            RValue::BinaryOp(_, l, r) => {
                self.rvalue_contains_pointer(l) || self.rvalue_contains_pointer(r)
            },
            RValue::UnaryOp(_, o) => self.rvalue_contains_pointer(o),
            RValue::Constant(_) => false,
        }
    }

    /// Does this place hold an address-of operation in its operand tree?
    pub fn lvalue_contains_pointer(&self, lvalue: &LValue) -> (r: bool)
        ensures
            r == spec_lvalue_contains_pointer(*lvalue),
        decreases *lvalue,
    {
        match lvalue {
            LValue::Variable(_) => false,
            LValue::Deref(rv) => self.rvalue_contains_pointer(rv),
        }
    }

    /// Does some argument hold an address-of operation?
    pub fn args_contain_pointer(&self, args: &Vec<RValue>) -> (r: bool)
        ensures
            r == spec_args_contain_pointer(args@),
    {
        let n = args.len();
        let mut i: usize = 0;
        proof {
            assert(args@.take(0) =~= Seq::<RValue>::empty());
        }
        while i < n
            invariant
                i <= n,
                n == args@.len(),
                !spec_args_contain_pointer(args@.take(i as int)),
            decreases n - i,
        {
            if self.rvalue_contains_pointer(&args[i]) {
                proof {
                    lemma_args_pointer_elem(args@, i as int);
                }
                return true;
            }
            proof {
                assert(args@.take(i + 1).drop_last() =~= args@.take(i as int));
                assert(args@.take(i + 1).last() == args@[i as int]);
            }
            i += 1;
        }
        proof {
            assert(args@.take(n as int) =~= args@);
        }
        false
    }

    /// The reason code for an unsafe region, from the rule that fired.
    pub fn infer_unsafe_reason(&self, stmt: &Statement) -> (r: String)
        ensures
            r@ == spec_unsafe_reason(*stmt),
        decreases *stmt,
    {
        match stmt {
            Statement::Call(_, func_name, _) => {
                if starts_with(func_name.as_str(), "libc::") {
                    let mut s = String::from_str("calls the foreign function ");
                    s.append(func_name.as_str());
                    s
                } else if contains_sub(func_name.as_str(), "malloc") {
                    String::from_str("allocates raw memory")
                } else if contains_sub(func_name.as_str(), "free") {
                    String::from_str("releases raw memory")
                } else if contains_sub(func_name.as_str(), "ptr") || contains_sub(
                    func_name.as_str(),
                    "ffi",
                ) {
                    String::from_str("calls a possibly unsafe function")
                } else {
                    String::from_str("operates on a raw pointer")
                }
            },
            Statement::Assign(lvalue, rvalue) => {
                if self.rvalue_contains_pointer(rvalue) || self.lvalue_contains_pointer(lvalue) {
                    String::from_str("operates on a raw pointer")
                } else {
                    String::from_str("potentially unsafe operation")
                }
            },
            Statement::Annotated { stmt, annotations: _ } => self.infer_unsafe_reason(stmt),
        }
    }

    /// The plain rendering of one statement at an indentation level.
    pub fn generate_statement(&self, stmt: &Statement, indent_level: usize) -> (r: String)
        ensures
            r@ == spec_stmt_str(*stmt, indent_level as nat),
        decreases *stmt,
    {
        let ind = make_indent(indent_level);
        match stmt {
            Statement::Assign(lvalue, rvalue) => {
                let mut s = String::new();
                s.append(ind.as_str());
                s.append("let ");
                let ls = self.generate_lvalue(lvalue);
                s.append(ls.as_str());
                s.append(" = ");
                let rs = self.generate_rvalue(rvalue);
                s.append(rs.as_str());
                s.append(";\n");
                s
            },
            Statement::Call(target, func_name, args) => {
                let mut s = String::new();
                s.append(ind.as_str());
                s.append("let ");
                let ls = self.generate_lvalue(target);
                s.append(ls.as_str());
                s.append(" = ");
                s.append(func_name.as_str());
                s.append("(");
                let n = args.len();
                let mut i: usize = 0;
                let mut acc = String::new();
                while i < n
                    invariant
                        i <= n,
                        n == args@.len(),
                        acc@ == spec_args_str(args@.take(i as int)),
                    decreases n - i,
                {
                    if i > 0 {
                        acc.append(", ");
                    }
                    let a = self.generate_rvalue(&args[i]);
                    acc.append(a.as_str());
                    proof {
                        assert(args@.take(i + 1).drop_last() =~= args@.take(i as int));
                        assert(args@.take(i + 1).last() == args@[i as int]);
                        if i == 0 {
                            assert(args@.take(1).len() == 1);
                            assert(args@.take(1)[0] == args@[0]);
                        }
                    }
                    i += 1;
                }
                proof {
                    assert(args@.take(n as int) =~= args@);
                }
                s.append(acc.as_str());
                s.append(");\n");
                s
            },
            Statement::Annotated { stmt, annotations } => {
                let mut s = String::new();
                let na = annotations.len();
                let mut i: usize = 0;
                while i < na
                    invariant
                        i <= na,
                        na == annotations@.len(),
                        ind@ == spec_indent(indent_level as nat),
                        s@ == spec_comments(annotations.deep_view().take(i as int), ind@),
                    decreases na - i,
                {
                    s.append(ind.as_str());
                    s.append("// ");
                    s.append(annotations[i].as_str());
                    s.append("\n");
                    proof {
                        let tags = annotations.deep_view();
                        assert(tags.take(i + 1).drop_last() =~= tags.take(i as int));
                        assert(tags.take(i + 1).last() == tags[i as int]);
                        assert(tags[i as int] == annotations@[i as int]@);
                    }
                    i += 1;
                }
                proof {
                    let tags = annotations.deep_view();
                    assert(tags.take(na as int) =~= tags);
                }
                let inner = self.generate_statement(stmt, indent_level);
                s.append(inner.as_str());
                s
            },
        }
    }

    /// One statement with its safety narrative: a classified statement
    /// renders inside an `unsafe` region under the supplied justification
    /// text — the answer of the external annotation service — or under the
    /// deterministic fallback comment when none is supplied. Rendering never
    /// depends on the service being reachable.
    pub fn generate_statement_with_justification(
        &self,
        stmt: &Statement,
        indent_level: usize,
        justification: Option<&str>,
    ) -> (r: String)
        requires
            indent_level < usize::MAX,
        ensures
            r@ == spec_justified_stmt_str(
                *stmt,
                indent_level as nat,
                match justification {
                    Some(t) => Some(t@),
                    None => None,
                },
            ),
    {
        if self.statement_needs_unsafe(stmt) {
            let ind = make_indent(indent_level);
            let mut s = String::new();
            match justification {
                Some(t) => {
                    s.append(t);
                },
                None => {
                    s.append(ind.as_str());
                    s.append("// SAFETY: ");
                    let reason = self.infer_unsafe_reason(stmt);
                    s.append(reason.as_str());
                    s.append("\n");
                },
            }
            s.append(ind.as_str());
            s.append("unsafe {\n");
            let inner = self.generate_statement(stmt, indent_level + 1);
            s.append(inner.as_str());
            s.append(ind.as_str());
            s.append("}\n");
            s
        } else {
            self.generate_statement(stmt, indent_level)
        }
    }

    /// One statement, safety-checked with the deterministic fallback
    /// narrative.
    pub fn generate_checked_statement(&self, stmt: &Statement, indent_level: usize) -> (r: String)
        requires
            indent_level < usize::MAX,
        ensures
            r@ == spec_checked_stmt_str(*stmt, indent_level as nat),
    {
        self.generate_statement_with_justification(stmt, indent_level, None)
    }

    /// The rendering of a terminator at an indentation level.
    pub fn generate_terminator(&self, term: &Terminator, indent_level: usize) -> (r: String)
        ensures
            r@ == spec_term_str(*term, indent_level as nat),
    {
        let ind = make_indent(indent_level);
        match term {
            Terminator::Return(orv) => match orv {
                None => {
                    let mut s = String::new();
                    s.append(ind.as_str());
                    s.append("return;\n");
                    s
                },
                Some(rvalue) => {
                    let mut s = String::new();
                    s.append(ind.as_str());
                    s.append("return ");
                    let rs = self.generate_rvalue(rvalue);
                    s.append(rs.as_str());
                    s.append(";\n");
                    s
                },
            },
            Terminator::Goto(bb_id) => {
                let mut s = String::new();
                s.append(ind.as_str());
                s.append("// goto block ");
                let d = usize_to_dec(*bb_id);
                s.append(d.as_str());
                s.append("\n");
                s
            },
            Terminator::If { condition, then_block, else_block } => {
                let mut s = String::new();
                s.append(ind.as_str());
                s.append("if ");
                let cs = self.generate_rvalue(condition);
                s.append(cs.as_str());
                s.append(" {\n");
                s.append(ind.as_str());
                s.append("    // goto block ");
                let dt = usize_to_dec(*then_block);
                s.append(dt.as_str());
                s.append("\n");
                s.append(ind.as_str());
                s.append("} else {\n");
                s.append(ind.as_str());
                s.append("    // goto block ");
                let de = usize_to_dec(*else_block);
                s.append(de.as_str());
                s.append("\n");
                s.append(ind.as_str());
                s.append("}\n");
                s
            },
        }
    }

    /// The rendered function body: blocks in id order, statements in
    /// declaration order, each terminator as its control transfer.
    pub fn generate_function_body(&self, func: &Function) -> (r: String)
        ensures
            r@ == spec_body_str(*func),
    {
        let nb = func.basic_blocks.len();
        let mut s = String::new();
        let mut b: usize = 0;
        proof {
            assert(s@ + spec_blocks_str(*func, 0) =~= spec_blocks_str(*func, 0));
        }
        while b < nb
            invariant
                b <= nb,
                nb == func.basic_blocks@.len(),
                s@ + spec_blocks_str(*func, b as int) == spec_body_str(*func),
            decreases nb - b,
        {
            let bb = &func.basic_blocks[b];
            if b > 0 {
                s.append("    // block ");
                let d = usize_to_dec(bb.id);
                s.append(d.as_str());
                s.append("\n");
            }
            let ns = bb.statements.len();
            let ghost mark = s@;
            let mut i: usize = 0;
            while i < ns
                invariant
                    i <= ns,
                    ns == bb.statements@.len(),
                    bb == func.basic_blocks@[b as int],
                    s@ == mark + spec_block_stmts_str(bb.statements@.take(i as int), 1),
                decreases ns - i,
            {
                let piece = self.generate_checked_statement(&bb.statements[i], 1);
                s.append(piece.as_str());
                proof {
                    assert(bb.statements@.take(i + 1).drop_last() =~= bb.statements@.take(
                        i as int,
                    ));
                    assert(bb.statements@.take(i + 1).last() == bb.statements@[i as int]);
                }
                i += 1;
            }
            proof {
                assert(bb.statements@.take(ns as int) =~= bb.statements@);
            }
            let t = self.generate_terminator(&bb.terminator, 1);
            s.append(t.as_str());
            proof {
                assert(s@ + spec_blocks_str(*func, b + 1) =~= spec_body_str(*func));
            }
            b += 1;
        }
        proof {
            assert(spec_blocks_str(*func, nb as int) =~= Seq::<char>::empty());
            assert(s@ =~= spec_body_str(*func));
        }
        s
    }

    /// One function rendered under externally supplied safety narratives:
    /// each classified statement carries the narrative the table holds for
    /// its position, or the deterministic fallback where the table holds
    /// none. The caller that consults the annotation service builds the
    /// table; rendering never depends on the service being reachable.
    pub fn generate_function_with_annotations(
        &self,
        func: &Function,
        justs: &FunctionJustifications,
    ) -> (r: String)
        ensures
            r@ == spec_function_annotated_str(*func, justs.blocks.deep_view()),
    {
        let ghost jv = justs.blocks.deep_view();
        let mut s = String::new();
        let doc = self.generate_function_doc(func);
        s.append(doc.as_str());
        if !func.is_static {
            s.append("pub ");
        }
        s.append("fn ");
        s.append(func.name.as_str());
        s.append("(");
        let params = self.generate_params_text(func);
        s.append(params.as_str());
        s.append(")");
        match &func.return_type {
            Some(t) => {
                s.append(" -> ");
                let ty = match self.type_to_rust(t) {
                    Ok(t2) => t2,
                    Err(_) => String::from_str("()"),
                };
                s.append(ty.as_str());
            },
            None => {},
        }
        s.append(" {
");
        if func.basic_blocks.len() == 0 {
            s.append("    // no function body
");
            if func.return_type.is_some() {
                s.append("    loop {}
");
            }
        } else {
            let nb = func.basic_blocks.len();
            let ghost mark = s@;
            let mut b: usize = 0;
            proof {
                assert(mark + spec_annotated_blocks_str(*func, jv, 0) =~= mark
                    + spec_annotated_blocks_str(*func, jv, 0));
            }
            while b < nb
                invariant
                    b <= nb,
                    nb == func.basic_blocks@.len(),
                    jv == justs.blocks.deep_view(),
                    s@ + spec_annotated_blocks_str(*func, jv, b as int) == mark
                        + spec_annotated_blocks_str(*func, jv, 0),
                decreases nb - b,
            {
                let bb = &func.basic_blocks[b];
                if b > 0 {
                    s.append("    // block ");
                    let d = usize_to_dec(bb.id);
                    s.append(d.as_str());
                    s.append("
");
                }
                let ns = bb.statements.len();
                let ghost mark2 = s@;
                let mut i: usize = 0;
                while i < ns
                    invariant
                        i <= ns,
                        ns == bb.statements@.len(),
                        bb == func.basic_blocks@[b as int],
                        b < func.basic_blocks@.len(),
                        jv == justs.blocks.deep_view(),
                        s@ == mark2 + spec_annotated_stmts_str(
                            bb.statements@.take(i as int),
                            1,
                            row_text_at(jv, b as int),
                        ),
                    decreases ns - i,
                {
                    let just = self.narrative_at(justs, b, i);
                    let ghost jopt = opt_text_at(row_text_at(jv, b as int), i as int);
                    let piece = self.generate_statement_with_justification(
                        &bb.statements[i],
                        1,
                        just,
                    );
                    s.append(piece.as_str());
                    proof {
                        assert(bb.statements@.take(i + 1).drop_last() =~= bb.statements@.take(
                            i as int,
                        ));
                        assert(bb.statements@.take(i + 1).last() == bb.statements@[i as int]);
                    }
                    i += 1;
                }
                proof {
                    assert(bb.statements@.take(ns as int) =~= bb.statements@);
                }
                let t = self.generate_terminator(&bb.terminator, 1);
                s.append(t.as_str());
                proof {
                    assert(s@ + spec_annotated_blocks_str(*func, jv, b + 1) =~= mark
                        + spec_annotated_blocks_str(*func, jv, 0));
                }
                b += 1;
            }
            proof {
                assert(spec_annotated_blocks_str(*func, jv, nb as int) =~= Seq::<char>::empty());
                assert(s@ =~= mark + spec_annotated_blocks_str(*func, jv, 0));
            }
        }
        s.append("}");
        s
    }

    /// The narrative the table holds for one statement position, if any.
    fn narrative_at<'a>(&self, justs: &'a FunctionJustifications, b: usize, i: usize) -> (r:
        Option<&'a str>)
        ensures
            match r {
                Some(t) => opt_text_at(
                    row_text_at(justs.blocks.deep_view(), b as int),
                    i as int,
                ) == Some(t@),
                None => opt_text_at(
                    row_text_at(justs.blocks.deep_view(), b as int),
                    i as int,
                ) is None,
            },
    {
        if b < justs.blocks.len() {
            let row = &justs.blocks[b];
            if i < row.len() {
                match &row[i] {
                    Some(t) => Some(t.as_str()),
                    None => None,
                }
            } else {
                None
            }
        } else {
            None
        }
    }

    /// A module file composed from an externally supplied module narrative
    /// and already-rendered function texts, in order.
    pub fn compose_module_file(&self, doc: &str, function_texts: &Vec<String>) -> (r: String)
        ensures
            r@ == spec_composed_module(doc@, function_texts.deep_view()),
    {
        let ghost tv = function_texts.deep_view();
        let mut s = String::new();
        s.append(doc);
        s.append("
");
        s.append("#![allow(unused)]
use libc::*;

");
        let n = function_texts.len();
        let mut i: usize = 0;
        proof {
            assert(tv.take(0) =~= Seq::<Seq<char>>::empty());
            assert(s@ =~= spec_composed_module(doc@, tv.take(0)));
        }
        while i < n
            invariant
                i <= n,
                n == function_texts@.len(),
                tv == function_texts.deep_view(),
                s@ == spec_composed_module(doc@, tv.take(i as int)),
            decreases n - i,
        {
            s.append(function_texts[i].as_str());
            s.append("

");
            proof {
                assert(tv.take(i + 1).drop_last() =~= tv.take(i as int));
                assert(tv.take(i + 1).last() == tv[i as int]);
                assert(tv[i as int] == function_texts@[i as int]@);
            }
            i += 1;
        }
        proof {
            assert(tv.take(n as int) =~= tv);
        }
        s
    }

    /// The doc comment of one function.
    fn generate_function_doc(&self, func: &Function) -> (r: String)
        ensures
            r@ == spec_fn_doc(*func),
    {
        let mut s = String::new();
        s.append("/// Function: ");
        s.append(func.name.as_str());
        s.append("
");
        let na = func.annotations.len();
        if na > 0 {
            s.append("///
");
            s.append("/// # Semantic annotations
");
            let ghost mark = s@;
            let mut i: usize = 0;
            while i < na
                invariant
                    i <= na,
                    na == func.annotations@.len(),
                    s@ == mark + spec_fn_doc_tags(func.annotations.deep_view().take(i as int)),
                decreases na - i,
            {
                s.append("/// - ");
                s.append(func.annotations[i].as_str());
                s.append("
");
                proof {
                    let tags = func.annotations.deep_view();
                    assert(tags.take(i + 1).drop_last() =~= tags.take(i as int));
                    assert(tags.take(i + 1).last() == tags[i as int]);
                    assert(tags[i as int] == func.annotations@[i as int]@);
                }
                i += 1;
            }
            proof {
                let tags = func.annotations.deep_view();
                assert(tags.take(na as int) =~= tags);
            }
        }
        s
    }

    /// The parameter list text of one function.
    fn generate_params_text(&self, func: &Function) -> (r: String)
        ensures
            r@ == spec_params_str(*func),
    {
        let mut s = String::new();
        let np = func.parameters.len();
        let mut i: usize = 0;
        while i < np
            invariant
                i <= np,
                np == func.parameters@.len(),
                s@ == spec_params_prefix(*func, i as int),
            decreases np - i,
        {
            if i > 0 {
                s.append(", ");
            }
            s.append(func.parameters[i].name.as_str());
            s.append(": ");
            let ty = match self.type_to_rust(&func.parameters[i].param_type) {
                Ok(t) => t,
                Err(_) => String::from_str("()"),
            };
            s.append(ty.as_str());
            i += 1;
        }
        s
    }

    /// The rendered definition of one function: doc comment, visibility,
    /// signature with parameters in declaration order, mapped return type
    /// (omitted for a missing one), and the safety-checked body.
    pub fn generate_function(&self, func: &Function) -> (r: String)
        ensures
            r@ == spec_function_str(*func),
    {
        let mut s = String::new();
        let doc = self.generate_function_doc(func);
        s.append(doc.as_str());
        if !func.is_static {
            s.append("pub ");
        }
        s.append("fn ");
        s.append(func.name.as_str());
        s.append("(");
        let params = self.generate_params_text(func);
        s.append(params.as_str());
        s.append(")");
        match &func.return_type {
            Some(t) => {
                s.append(" -> ");
                let ty = match self.type_to_rust(t) {
                    Ok(t2) => t2,
                    Err(_) => String::from_str("()"),
                };
                s.append(ty.as_str());
            },
            None => {},
        }
        s.append(" {\n");
        if func.basic_blocks.len() == 0 {
            s.append("    // no function body\n");
            if func.return_type.is_some() {
                s.append("    loop {}\n");
            }
        } else {
            let body = self.generate_function_body(func);
            s.append(body.as_str());
        }
        s.append("}");
        s
    }

    /// The rendered definition of one global variable.
    pub fn generate_global_var(&self, name: &str, global_var: &GlobalVar) -> (r: Result<
        String,
        SynthesisIoError,
    >)
        ensures
            r is Ok,
            r matches Ok(s) ==> s@ == spec_global_str(name@, *global_var),
    {
        let mut s = String::new();
        s.append("/// Global variable: ");
        s.append(name);
        s.append("\n");
        if global_var.is_public {
            s.append("pub ");
        }
        let upper = ascii_upper(name);
        let ty = match self.type_to_rust(&global_var.var_type) {
            Ok(t) => t,
            Err(e) => {
                return Err(e);
            },
        };
        if global_var.is_static {
            s.append("static ");
            s.append(upper.as_str());
            s.append(": Mutex<");
            s.append(ty.as_str());
            s.append("> = Mutex::new(Default::default());");
        } else {
            s.append("static mut ");
            s.append(upper.as_str());
            s.append(": ");
            s.append(ty.as_str());
            s.append(" = Default::default();");
        }
        Ok(s)
    }

    fn generate_globals_module(&self, project_mir: &ProjectMIR) -> (r: String)
        ensures
            r@ == spec_globals_module(project_mir.globals@),
    {
        let mut s = String::new();
        s.append("//! Global variables\n\nuse std::sync::Mutex;\n\n");
        let ng = project_mir.globals.len();
        let mut g: usize = 0;
        while g < ng
            invariant
                g <= ng,
                ng == project_mir.globals@.len(),
                s@ == spec_globals_module(project_mir.globals@.take(g as int)),
            decreases ng - g,
        {
            let gv = &project_mir.globals[g];
            let piece = match self.generate_global_var(gv.name.as_str(), gv) {
                Ok(p) => p,
                Err(_) => String::new(),
            };
            s.append(piece.as_str());
            s.append("\n\n");
            proof {
                assert(project_mir.globals@.take(g + 1).drop_last() =~= project_mir.globals@.take(
                    g as int,
                ));
                assert(project_mir.globals@.take(g + 1).last() == project_mir.globals@[g as int]);
            }
            g += 1;
        }
        proof {
            assert(project_mir.globals@.take(ng as int) =~= project_mir.globals@);
        }
        s
    }

    fn generate_module_file(&self, project_mir: &ProjectMIR, module_name: &str) -> (r: String)
        ensures
            r@ == spec_module_file(*project_mir, module_name@),
    {
        let mut s = String::new();
        s.append("//! Module: ");
        s.append(module_name);
        s.append("\n\n");
        s.append("#![allow(unused)]\nuse libc::*;\n\n");
        let nf = project_mir.functions.len();
        let ghost mark = s@;
        let mut i: usize = 0;
        while i < nf
            invariant
                i <= nf,
                nf == project_mir.functions@.len(),
                s@ == mark + spec_module_fns(project_mir.functions@.take(i as int)),
            decreases nf - i,
        {
            let piece = self.generate_function(&project_mir.functions[i]);
            s.append(piece.as_str());
            s.append("\n\n");
            proof {
                assert(project_mir.functions@.take(i + 1).drop_last()
                    =~= project_mir.functions@.take(i as int));
                assert(project_mir.functions@.take(i + 1).last()
                    == project_mir.functions@[i as int]);
            }
            i += 1;
        }
        proof {
            assert(project_mir.functions@.take(nf as int) =~= project_mir.functions@);
        }
        s
    }

    fn generate_cargo_toml_text(&self) -> (r: String)
        ensures
            r@ == spec_cargo_toml(self.project_name@),
    {
        let mut s = String::new();
        s.append("[package]\nname = \"");
        s.append(self.project_name.as_str());
        s.append("\"\nversion = \"0.1.0\"\nedition = \"2021\"\n\n");
        s.append("[dependencies]\nlibc = \"0.2\"\n\n");
        s.append("[lib]\nname = \"");
        let snake = snake_name(self.project_name.as_str());
        s.append(snake.as_str());
        s.append("\"\npath = \"src/lib.rs\"\n");
        s
    }

    fn generate_lib_rs_text(&self, project_mir: &ProjectMIR) -> (r: String)
        ensures
            r@ == spec_lib_rs(*project_mir, self.project_name@),
    {
        let mut s = String::new();
        s.append("//! ");
        s.append(self.project_name.as_str());
        s.append("\n\n");
        s.append("#![allow(non_snake_case)]\n#![allow(non_camel_case_types)]\n#![allow(dead_code)]\n\n");
        if project_mir.globals.len() > 0 {
            s.append("pub mod globals;\n");
        }
        if project_mir.functions.len() > 0 {
            s.append("pub mod generated;\n");
        }
        s
    }

    /// Renders the whole output tree for one project snapshot: the package
    /// manifest, a globals module when any global exists, one file per
    /// module, and the entry module naming them. Deterministic: the same
    /// project always yields the same files, byte for byte.
    pub fn generate(&mut self, project_mir: &ProjectMIR, _analysis_results: &ProjectAnalysisResults)
        -> (r: Result<GeneratedProject, SynthesisIoError>)
        ensures
            r is Ok,
            r matches Ok(gp) ==> gp.files@.map(|i: int, f: GeneratedFile| (f.path@, f.content@))
                == spec_output_files(*project_mir, old(self).project_name@),
            final(self).project_name == old(self).project_name,
            final(self).output_dir == old(self).output_dir,
    {
        let cargo = self.generate_cargo_toml_text();
        match self.build_source_module_mapping(project_mir) {
            Ok(()) => {},
            Err(e) => {
                return Err(e);
            },
        }
        let mut files: Vec<GeneratedFile> = Vec::new();
        files.push(GeneratedFile { path: String::from_str("Cargo.toml"), content: cargo });
        if project_mir.globals.len() > 0 {
            let globals = self.generate_globals_module(project_mir);
            files.push(
                GeneratedFile { path: String::from_str("src/globals.rs"), content: globals },
            );
        }
        if project_mir.functions.len() > 0 {
            let module = self.generate_module_file(project_mir, "generated");
            files.push(
                GeneratedFile { path: String::from_str("src/generated.rs"), content: module },
            );
        }
        let lib = self.generate_lib_rs_text(project_mir);
        files.push(GeneratedFile { path: String::from_str("src/lib.rs"), content: lib });
        proof {
            assert(files@.map(|i: int, f: GeneratedFile| (f.path@, f.content@))
                =~= spec_output_files(*project_mir, old(self).project_name@));
        }
        Ok(GeneratedProject { files })
    }
}

// ---------------------------------------------------------------------------
// The per-run emission states.
// ---------------------------------------------------------------------------

/// The states one synthesis run passes through while its files are written
/// out. `Failed` is reachable from any live state on an I/O error.
#[derive(Debug, PartialEq, Eq, Structural)]
pub enum SynthState {
    Init,
    StructureCreated,
    ManifestWritten,
    ModulesPartitioned,
    ModulesRendered,
    EntryWritten,
    Done,
    Failed,
}

/// A strictly increasing rank along the emission chain.
pub open spec fn state_rank(s: SynthState) -> int {
    match s {
        SynthState::Init => 0,
        SynthState::StructureCreated => 1,
        SynthState::ManifestWritten => 2,
        SynthState::ModulesPartitioned => 3,
        SynthState::ModulesRendered => 4,
        SynthState::EntryWritten => 5,
        SynthState::Done => 6,
        SynthState::Failed => 7,
    }
}

/// The successor of each live state along the chain; `Done` and `Failed`
/// are terminal.
pub open spec fn spec_next_state(s: SynthState) -> SynthState {
    match s {
        SynthState::Init => SynthState::StructureCreated,
        SynthState::StructureCreated => SynthState::ManifestWritten,
        SynthState::ManifestWritten => SynthState::ModulesPartitioned,
        SynthState::ModulesPartitioned => SynthState::ModulesRendered,
        SynthState::ModulesRendered => SynthState::EntryWritten,
        SynthState::EntryWritten => SynthState::Done,
        SynthState::Done => SynthState::Done,
        SynthState::Failed => SynthState::Failed,
    }
}

/// One synthesis run: the caller performing the writes advances the state
/// after each successful step and fails it on the first I/O error.
#[derive(Debug)]
pub struct SynthesisRun {
    pub state: SynthState,
}

impl SynthesisRun {
    /// A run starts in `Init`.
    pub fn new() -> (r: SynthesisRun)
        ensures
            r.state == SynthState::Init,
    {
        SynthesisRun { state: SynthState::Init }
    }

    /// Advances one step along the chain. Live states move strictly
    /// forward, so no state is ever re-entered.
    pub fn advance(&mut self)
        requires
            old(self).state != SynthState::Done,
            old(self).state != SynthState::Failed,
        ensures
            final(self).state == spec_next_state(old(self).state),
            state_rank(final(self).state) > state_rank(old(self).state),
    {
        self.state = match self.state {
            SynthState::Init => SynthState::StructureCreated,
            SynthState::StructureCreated => SynthState::ManifestWritten,
            SynthState::ManifestWritten => SynthState::ModulesPartitioned,
            SynthState::ModulesPartitioned => SynthState::ModulesRendered,
            SynthState::ModulesRendered => SynthState::EntryWritten,
            SynthState::EntryWritten => SynthState::Done,
            SynthState::Done => SynthState::Done,
            SynthState::Failed => SynthState::Failed,
        };
    }

    /// Records an I/O failure: reachable from any state that is not `Done`.
    pub fn fail(&mut self)
        requires
            old(self).state != SynthState::Done,
        ensures
            final(self).state == SynthState::Failed,
    {
        self.state = SynthState::Failed;
    }
}

/// No state of the emission chain is re-entered: every live transition
/// strictly increases the rank, and the terminal states only loop on
/// themselves.
pub proof fn lemma_states_never_reentered(s: SynthState)
    requires
        s != SynthState::Done,
        s != SynthState::Failed,
    ensures
        state_rank(spec_next_state(s)) > state_rank(s),
{
}

/// An argument holding an address-of marks the whole list.
proof fn lemma_args_pointer_elem(args: Seq<RValue>, i: int)
    requires
        0 <= i < args.len(),
        spec_rvalue_contains_pointer(args[i]),
    ensures
        spec_args_contain_pointer(args),
    decreases args.len(),
{
    if i == args.len() - 1 {
        assert(args.last() == args[i]);
    } else {
        lemma_args_pointer_elem(args.drop_last(), i);
        assert(args.drop_last()[i] == args[i]);
    }
}

/// Four spaces per level.
fn make_indent(indent_level: usize) -> (r: String)
    ensures
        r@ == spec_indent(indent_level as nat),
{
    let mut s = String::new();
    let mut i: usize = 0;
    while i < indent_level
        invariant
            i <= indent_level,
            s@ == spec_indent(i as nat),
        decreases indent_level - i,
    {
        s.append("    ");
        i += 1;
    }
    s
}

/// The crate-name form of a project name: dashes become underscores.
fn snake_name(s: &str) -> (r: String)
    ensures
        r@ == spec_snake(s@),
{
    let n = s.unicode_len();
    let mut out = String::new();
    let mut i: usize = 0;
    while i < n
        invariant
            i <= n,
            n == s@.len(),
            out@ == spec_snake(s@).subrange(0, i as int),
        decreases n - i,
    {
        let c = s.get_char(i);
        if c == '-' {
            out.append("_");
            proof {
                reveal_strlit("_");
            }
        } else {
            let piece = s.substring_char(i, i + 1);
            out.append(piece);
        }
        proof {
            assert(out@ =~= spec_snake(s@).subrange(0, i + 1));
        }
        i += 1;
    }
    proof {
        assert(spec_snake(s@).subrange(0, n as int) =~= spec_snake(s@));
    }
    out
}

} // verus!
