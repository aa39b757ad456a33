//! The middle intermediate representation (MIR): a CFG-based normalized form
//! between the parsed source declarations and the synthesized target code.
//!
//! A `ProjectMIR` is built once per project, read only afterwards by the
//! analysis engine and the code synthesizer, and discarded after one run.

use vstd::prelude::*;

verus! {

/// Identifier of a basic block, unique within its function.
pub type BasicBlockId = usize;

/// Identifier of a storage slot (parameter or local), unique per function.
pub type VarId = usize;

/// Types carried through the representation. `Unknown` is a lossy-mapping
/// escape hatch, never an error.
#[derive(Debug)]
pub enum Type {
    Int,
    Float,
    Pointer(Box<Type>),
    Void,
    Unknown,
}

/// A function parameter: name, type, and the storage slot it claims.
#[derive(Debug)]
pub struct Parameter {
    pub name: String,
    pub param_type: Type,
    pub var_id: VarId,
}

/// Binary operators.
#[derive(Debug)]
pub enum BinOp {
    Add,
    Sub,
    Mul,
    Div,
    Mod,
    Eq,
    Ne,
    Lt,
    Le,
    Gt,
    Ge,
    And,
    Or,
}

/// Unary operators.
#[derive(Debug)]
pub enum UnOp {
    Not,
    Neg,
}

/// A place that can be assigned to.
#[derive(Debug)]
pub enum LValue {
    Variable(VarId),
    Deref(Box<RValue>),
}

/// A computed value.
#[derive(Debug)]
pub enum RValue {
    Use(Box<LValue>),
    Constant(i32),
    BinaryOp(BinOp, Box<RValue>, Box<RValue>),
    UnaryOp(UnOp, Box<RValue>),
    AddressOf(Box<LValue>),
}

/// An operation inside a basic block. `Annotated` wraps exactly one inner
/// statement and must be unwrapped recursively by consumers.
#[derive(Debug)]
pub enum Statement {
    Assign(LValue, RValue),
    Call(LValue, String, Vec<RValue>),
    Annotated { stmt: Box<Statement>, annotations: Vec<String> },
}

/// The control transfer ending a basic block; blocks never fall through.
#[derive(Debug)]
pub enum Terminator {
    Goto(BasicBlockId),
    Return(Option<RValue>),
    If { condition: RValue, then_block: BasicBlockId, else_block: BasicBlockId },
}

/// A maximal straight-line statement sequence ending in one terminator.
#[derive(Debug)]
pub struct BasicBlock {
    pub id: BasicBlockId,
    pub statements: Vec<Statement>,
    pub terminator: Terminator,
}

/// A function: signature, CFG, semantic annotation tags, visibility flags.
#[derive(Debug)]
pub struct Function {
    pub name: String,
    pub parameters: Vec<Parameter>,
    pub return_type: Option<Type>,
    pub basic_blocks: Vec<BasicBlock>,
    pub annotations: Vec<String>,
    pub is_static: bool,
    pub is_public: bool,
}

/// A global variable: name, type, storage-class flags.
#[derive(Debug)]
pub struct GlobalVar {
    pub name: String,
    pub var_type: Type,
    pub is_static: bool,
    pub is_public: bool,
}

/// The whole project: functions and globals, each keyed by a unique name.
/// Insertion order of the entries is irrelevant to consumers.
#[derive(Debug)]
pub struct ProjectMIR {
    pub functions: Vec<Function>,
    pub globals: Vec<GlobalVar>,
}

/// Every block-id reference of this terminator resolves below `n`.
pub open spec fn terminator_targets_ok(t: Terminator, n: nat) -> bool {
    match t {
        Terminator::Goto(b) => (b as nat) < n,
        Terminator::Return(_) => true,
        Terminator::If { condition: _, then_block, else_block } => (then_block as nat) < n
            && (else_block as nat) < n,
    }
}

/// CFG well-formedness: every terminator's block-id references resolve to a
/// block existing in this function.
pub open spec fn cfg_well_formed(f: Function) -> bool {
    forall|i: int|
        0 <= i < f.basic_blocks@.len() ==> terminator_targets_ok(
            #[trigger] f.basic_blocks@[i].terminator,
            f.basic_blocks@.len(),
        )
}

/// Block ids are contiguous from 0, with block 0 the entry.
pub open spec fn blocks_contiguous(f: Function) -> bool {
    forall|i: int| 0 <= i < f.basic_blocks@.len() ==> (#[trigger] f.basic_blocks@[i].id) == i
}

/// Parameters claim slots 0, 1, ... in declaration order, before any local.
pub open spec fn params_slots_sequential(f: Function) -> bool {
    forall|i: int| 0 <= i < f.parameters@.len() ==> (#[trigger] f.parameters@[i].var_id) == i
}

/// The structural invariants of a lowered function.
pub open spec fn wf_function(f: Function) -> bool {
    &&& cfg_well_formed(f)
    &&& blocks_contiguous(f)
    &&& params_slots_sequential(f)
}

/// The names of the functions of a project, in entry order.
pub open spec fn function_names(p: ProjectMIR) -> Seq<Seq<char>> {
    p.functions@.map(|i: int, f: Function| f.name@)
}

/// The names of the globals of a project, in entry order.
pub open spec fn global_names(p: ProjectMIR) -> Seq<Seq<char>> {
    p.globals@.map(|i: int, g: GlobalVar| g.name@)
}

/// The project holds a function of this name.
pub open spec fn has_function(p: ProjectMIR, name: Seq<char>) -> bool {
    exists|i: int| 0 <= i < p.functions@.len() && (#[trigger] p.functions@[i].name@) == name
}

/// The project holds a global of this name.
pub open spec fn has_global(p: ProjectMIR, name: Seq<char>) -> bool {
    exists|i: int| 0 <= i < p.globals@.len() && (#[trigger] p.globals@[i].name@) == name
}

/// Function names are pairwise distinct, and so are global names.
pub open spec fn unique_names(p: ProjectMIR) -> bool {
    &&& forall|i: int, j: int|
        0 <= i < j < p.functions@.len() ==> (#[trigger] p.functions@[i].name@) != (
        #[trigger] p.functions@[j].name@)
    &&& forall|i: int, j: int|
        0 <= i < j < p.globals@.len() ==> (#[trigger] p.globals@[i].name@) != (
        #[trigger] p.globals@[j].name@)
}

/// Every function of the project satisfies the structural invariants.
pub open spec fn wf_project(p: ProjectMIR) -> bool {
    &&& unique_names(p)
    &&& forall|i: int| 0 <= i < p.functions@.len() ==> wf_function(#[trigger] p.functions@[i])
}

impl Function {
    /// A fresh function with the given name and return type: no parameters,
    /// no blocks, no annotations, exported and without static storage class.
    pub fn new(name: String, return_type: Option<Type>) -> (r: Function)
        ensures
            r.name == name,
            r.return_type == return_type,
            r.parameters@ =~= Seq::<Parameter>::empty(),
            r.basic_blocks@ =~= Seq::<BasicBlock>::empty(),
            r.annotations@ =~= Seq::<String>::empty(),
            r.is_static == false,
            r.is_public == true,
    {
        Function {
            name,
            parameters: Vec::new(),
            return_type,
            basic_blocks: Vec::new(),
            annotations: Vec::new(),
            is_static: false,
            is_public: true,
        }
    }

    /// Appends a parameter claiming the given slot.
    pub fn add_parameter(&mut self, name: String, param_type: Type, var_id: VarId)
        ensures
            final(self).parameters@ == old(self).parameters@.push(
                Parameter { name, param_type, var_id },
            ),
            final(self).name == old(self).name,
            final(self).return_type == old(self).return_type,
            final(self).basic_blocks == old(self).basic_blocks,
            final(self).annotations == old(self).annotations,
            final(self).is_static == old(self).is_static,
            final(self).is_public == old(self).is_public,
    {
        self.parameters.push(Parameter { name, param_type, var_id });
    }

    /// Appends a basic block.
    pub fn add_basic_block(&mut self, block: BasicBlock)
        ensures
            final(self).basic_blocks@ == old(self).basic_blocks@.push(block),
            final(self).name == old(self).name,
            final(self).return_type == old(self).return_type,
            final(self).parameters == old(self).parameters,
            final(self).annotations == old(self).annotations,
            final(self).is_static == old(self).is_static,
            final(self).is_public == old(self).is_public,
    {
        self.basic_blocks.push(block);
    }

    /// Appends a semantic annotation tag.
    pub fn add_annotation(&mut self, annotation: String)
        ensures
            final(self).annotations@ == old(self).annotations@.push(annotation),
            final(self).name == old(self).name,
            final(self).return_type == old(self).return_type,
            final(self).parameters == old(self).parameters,
            final(self).basic_blocks == old(self).basic_blocks,
            final(self).is_static == old(self).is_static,
            final(self).is_public == old(self).is_public,
    {
        self.annotations.push(annotation);
    }
}

impl BasicBlock {
    /// A fresh block with the given id and terminator and no statements.
    pub fn new(id: BasicBlockId, terminator: Terminator) -> (r: BasicBlock)
        ensures
            r.id == id,
            r.statements@ =~= Seq::<Statement>::empty(),
            r.terminator == terminator,
    {
        BasicBlock { id, statements: Vec::new(), terminator }
    }

    /// Appends a statement to this block.
    pub fn add_statement(&mut self, stmt: Statement)
        ensures
            final(self).statements@ == old(self).statements@.push(stmt),
            final(self).id == old(self).id,
            final(self).terminator == old(self).terminator,
    {
        self.statements.push(stmt);
    }
}

impl Statement {
    /// Wraps this statement with a set of annotation tags.
    pub fn with_annotations(self, annotations: Vec<String>) -> (r: Statement)
        ensures
            r == (Statement::Annotated { stmt: Box::new(self), annotations }),
    {
        Statement::Annotated { stmt: Box::new(self), annotations }
    }
}

impl ProjectMIR {
    /// An empty project.
    pub fn new() -> (r: ProjectMIR)
        ensures
            r.functions@ =~= Seq::<Function>::empty(),
            r.globals@ =~= Seq::<GlobalVar>::empty(),
    {
        ProjectMIR { functions: Vec::new(), globals: Vec::new() }
    }

    /// Index of the function with this name, if any.
    pub fn find_function(&self, name: &str) -> (r: Option<usize>)
        ensures
            match r {
                Some(i) => i < self.functions@.len() && self.functions@[i as int].name@ == name@,
                None => !has_function(*self, name@),
            },
    {
        let n = self.functions.len();
        let mut i: usize = 0;
        while i < n
            invariant
                i <= n,
                n == self.functions@.len(),
                forall|j: int| 0 <= j < i ==> (#[trigger] self.functions@[j].name@) != name@,
            decreases n - i,
        {
            if crate::text::str_eq(self.functions[i].name.as_str(), name) {
                return Some(i);
            }
            i += 1;
        }
        None
    }

    /// Index of the global with this name, if any.
    pub fn find_global(&self, name: &str) -> (r: Option<usize>)
        ensures
            match r {
                Some(i) => i < self.globals@.len() && self.globals@[i as int].name@ == name@,
                None => !has_global(*self, name@),
            },
    {
        let n = self.globals.len();
        let mut i: usize = 0;
        while i < n
            invariant
                i <= n,
                n == self.globals@.len(),
                forall|j: int| 0 <= j < i ==> (#[trigger] self.globals@[j].name@) != name@,
            decreases n - i,
        {
            if crate::text::str_eq(self.globals[i].name.as_str(), name) {
                return Some(i);
            }
            i += 1;
        }
        None
    }

    /// Inserts a function unless one of the same name already exists: a later
    /// re-declaration never overwrites an existing signature.
    pub fn add_function(&mut self, f: Function) -> (added: bool)
        ensures
            added == !has_function(*old(self), f.name@),
            added ==> final(self).functions@ == old(self).functions@.push(f),
            !added ==> final(self).functions@ == old(self).functions@,
            final(self).globals == old(self).globals,
    {
        match self.find_function(f.name.as_str()) {
            Some(_) => false,
            None => {
                self.functions.push(f);
                true
            },
        }
    }

    /// Inserts a global unless one of the same name already exists.
    pub fn add_global(&mut self, g: GlobalVar) -> (added: bool)
        ensures
            added == !has_global(*old(self), g.name@),
            added ==> final(self).globals@ == old(self).globals@.push(g),
            !added ==> final(self).globals@ == old(self).globals@,
            final(self).functions == old(self).functions,
    {
        match self.find_global(g.name.as_str()) {
            Some(_) => false,
            None => {
                self.globals.push(g);
                true
            },
        }
    }
}

} // verus!
