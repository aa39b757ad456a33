use c2rust_agent::analysis::ProjectAnalysisResults;
use c2rust_agent::codegen::{
    CodeGenerator, FunctionJustifications, GeneratedProject, SynthState, SynthesisRun,
};
use c2rust_agent::mir::{
    BasicBlock, BinOp, Function, GlobalVar, LValue, Parameter, ProjectMIR, RValue, Statement,
    Terminator, Type,
};

fn no_results() -> ProjectAnalysisResults {
    ProjectAnalysisResults { results: Vec::new() }
}

fn file_content<'a>(gp: &'a GeneratedProject, path: &str) -> Option<&'a str> {
    for f in gp.files.iter() {
        if f.path == path {
            return Some(f.content.as_str());
        }
    }
    None
}

fn add_function() -> Function {
    Function {
        name: "add".to_string(),
        parameters: vec![
            Parameter { name: "a".to_string(), param_type: Type::Int, var_id: 0 },
            Parameter { name: "b".to_string(), param_type: Type::Int, var_id: 1 },
        ],
        return_type: Some(Type::Int),
        basic_blocks: vec![BasicBlock {
            id: 0,
            statements: vec![],
            terminator: Terminator::Return(Some(RValue::BinaryOp(
                BinOp::Add,
                Box::new(RValue::Use(Box::new(LValue::Variable(0)))),
                Box::new(RValue::Use(Box::new(LValue::Variable(1)))),
            ))),
        }],
        annotations: vec![],
        is_static: false,
        is_public: true,
    }
}

#[test]
fn test_generate_empty_project() {
    let mut generator = CodeGenerator::new("out".to_string(), "test_project_rs".to_string());

    let project_mir = ProjectMIR::new();
    let analysis_results = no_results();

    let result = generator.generate(&project_mir, &analysis_results);
    assert!(result.is_ok());

    let gp = result.unwrap();
    assert!(file_content(&gp, "Cargo.toml").is_some());
    assert!(file_content(&gp, "src/lib.rs").is_some());
}

#[test]
fn test_generate_simple_function() {
    let mut generator = CodeGenerator::new("out".to_string(), "test_project_rs".to_string());

    let mut project_mir = ProjectMIR::new();
    project_mir.add_function(add_function());

    let analysis_results = no_results();

    let result = generator.generate(&project_mir, &analysis_results);
    assert!(result.is_ok());

    let gp = result.unwrap();
    let generated_code = file_content(&gp, "src/generated.rs").unwrap();
    assert!(generated_code.contains("pub fn add"));
    assert!(generated_code.contains("a: i32"));
    assert!(generated_code.contains("b: i32"));
}

#[test]
fn test_type_conversion() {
    let generator = CodeGenerator::new("out".to_string(), "test".to_string());

    assert_eq!(generator.type_to_rust(&Type::Int).unwrap(), "i32");
    assert_eq!(generator.type_to_rust(&Type::Float).unwrap(), "f64");
    assert_eq!(generator.type_to_rust(&Type::Void).unwrap(), "()");
    assert_eq!(
        generator.type_to_rust(&Type::Pointer(Box::new(Type::Int))).unwrap(),
        "*mut i32"
    );
}

#[test]
fn test_type_conversion_deep_pointers() {
    // arbitrarily deep pointer nesting maps to a non-empty token
    let generator = CodeGenerator::new("out".to_string(), "test".to_string());
    let mut ty = Type::Unknown;
    for _ in 0..5 {
        ty = Type::Pointer(Box::new(ty));
    }
    assert_eq!(generator.type_to_rust(&ty).unwrap(), "*mut *mut *mut *mut *mut ()");
}

#[test]
fn test_scenario_add_is_safe_and_direct() {
    // a one-block add function synthesizes a public function with a direct
    // arithmetic return and no unsafe region
    let mut generator = CodeGenerator::new("out".to_string(), "demo".to_string());
    let mut project_mir = ProjectMIR::new();
    project_mir.add_function(add_function());
    let gp = generator.generate(&project_mir, &no_results()).unwrap();
    let code = file_content(&gp, "src/generated.rs").unwrap();
    assert!(code.contains("pub fn add(a: i32, b: i32) -> i32"));
    assert!(code.contains("return (var_0 + var_1);"));
    assert!(!code.contains("unsafe"));
}

#[test]
fn test_scenario_malloc_call_gets_unsafe_region() {
    // a lone foreign call whose name holds "malloc" lands inside an unsafe
    // region under a non-empty fallback safety comment
    let mut generator = CodeGenerator::new("out".to_string(), "demo".to_string());
    let mut project_mir = ProjectMIR::new();
    let func = Function {
        name: "grab".to_string(),
        parameters: vec![],
        return_type: None,
        basic_blocks: vec![BasicBlock {
            id: 0,
            statements: vec![Statement::Call(
                LValue::Variable(0),
                "malloc".to_string(),
                vec![RValue::Constant(10)],
            )],
            terminator: Terminator::Return(None),
        }],
        annotations: vec![],
        is_static: false,
        is_public: true,
    };
    project_mir.add_function(func);
    let gp = generator.generate(&project_mir, &no_results()).unwrap();
    let code = file_content(&gp, "src/generated.rs").unwrap();
    assert!(code.contains("unsafe {"));
    assert!(code.contains("// SAFETY: allocates raw memory"));
    assert!(code.contains("malloc(10)"));
}

#[test]
fn test_scenario_one_function_one_global() {
    // one function and one global: one manifest, one entry module naming the
    // function's module plus the globals module, one globals file with the
    // variable, one module file with the function
    let mut generator = CodeGenerator::new("out".to_string(), "demo".to_string());
    let mut project_mir = ProjectMIR::new();
    project_mir.add_function(add_function());
    project_mir.add_global(GlobalVar {
        name: "counter".to_string(),
        var_type: Type::Int,
        is_static: true,
        is_public: true,
    });
    let gp = generator.generate(&project_mir, &no_results()).unwrap();
    assert_eq!(gp.files.len(), 4);
    assert!(file_content(&gp, "Cargo.toml").is_some());
    let lib = file_content(&gp, "src/lib.rs").unwrap();
    assert!(lib.contains("pub mod generated;"));
    assert!(lib.contains("pub mod globals;"));
    let globals = file_content(&gp, "src/globals.rs").unwrap();
    assert!(globals.contains("COUNTER"));
    assert!(globals.contains("Mutex<i32>"));
    let module = file_content(&gp, "src/generated.rs").unwrap();
    assert!(module.contains("pub fn add"));
}

#[test]
fn test_scenario_if_branch_preserves_operands() {
    // an If terminator synthesizes a two-way branch; each target block keeps
    // its own return operand
    let mut generator = CodeGenerator::new("out".to_string(), "demo".to_string());
    let mut project_mir = ProjectMIR::new();
    let func = Function {
        name: "pick".to_string(),
        parameters: vec![Parameter { name: "c".to_string(), param_type: Type::Int, var_id: 0 }],
        return_type: Some(Type::Int),
        basic_blocks: vec![
            BasicBlock {
                id: 0,
                statements: vec![],
                terminator: Terminator::If {
                    condition: RValue::Use(Box::new(LValue::Variable(0))),
                    then_block: 1,
                    else_block: 2,
                },
            },
            BasicBlock {
                id: 1,
                statements: vec![],
                terminator: Terminator::Return(Some(RValue::Use(Box::new(LValue::Variable(1))))),
            },
            BasicBlock {
                id: 2,
                statements: vec![],
                terminator: Terminator::Return(Some(RValue::Use(Box::new(LValue::Variable(2))))),
            },
        ],
        annotations: vec![],
        is_static: false,
        is_public: true,
    };
    project_mir.add_function(func);
    let gp = generator.generate(&project_mir, &no_results()).unwrap();
    let code = file_content(&gp, "src/generated.rs").unwrap();
    assert!(code.contains("if var_0 {"));
    assert!(code.contains("// goto block 1"));
    assert!(code.contains("// goto block 2"));
    assert!(code.contains("return var_1;"));
    assert!(code.contains("return var_2;"));
}

#[test]
fn test_resynthesis_is_byte_identical() {
    // the same project renders to byte-identical output every time
    let make = || {
        let mut project_mir = ProjectMIR::new();
        project_mir.add_function(add_function());
        project_mir.add_global(GlobalVar {
            name: "flag".to_string(),
            var_type: Type::Int,
            is_static: false,
            is_public: false,
        });
        project_mir
    };
    let mut g1 = CodeGenerator::new("out".to_string(), "demo".to_string());
    let mut g2 = CodeGenerator::new("out".to_string(), "demo".to_string());
    let r1 = g1.generate(&make(), &no_results()).unwrap();
    let r2 = g2.generate(&make(), &no_results()).unwrap();
    assert_eq!(r1.files.len(), r2.files.len());
    for (a, b) in r1.files.iter().zip(r2.files.iter()) {
        assert_eq!(a.path, b.path);
        assert_eq!(a.content, b.content);
    }
}

#[test]
fn test_unsafe_classification_is_deterministic() {
    let generator = CodeGenerator::new("out".to_string(), "demo".to_string());
    let stmt = Statement::Call(
        LValue::Variable(0),
        "libc::free".to_string(),
        vec![RValue::Use(Box::new(LValue::Variable(1)))],
    );
    let first = generator.statement_needs_unsafe(&stmt);
    let second = generator.statement_needs_unsafe(&stmt);
    assert!(first);
    assert_eq!(first, second);
    // the annotation wrapper is unwrapped before classification
    let wrapped = stmt.with_annotations(vec!["tag".to_string()]);
    assert!(generator.statement_needs_unsafe(&wrapped));
    // an address-of anywhere in the operand tree classifies the assignment
    let addr = Statement::Assign(
        LValue::Variable(0),
        RValue::BinaryOp(
            BinOp::Add,
            Box::new(RValue::Constant(1)),
            Box::new(RValue::AddressOf(Box::new(LValue::Variable(1)))),
        ),
    );
    assert!(generator.statement_needs_unsafe(&addr));
    let plain = Statement::Assign(LValue::Variable(0), RValue::Constant(3));
    assert!(!generator.statement_needs_unsafe(&plain));
}

#[test]
fn test_address_of_counts_anywhere_in_operand_tree() {
    let generator = CodeGenerator::new("out".to_string(), "demo".to_string());
    // an address-of inside a call argument classifies the call even though
    // the callee name matches no rule
    let call = Statement::Call(
        LValue::Variable(0),
        "compute".to_string(),
        vec![
            RValue::Constant(1),
            RValue::AddressOf(Box::new(LValue::Variable(2))),
        ],
    );
    assert!(generator.statement_needs_unsafe(&call));
    assert_eq!(generator.infer_unsafe_reason(&call), "operates on a raw pointer");
    // the same callee with plain arguments stays safe
    let tame = Statement::Call(
        LValue::Variable(0),
        "compute".to_string(),
        vec![RValue::Constant(1)],
    );
    assert!(!generator.statement_needs_unsafe(&tame));
    // a store through a dereference whose address operand holds an
    // address-of classifies the assignment
    let through = Statement::Assign(
        LValue::Deref(Box::new(RValue::AddressOf(Box::new(LValue::Variable(1))))),
        RValue::Constant(0),
    );
    assert!(generator.statement_needs_unsafe(&through));
    // and so does a call target of that shape
    let target = Statement::Call(
        LValue::Deref(Box::new(RValue::AddressOf(Box::new(LValue::Variable(1))))),
        "compute".to_string(),
        vec![],
    );
    assert!(generator.statement_needs_unsafe(&target));
}

#[test]
fn test_supplied_justification_replaces_fallback() {
    // a service-supplied narrative stands above the unsafe region; without
    // one the deterministic fallback comment appears instead
    let generator = CodeGenerator::new("out".to_string(), "demo".to_string());
    let stmt = Statement::Call(
        LValue::Variable(0),
        "malloc".to_string(),
        vec![RValue::Constant(8)],
    );
    let with = generator.generate_statement_with_justification(
        &stmt,
        1,
        Some("    // SAFETY: reviewed allocation\n"),
    );
    assert!(with.contains("// SAFETY: reviewed allocation"));
    assert!(with.contains("unsafe {"));
    assert!(!with.contains("allocates raw memory"));
    let without = generator.generate_statement_with_justification(&stmt, 1, None);
    assert!(without.contains("// SAFETY: allocates raw memory"));
    // a statement that needs no escape hatch ignores the narrative
    let plain = Statement::Assign(LValue::Variable(0), RValue::Constant(1));
    let rendered = generator.generate_statement_with_justification(&plain, 1, Some("// x\n"));
    assert_eq!(rendered, "    let var_0 = 1;\n");
}

#[test]
fn test_module_mapping_is_total() {
    let mut generator = CodeGenerator::new("out".to_string(), "demo".to_string());
    let mut project_mir = ProjectMIR::new();
    project_mir.add_function(add_function());
    project_mir.add_global(GlobalVar {
        name: "counter".to_string(),
        var_type: Type::Int,
        is_static: false,
        is_public: true,
    });
    generator.build_source_module_mapping(&project_mir).unwrap();
    assert_eq!(generator.source_to_module.len(), 2);
    assert_eq!(generator.source_to_module[0].key, "add");
    assert_eq!(generator.source_to_module[0].module, "generated");
    assert_eq!(generator.source_to_module[1].key, "counter");
    assert_eq!(generator.source_to_module[1].module, "globals");
}

#[test]
fn test_annotated_function_rendering_composes() {
    // a whole function rendered under service-supplied narratives, and a
    // module composed from a supplied module narrative plus rendered texts
    let generator = CodeGenerator::new("out".to_string(), "demo".to_string());
    let func = Function {
        name: "grab".to_string(),
        parameters: vec![],
        return_type: None,
        basic_blocks: vec![BasicBlock {
            id: 0,
            statements: vec![Statement::Call(
                LValue::Variable(0),
                "malloc".to_string(),
                vec![RValue::Constant(10)],
            )],
            terminator: Terminator::Return(None),
        }],
        annotations: vec![],
        is_static: false,
        is_public: true,
    };
    let justs = FunctionJustifications {
        blocks: vec![vec![Some("    // SAFETY: audited allocation
".to_string())]],
    };
    let with = generator.generate_function_with_annotations(&func, &justs);
    assert!(with.contains("// SAFETY: audited allocation"));
    assert!(with.contains("unsafe {"));
    assert!(!with.contains("allocates raw memory"));
    // an empty table falls back to the deterministic narrative
    let empty = FunctionJustifications { blocks: vec![] };
    let without = generator.generate_function_with_annotations(&func, &empty);
    assert!(without.contains("// SAFETY: allocates raw memory"));
    assert_eq!(without, generator.generate_function(&func));

    let module = generator.compose_module_file("//! Module grab, reviewed.", &vec![with.clone()]);
    assert!(module.contains("//! Module grab, reviewed."));
    assert!(module.contains("// SAFETY: audited allocation"));
}

#[test]
fn test_emission_states_advance_in_order() {
    let mut run = SynthesisRun::new();
    assert!(matches!(run.state, SynthState::Init));
    run.advance();
    assert!(matches!(run.state, SynthState::StructureCreated));
    run.advance();
    assert!(matches!(run.state, SynthState::ManifestWritten));
    run.advance();
    assert!(matches!(run.state, SynthState::ModulesPartitioned));
    run.advance();
    assert!(matches!(run.state, SynthState::ModulesRendered));
    run.advance();
    assert!(matches!(run.state, SynthState::EntryWritten));
    run.advance();
    assert!(matches!(run.state, SynthState::Done));

    let mut failing = SynthesisRun::new();
    failing.advance();
    failing.fail();
    assert!(matches!(failing.state, SynthState::Failed));
}
