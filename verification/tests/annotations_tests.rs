use c2rust_agent::llm_assists::{
    generate_module_documentation, generate_unsafe_explanation, infer_external_api_semantics,
};

#[test]
fn test_infer_malloc_semantics() {
    let result = infer_external_api_semantics("malloc", "void* malloc(size_t size);");
    assert!(result.contains(&"[ReturnsNewResource(free)]".to_string()));
}

#[test]
fn test_infer_fopen_semantics() {
    let result = infer_external_api_semantics("fopen", "FILE* fopen(const char*, const char*);");
    assert!(result.contains(&"[ReturnsNewResource(fclose)]".to_string()));
    assert!(result.contains(&"[HasSideEffects]".to_string()));
}

#[test]
fn test_infer_strlen_semantics() {
    let result = infer_external_api_semantics("strlen", "size_t strlen(const char*);");
    assert!(result.contains(&"[Pure]".to_string()));
    assert!(result.contains(&"[RequiresNonNull(str)]".to_string()));
}

#[test]
fn test_infer_unknown_function() {
    let result = infer_external_api_semantics("unknown_func", "void unknown_func();");
    assert!(result.contains(&"[HasSideEffects]".to_string()));
    assert!(result.contains(&"[Unknown]".to_string()));
}

#[test]
fn test_infer_free_takes_ownership() {
    let result = infer_external_api_semantics("free", "void free(void*);");
    assert_eq!(result, vec!["[TakesOwnership(ptr)]".to_string()]);
}

#[test]
fn test_generate_module_documentation() {
    let doc = generate_module_documentation(
        "tokenize",
        "tokenize.c",
        "chibicc",
        Some("A small C compiler"),
    );
    assert!(doc.contains("//!"));
    assert!(doc.contains("tokenize"));
    assert!(doc.contains("tokenize.c"));
    assert!(doc.contains("A small C compiler"));
    assert!(doc.contains("reviewed"));
}

#[test]
fn test_generate_module_documentation_default_summary() {
    let doc = generate_module_documentation("parse", "parse.c", "chibicc", None);
    assert!(doc.contains("a C project"));
}

#[test]
fn test_generate_unsafe_explanation() {
    let comment = generate_unsafe_explanation(
        "test_project",
        "test.c",
        "test_func",
        "char *p = malloc(10);",
        "let p = libc::malloc(10);",
        "allocates raw memory",
    );
    assert!(comment.contains("// SAFETY:"));
    assert!(comment.contains("allocates raw memory"));
    assert!(comment.contains("test_project"));
    assert!(comment.contains("test_func"));
}
