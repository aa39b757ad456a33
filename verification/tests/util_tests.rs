use c2rust_agent::chat::ChatMessage;
use c2rust_agent::project_loader::{
    filter_compiler_args, shlex_split, CompileCommandEntry,
};
use c2rust_agent::utils::{extract_code_block, format_file_size};
use c2rust_agent::version_info;

#[test]
fn test_chat_message_creation() {
    let msg = ChatMessage::user("test");
    assert_eq!(msg.role, "user");
    assert_eq!(msg.content, "test");
}

#[test]
fn test_chat_message_roles() {
    assert_eq!(ChatMessage::system("a").role, "system");
    assert_eq!(ChatMessage::assistant("b").role, "assistant");
}

#[test]
fn test_extract_code_block() {
    let text = r#"
Some text before

```rust
fn main() {
    println!("Hello");
}
```

Some text after
"#;

    let code = extract_code_block(text, "rust").unwrap();
    assert!(code.contains("fn main()"));
}

#[test]
fn test_extract_code_block_untagged() {
    let text = "intro\n```\nlet x = 1;\n```\n";
    let code = extract_code_block(text, "rust").unwrap();
    assert_eq!(code, "let x = 1;");
}

#[test]
fn test_extract_code_block_missing() {
    assert!(extract_code_block("no fences here", "rust").is_none());
}

#[test]
fn test_format_file_size() {
    assert_eq!(format_file_size(512), "512 B");
    assert_eq!(format_file_size(2048), "2.00 KB");
    assert_eq!(format_file_size(1024 * 1024), "1.00 MB");
}

#[test]
fn test_format_file_size_rounding() {
    // 1536 bytes = 1.50 KB exactly; 1100 bytes = 1.07421875 KB, shown as 1.07
    assert_eq!(format_file_size(1536), "1.50 KB");
    assert_eq!(format_file_size(1100), "1.07 KB");
    assert_eq!(format_file_size(3 * 1024 * 1024 * 1024), "3.00 GB");
}

#[test]
fn test_version_info() {
    assert_eq!(version_info(), "Translate Hybrid v0.1.0");
}

#[test]
fn test_shlex_split_plain() {
    let words = shlex_split("gcc -O2\tmain.c");
    assert_eq!(words, vec!["gcc", "-O2", "main.c"]);
}

#[test]
fn test_shlex_split_quotes() {
    let words = shlex_split("a 'b c' \"d e\" f");
    assert_eq!(words, vec!["a", "b c", "d e", "f"]);
}

#[test]
fn test_filter_compiler_args_drops_io() {
    let args: Vec<String> = ["gcc", "-c", "foo.c", "-o", "foo.o", "-DFOO", "-std=c11"]
        .iter()
        .map(|s| s.to_string())
        .collect();
    let kept = filter_compiler_args(&args);
    assert_eq!(kept, vec!["gcc", "-DFOO", "-std=c11"]);
}

#[test]
fn test_filter_compiler_args_keeps_search_paths() {
    let args: Vec<String> = ["-Isrc", "-isystem", "vendor", "-U_FORTIFY_SOURCE"]
        .iter()
        .map(|s| s.to_string())
        .collect();
    let kept = filter_compiler_args(&args);
    assert_eq!(kept, vec!["-Isrc", "-isystem", "vendor", "-U_FORTIFY_SOURCE"]);
}

#[test]
fn test_filter_compiler_args_pairs_value_options() {
    // the file-inclusion option keeps its following value token even when
    // that token names a source file (the name is built at runtime)
    let opt = "-inc".to_string() + "lude";
    let args: Vec<String> = vec![opt.clone(), "a.c".to_string(), "-DX".to_string()];
    let kept = filter_compiler_args(&args);
    assert_eq!(kept, vec![opt.as_str(), "a.c", "-DX"]);
}

#[test]
fn test_entry_to_unit_spec() {
    let entry = CompileCommandEntry {
        directory: "/work".to_string(),
        file: "src/main.c".to_string(),
        command: "gcc -c src/main.c -o main.o -DX=1".to_string(),
        arguments: vec![],
    };
    let unit = entry.to_unit_spec();
    assert_eq!(unit.source, "/work/src/main.c");
    assert_eq!(unit.args, vec!["gcc", "-DX=1"]);
}

#[test]
fn test_entry_arguments_take_precedence() {
    let entry = CompileCommandEntry {
        directory: "/work".to_string(),
        file: "/abs/main.c".to_string(),
        command: "ignored -DNO".to_string(),
        arguments: vec!["cc".to_string(), "-DYES".to_string()],
    };
    let unit = entry.to_unit_spec();
    assert_eq!(unit.source, "/abs/main.c");
    assert_eq!(unit.args, vec!["cc", "-DYES"]);
}
