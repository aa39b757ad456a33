//! Deterministic annotation texts: semantic tags for well-known external
//! calls, module documentation, and safety-justification comments. These are
//! the offline texts that synthesis falls back to whenever the external
//! annotation service is unavailable; they depend on their arguments alone.

use vstd::prelude::*;
use vstd::string::StringExecFns;
use crate::text::str_eq;

verus! {

/// The tag list inferred for an external function name. Unrecognized names
/// are conservatively assumed to have side effects.
pub open spec fn spec_api_semantics(name: Seq<char>) -> Seq<Seq<char>> {
    if name == "malloc"@ || name == "calloc"@ || name == "realloc"@ {
        seq!["[ReturnsNewResource(free)]"@]
    } else if name == "fopen"@ || name == "fdopen"@ || name == "freopen"@ {
        seq!["[ReturnsNewResource(fclose)]"@, "[HasSideEffects]"@]
    } else if name == "fclose"@ {
        seq!["[TakesOwnership(stream)]"@, "[HasSideEffects]"@]
    } else if name == "free"@ {
        seq!["[TakesOwnership(ptr)]"@]
    } else if name == "strlen"@ || name == "strcmp"@ || name == "strchr"@ {
        seq!["[Pure]"@, "[RequiresNonNull(str)]"@]
    } else if name == "strcpy"@ || name == "strcat"@ || name == "memcpy"@ {
        seq!["[HasSideEffects]"@, "[RequiresNonNull(dest)]"@, "[RequiresNonNull(src)]"@]
    } else if name == "printf"@ || name == "fprintf"@ || name == "sprintf"@ || name == "scanf"@
        || name == "fscanf"@ {
        seq!["[HasSideEffects]"@]
    } else if name == "getenv"@ {
        seq!["[HasSideEffects]"@, "[ReturnsValidUntil(next_getenv_call)]"@]
    } else {
        seq!["[HasSideEffects]"@, "[Unknown]"@]
    }
}

fn two(a: &str, b: &str) -> (r: Vec<String>)
    ensures
        r.deep_view() =~= seq![a@, b@],
{
    let mut v: Vec<String> = Vec::new();
    v.push(a.to_owned());
    v.push(b.to_owned());
    v
}

fn one(a: &str) -> (r: Vec<String>)
    ensures
        r.deep_view() =~= seq![a@],
{
    let mut v: Vec<String> = Vec::new();
    v.push(a.to_owned());
    v
}

/// Infers resource-management tags for an external library function from its
/// name. The header text is accepted for context but the inference is a
/// fixed, deterministic table.
pub fn infer_external_api_semantics(function_name: &str, _header_file_content: &str) -> (r: Vec<
    String,
>)
    ensures
        r.deep_view() == spec_api_semantics(function_name@),
{
    if str_eq(function_name, "malloc") || str_eq(function_name, "calloc") || str_eq(
        function_name,
        "realloc",
    ) {
        one("[ReturnsNewResource(free)]")
    } else if str_eq(function_name, "fopen") || str_eq(function_name, "fdopen") || str_eq(
        function_name,
        "freopen",
    ) {
        two("[ReturnsNewResource(fclose)]", "[HasSideEffects]")
    } else if str_eq(function_name, "fclose") {
        two("[TakesOwnership(stream)]", "[HasSideEffects]")
    } else if str_eq(function_name, "free") {
        one("[TakesOwnership(ptr)]")
    } else if str_eq(function_name, "strlen") || str_eq(function_name, "strcmp") || str_eq(
        function_name,
        "strchr",
    ) {
        two("[Pure]", "[RequiresNonNull(str)]")
    } else if str_eq(function_name, "strcpy") || str_eq(function_name, "strcat") || str_eq(
        function_name,
        "memcpy",
    ) {
        let mut v = two("[HasSideEffects]", "[RequiresNonNull(dest)]");
        v.push(String::from_str("[RequiresNonNull(src)]"));
        proof {
            assert(v.deep_view() =~= seq![
                "[HasSideEffects]"@,
                "[RequiresNonNull(dest)]"@,
                "[RequiresNonNull(src)]"@,
            ]);
        }
        v
    } else if str_eq(function_name, "printf") || str_eq(function_name, "fprintf") || str_eq(
        function_name,
        "sprintf",
    ) || str_eq(function_name, "scanf") || str_eq(function_name, "fscanf") {
        one("[HasSideEffects]")
    } else if str_eq(function_name, "getenv") {
        two("[HasSideEffects]", "[ReturnsValidUntil(next_getenv_call)]")
    } else {
        two("[HasSideEffects]", "[Unknown]")
    }
}

/// The deterministic module documentation text.
pub open spec fn spec_module_documentation(
    module_name: Seq<char>,
    file_name: Seq<char>,
    project_name: Seq<char>,
    project_summary: Option<Seq<char>>,
) -> Seq<char> {
    let summary = match project_summary {
        Some(s) => s,
        None => "a C project"@,
    };
    "//! Module "@ + module_name + ", lowered from `"@ + file_name + "`.\n"@ + "//!\n"@
        + "//! Part of "@ + project_name + ": "@ + summary + "\n"@
        + "//! Raw-pointer operations and foreign calls keep their source semantics\n"@
        + "//! and should be reviewed before use.\n"@
}

/// Renders the module-level documentation comment for one output module.
/// Deterministic: the same inputs always give the same text.
pub fn generate_module_documentation(
    module_name: &str,
    file_name: &str,
    project_name: &str,
    project_summary: Option<&str>,
) -> (r: String)
    ensures
        r@ == spec_module_documentation(
            module_name@,
            file_name@,
            project_name@,
            match project_summary {
                Some(s) => Some(s@),
                None => None,
            },
        ),
{
    let mut s = String::new();
    s.append("//! Module ");
    s.append(module_name);
    s.append(", lowered from `");
    s.append(file_name);
    s.append("`.\n");
    s.append("//!\n");
    s.append("//! Part of ");
    s.append(project_name);
    s.append(": ");
    match project_summary {
        Some(t) => s.append(t),
        None => s.append("a C project"),
    }
    s.append("\n");
    s.append("//! Raw-pointer operations and foreign calls keep their source semantics\n");
    s.append("//! and should be reviewed before use.\n");
    s
}

/// The deterministic safety-justification comment: a `// SAFETY:` line that
/// carries the reason code, plus the identifiers of the site.
pub open spec fn spec_unsafe_explanation(
    project_name: Seq<char>,
    file_name: Seq<char>,
    function_name: Seq<char>,
    reason: Seq<char>,
) -> Seq<char> {
    "// SAFETY: "@ + reason + "\n"@ + "// In "@ + project_name + "/"@ + file_name + ", function "@
        + function_name + ".\n"@
        + "// Callers must uphold the pointer and aliasing rules of the original code.\n"@
}

/// Renders the safety comment attached above an unsafe region. The source
/// and target fragments are accepted for context; the deterministic text
/// carries the reason code and the site identifiers.
pub fn generate_unsafe_explanation(
    project_name: &str,
    file_name: &str,
    function_name: &str,
    _c_code: &str,
    _rust_code: &str,
    reason: &str,
) -> (r: String)
    ensures
        r@ == spec_unsafe_explanation(project_name@, file_name@, function_name@, reason@),
{
    let mut s = String::new();
    s.append("// SAFETY: ");
    s.append(reason);
    s.append("\n");
    s.append("// In ");
    s.append(project_name);
    s.append("/");
    s.append(file_name);
    s.append(", function ");
    s.append(function_name);
    s.append(".\n");
    s.append("// Callers must uphold the pointer and aliasing rules of the original code.\n");
    s
}

} // verus!
