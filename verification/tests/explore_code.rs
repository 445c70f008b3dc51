use agent_mcp::cache::{cache_failure, CacheStep};
use agent_mcp::ops::explore_code::{
    detect_language, explore_tree, language_name, run, LanguageKind, SyntaxNode,
};
use agent_mcp::protocol::{DetailValue, ErrorCode, ExploreCodeArgs};

fn args(path: &str, exported: bool, max_symbols: usize) -> ExploreCodeArgs {
    ExploreCodeArgs { file_path: path.to_string(), exported, max_symbols }
}

#[test]
fn test_explore_typescript_file() {
    let ts_content = r#"
export function greet(name: string): string {
    return `Hello, ${name}`;
}

export class User {
    constructor(public name: string) {}
}

function internal() {
    return "internal";
}
"#;
    let result = run(&args("test.ts", true, 200), ts_content);
    assert!(result.is_ok());
    let res = result.unwrap();
    assert_eq!(res.language, "ts");
    assert!(res.symbols.len() >= 2);
    assert!(res.symbols.iter().any(|s| s.kind == "function"));
    assert!(res.symbols.iter().any(|s| s.kind == "class"));
    assert!(res.symbols.iter().any(|s| s.name == "greet" && s.exported));
    assert!(res.symbols.iter().any(|s| s.name == "User" && s.exported));
    assert!(!res.symbols.iter().any(|s| s.name == "internal"));
}

#[test]
fn test_explore_rust_file() {
    let rust_content = r#"
pub fn public_function() -> i32 {
    42
}

fn private_function() {
    println!("private");
}

pub struct MyStruct {
    pub field: String,
}

pub enum MyEnum {
    Variant1,
    Variant2,
}
"#;
    let result = run(&args("test.rs", true, 200), rust_content);
    assert!(result.is_ok());
    let res = result.unwrap();
    assert_eq!(res.language, "rust");
    assert!(res.symbols.len() >= 3);
    assert!(res.symbols.iter().any(|s| s.kind == "function"));
    assert!(res.symbols.iter().any(|s| s.kind == "struct"));
    assert!(res.symbols.iter().any(|s| s.kind == "enum"));
    assert!(!res.symbols.iter().any(|s| s.name == "private_function"));
}

#[test]
fn test_explore_java_file() {
    let java_content = r#"
public class HelloWorld {
    public static void main(String[] args) {
        System.out.println("Hello, World!");
    }

    private void helper() {
        // helper method
    }
}

public interface MyInterface {
    void doSomething();
}
"#;
    let result = run(&args("test.java", true, 200), java_content);
    assert!(result.is_ok());
    let res = result.unwrap();
    assert_eq!(res.language, "java");
    assert!(res.symbols.len() >= 2);
    assert!(res.symbols.iter().any(|s| s.kind == "class"));
    assert!(res.symbols.iter().any(|s| s.kind == "interface"));
    assert!(res.symbols.iter().any(|s| s.name == "main" && s.kind == "method"));
    assert!(!res.symbols.iter().any(|s| s.name == "helper"));
}

#[test]
fn test_explore_javascript_file() {
    let js_content = r#"
export function add(a, b) {
    return a + b;
}

export const multiply = (a, b) => a * b;

function internal() {
    return 42;
}
"#;
    let result = run(&args("test.js", true, 200), js_content);
    assert!(result.is_ok());
    let res = result.unwrap();
    assert_eq!(res.language, "js");
    assert!(res.symbols.len() >= 2);
    assert!(res.symbols.iter().any(|s| s.name == "multiply" && s.kind == "const"));
}

#[test]
fn test_explore_include_non_exported() {
    let ts_content = r#"
export function exported() {}
function notExported() {}
"#;
    let result = run(&args("test.ts", false, 200), ts_content);
    assert!(result.is_ok());
    let res = result.unwrap();
    assert!(res.symbols.len() >= 2);
    assert!(res.symbols.iter().any(|s| s.name == "notExported" && !s.exported));
}

#[test]
fn test_explore_max_symbols_truncation() {
    let mut content = String::from("export function f1() {}\n");
    for i in 2..=20 {
        content.push_str(&format!("export function f{i}() {{}}\n"));
    }
    let result = run(&args("test.ts", true, 5), &content);
    assert!(result.is_ok());
    let res = result.unwrap();
    assert_eq!(res.symbols.len(), 5);
    assert!(res.notes.is_some());
    let notes = res.notes.unwrap();
    assert!(notes[0].contains("truncated"));
    assert_eq!(notes[0], "Symbol list truncated to 5 symbols");
    assert_eq!(res.symbols[0].name, "f1");
    assert_eq!(res.symbols[4].name, "f5");
}

#[test]
fn test_explore_unsupported_file_type() {
    let result = run(&args("test.py", true, 200), "def hello(): pass");
    assert!(result.is_err());
    let err = result.unwrap_err();
    assert!(matches!(err.code, ErrorCode::InvalidArgument));
    assert_eq!(err.message, "Unsupported file type");
    assert_eq!(
        err.details,
        Some(vec![("extension".to_string(), DetailValue::Str("py".to_string()))])
    );
}

#[test]
fn test_explore_nonexistent_file() {
    // The text of a file that cannot be stat'ed is never read: the cache
    // reports it as not found.
    let err = cache_failure(CacheStep::Stat, "nonexistent.ts", "No such file or directory (os error 2)");
    assert!(matches!(err.code, ErrorCode::NotFound));
    assert_eq!(err.message, "File not found");
}

#[test]
fn test_explore_symbol_locations() {
    let ts_content = r#"export function first() {
    return 1;
}

export function second() {
    return 2;
}
"#;
    let result = run(&args("test.ts", true, 200), ts_content);
    assert!(result.is_ok());
    let res = result.unwrap();
    for symbol in &res.symbols {
        assert!(symbol.location.start_line > 0);
        assert!(symbol.location.end_line >= symbol.location.start_line);
    }
    let first = res.symbols.iter().find(|s| s.name == "first").unwrap();
    assert_eq!((first.location.start_line, first.location.end_line), (1, 3));
    let second = res.symbols.iter().find(|s| s.name == "second").unwrap();
    assert_eq!((second.location.start_line, second.location.end_line), (5, 7));
}

#[test]
fn test_explore_tsx_file() {
    let tsx_content = r#"
export const MyComponent = () => {
    return <div>Hello</div>;
};

export interface Props {
    name: string;
}
"#;
    let result = run(&args("test.tsx", true, 200), tsx_content);
    assert!(result.is_ok());
    let res = result.unwrap();
    assert_eq!(res.language, "tsx");
    assert!(res.symbols.len() >= 2);
}

#[test]
fn test_explore_empty_file() {
    let result = run(&args("empty.ts", true, 200), "");
    assert!(result.is_ok());
    assert_eq!(result.unwrap().symbols.len(), 0);
}

#[test]
fn detect_language_by_extension() {
    assert_eq!(detect_language("a/b/c.ts").unwrap(), LanguageKind::TypeScript);
    assert_eq!(detect_language("x.tsx").unwrap(), LanguageKind::Tsx);
    assert_eq!(detect_language("x.jsx").unwrap(), LanguageKind::JavaScript);
    assert_eq!(detect_language("x.js").unwrap(), LanguageKind::JavaScript);
    assert_eq!(detect_language("src/lib.rs").unwrap(), LanguageKind::Rust);
    assert_eq!(detect_language("A.java").unwrap(), LanguageKind::Java);
    assert_eq!(detect_language("dir/file.rs/.").unwrap(), LanguageKind::Rust);
    assert!(detect_language(".ts").is_err());
    assert!(detect_language("Makefile").is_err());
    assert!(detect_language("archive.tar.gz").is_err());
    assert_eq!(language_name(LanguageKind::Rust), "rust");
}

fn node(kind: &str, start: usize, end: usize, row: usize, name: Option<(usize, usize)>, children: Vec<SyntaxNode>) -> SyntaxNode {
    SyntaxNode {
        kind: kind.to_string(),
        start_byte: start,
        end_byte: end,
        start_row: row,
        end_row: row,
        name_range: name,
        children,
    }
}

#[test]
fn exported_filter_on_a_given_tree() {
    // "pub fn a(){} fn b(){}"
    let source = "pub fn a(){} fn b(){}";
    let vis = node("visibility_modifier", 0, 3, 0, None, vec![]);
    let fa = node("function_item", 0, 12, 0, Some((7, 8)), vec![vis]);
    let fb = node("function_item", 13, 21, 0, Some((16, 17)), vec![]);
    let root = node("source_file", 0, 21, 0, None, vec![fa, fb]);
    let only = explore_tree(&args("x.rs", true, 10), LanguageKind::Rust, &root, source);
    assert_eq!(only.symbols.len(), 1);
    assert_eq!(only.symbols[0].name, "a");
    assert!(only.symbols[0].exported);
    let all = explore_tree(&args("x.rs", false, 10), LanguageKind::Rust, &root, source);
    assert_eq!(all.symbols.len(), 2);
    assert_eq!(all.symbols[1].name, "b");
    assert!(!all.symbols[1].exported);
    assert!(all.notes.is_none());
}

#[test]
fn java_fields_and_unnamed_fallback() {
    let source = "public int x, y;";
    let mods = node("modifiers", 0, 6, 0, None, vec![]);
    let d1 = node("variable_declarator", 11, 12, 0, Some((11, 12)), vec![]);
    let d2 = node("variable_declarator", 14, 15, 0, Some((14, 15)), vec![]);
    let field = node("field_declaration", 0, 16, 2, None, vec![mods, d1, d2]);
    let class = node("class_declaration", 0, 16, 1, None, vec![field]);
    let root = node("program", 0, 16, 0, None, vec![class]);
    let res = explore_tree(&args("A.java", false, 10), LanguageKind::Java, &root, source);
    let names: Vec<&str> = res.symbols.iter().map(|s| s.name.as_str()).collect();
    assert_eq!(names, vec!["<unnamed>", "x", "y"]);
    assert_eq!(res.symbols[1].kind, "field");
    assert!(res.symbols[1].exported);
    assert_eq!(res.symbols[0].location.start_line, 2);
    assert_eq!(res.symbols[1].location.start_line, 1);
}

#[test]
fn members_of_an_exported_class_are_not_exported() {
    let res = run(&args("test.ts", false, 200), "export class Foo {\n  bar() {}\n}\n").unwrap();
    assert_eq!(res.language, "ts");
    assert_eq!(res.symbols.len(), 2);
    assert_eq!(res.symbols[0].name, "Foo");
    assert_eq!(res.symbols[0].kind, "class");
    assert!(res.symbols[0].exported);
    assert_eq!(res.symbols[0].location.start_line, 1);
    assert_eq!(res.symbols[0].location.end_line, 3);
    assert_eq!(res.symbols[1].name, "bar");
    assert_eq!(res.symbols[1].kind, "function");
    assert!(!res.symbols[1].exported);
    assert_eq!(res.symbols[1].location.start_line, 2);
    let only_exported = run(&args("test.ts", true, 200), "export class Foo {\n  bar() {}\n}\n").unwrap();
    assert_eq!(only_exported.symbols.len(), 1);
}
