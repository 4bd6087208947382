use codesize::parser::{analyze_source, count_lines, Functions};

fn funcs(source: &str, lang: &str, path: &str) -> Functions {
    analyze_source(source.as_bytes(), path, lang).1
}

fn names(source: &str, lang: &str, path: &str) -> Vec<String> {
    funcs(source, lang, path)
        .into_iter()
        .map(|(n, _, _)| n)
        .collect()
}

fn line_count(source: &str, lang: &str) -> usize {
    analyze_source(source.as_bytes(), "f.x", lang).0
}

// --- Python ---

#[test]
fn python_simple_function() {
    assert_eq!(
        names("def foo(x):\n    return x\n", "Python", "f.py"),
        vec!["foo"]
    );
}

#[test]
fn python_async_function() {
    assert_eq!(
        names("async def bar():\n    pass\n", "Python", "f.py"),
        vec!["bar"]
    );
}

#[test]
fn python_method_in_class() {
    assert_eq!(
        names(
            "class C:\n    def method(self):\n        pass\n",
            "Python",
            "f.py"
        ),
        vec!["method"]
    );
}

#[test]
fn python_line_span() {
    let fs = funcs("def foo():\n    x = 1\n    return x\n", "Python", "f.py");
    assert_eq!(fs[0].2 - fs[0].1 + 1, 3);
}

#[test]
fn python_empty_source() {
    assert!(funcs("", "Python", "f.py").is_empty());
}

#[test]
fn python_line_count() {
    assert_eq!(line_count("x = 1\ny = 2\nz = 3\n", "Python"), 3);
}

// --- Rust ---

#[test]
fn rust_simple_fn() {
    assert_eq!(
        names("fn hello() -> i32 {\n    42\n}\n", "Rust", "f.rs"),
        vec!["hello"]
    );
}

#[test]
fn rust_pub_async_fn() {
    assert_eq!(
        names("pub async fn fetch() {}\n", "Rust", "f.rs"),
        vec!["fetch"]
    );
}

#[test]
fn rust_nested_fn() {
    let ns = names("fn outer() {\n    fn inner() {}\n}\n", "Rust", "f.rs");
    assert!(ns.contains(&"outer".to_string()));
    assert!(ns.contains(&"inner".to_string()));
}

#[test]
fn rust_line_span() {
    let fs = funcs("fn foo() {\n    let x = 1;\n    x\n}\n", "Rust", "f.rs");
    assert_eq!(fs[0].2 - fs[0].1 + 1, 4);
}

// --- Go ---

#[test]
fn go_function() {
    let ns = names(
        "package main\nfunc Add(a, b int) int { return a + b }\n",
        "Go",
        "f.go",
    );
    assert!(ns.contains(&"Add".to_string()));
}

#[test]
fn go_method() {
    let src = "package main\ntype T struct{}\nfunc (t T) Method() {}\n";
    assert!(names(src, "Go", "f.go").contains(&"Method".to_string()));
}

// --- JavaScript ---

#[test]
fn js_function_declaration() {
    assert_eq!(
        names(
            "function greet(name) { return 'hi ' + name; }\n",
            "JavaScript",
            "f.js"
        ),
        vec!["greet"]
    );
}

#[test]
fn js_arrow_function() {
    let ns = names(
        "const add = (a, b) => { return a + b; };\n",
        "JavaScript",
        "f.js",
    );
    assert!(ns.contains(&"add".to_string()));
}

#[test]
fn js_mixed() {
    let src = "function foo() {}\nconst bar = () => {};\n";
    let ns = names(src, "JavaScript", "f.js");
    assert!(ns.contains(&"foo".to_string()));
    assert!(ns.contains(&"bar".to_string()));
}

// --- TypeScript ---

#[test]
fn ts_function_declaration() {
    let src = "function greet(name: string): string { return name; }\n";
    assert_eq!(names(src, "TypeScript", "f.ts"), vec!["greet"]);
}

#[test]
fn tsx_grammar_selected() {
    let src = "function App(): JSX.Element { return <div/>; }\n";
    let ns = names(src, "TypeScript", "f.tsx");
    assert!(ns.contains(&"App".to_string()));
}

#[test]
fn ts_arrow_function() {
    let src = "const fn = (x: number): number => { return x; };\n";
    assert!(names(src, "TypeScript", "f.ts").contains(&"fn".to_string()));
}

// --- Java ---

#[test]
fn java_method() {
    let src = "class C {\n    public int add(int a, int b) { return a + b; }\n}\n";
    assert!(names(src, "Java", "f.java").contains(&"add".to_string()));
}

#[test]
fn java_constructor() {
    let src = "class C {\n    public C() {}\n}\n";
    assert!(names(src, "Java", "f.java").contains(&"C".to_string()));
}

// --- C ---

#[test]
fn c_simple_function() {
    assert_eq!(
        names("int add(int a, int b) { return a + b; }\n", "C", "f.c"),
        vec!["add"]
    );
}

#[test]
fn c_multiple_functions() {
    let ns = names(
        "int a(void) { return 1; }\nint b(void) { return 2; }\n",
        "C",
        "f.c",
    );
    assert!(ns.contains(&"a".to_string()));
    assert!(ns.contains(&"b".to_string()));
}

// --- C++ ---

#[test]
fn cpp_function() {
    assert_eq!(
        names("int square(int x) { return x * x; }\n", "C++", "f.cpp"),
        vec!["square"]
    );
}

#[test]
fn cpp_method() {
    let src = "class Foo {\npublic:\n    void bar() {}\n};\n";
    assert!(names(src, "C++", "f.cpp").contains(&"bar".to_string()));
}

// --- Swift ---

#[test]
fn swift_simple_func() {
    let src = "func greet(name: String) -> String {\n    return \"Hello \" + name\n}\n";
    assert_eq!(names(src, "Swift", "f.swift"), vec!["greet"]);
}

// --- Lua ---

#[test]
fn lua_global_function() {
    let src = "function greet(name)\n  return 'hi ' .. name\nend\n";
    assert_eq!(names(src, "Lua", "f.lua"), vec!["greet"]);
}

#[test]
fn lua_line_span() {
    let src = "function foo()\n  local x = 1\n  return x\nend\n";
    let fs = funcs(src, "Lua", "f.lua");
    assert_eq!(fs[0].2 - fs[0].1 + 1, 4);
}

// --- Objective-C ---

#[test]
fn objc_c_function() {
    let src = "void greet(const char *name) {\n    return;\n}\n";
    assert_eq!(names(src, "ObjC", "f.m"), vec!["greet"]);
}

#[test]
fn objc_simple_method() {
    let src = "@implementation Foo\n- (void)bar {\n    int x = 1;\n}\n@end\n";
    assert!(names(src, "ObjC", "f.m").contains(&"bar".to_string()));
}

#[test]
fn objc_keyword_method() {
    let src = "@implementation Foo\n- (void)setName:(NSString *)name {\n    self->name = name;\n}\n@end\n";
    assert!(names(src, "ObjC", "f.m").contains(&"setName:".to_string()));
}

#[test]
fn objc_multi_keyword_method() {
    let src =
        "@implementation Foo\n- (void)doFoo:(int)a withBar:(int)b {\n    return;\n}\n@end\n";
    assert!(names(src, "ObjC", "f.m").contains(&"doFoo:withBar:".to_string()));
}

// --- Zig ---

#[test]
fn zig_simple_fn() {
    let src = "pub fn add(a: i32, b: i32) i32 {\n    return a + b;\n}\n";
    assert_eq!(names(src, "Zig", "f.zig"), vec!["add"]);
}

#[test]
fn zig_private_fn() {
    let src = "fn helper() void {\n}\n";
    assert_eq!(names(src, "Zig", "f.zig"), vec!["helper"]);
}

#[test]
fn zig_line_span() {
    let src = "pub fn foo() void {\n    const x = 1;\n    _ = x;\n}\n";
    let fs = funcs(src, "Zig", "f.zig");
    assert_eq!(fs[0].2 - fs[0].1 + 1, 4);
}

// --- line counting ---

#[test]
fn count_lines_empty() {
    assert_eq!(count_lines(b""), 0);
}

#[test]
fn count_lines_no_trailing_newline() {
    assert_eq!(count_lines(b"a\nb"), 2);
}

#[test]
fn count_lines_trailing_newline() {
    assert_eq!(count_lines(b"a\nb\n"), 2);
}

// --- further cases ---

#[test]
fn unknown_language_counts_lines_only() {
    let (lines, fs) = analyze_source(b"def f():\n  pass\n", "f.rb", "Ruby");
    assert_eq!(lines, 2);
    assert!(fs.is_empty());
}

#[test]
fn tsx_path_selects_tsx_grammar_for_any_language() {
    let src = "function App(): JSX.Element { return <div/>; }\n";
    assert!(names(src, "JavaScript", "f.tsx").contains(&"App".to_string()));
}

#[test]
fn line_count_is_additive_after_a_line_end() {
    let a = b"x\ny\n";
    let b = b"z\nw";
    let ab = b"x\ny\nz\nw";
    assert_eq!(count_lines(ab), count_lines(a) + count_lines(b));
    assert_eq!(count_lines(b"\n"), 1);
    assert_eq!(count_lines(b"\n\n"), 2);
    assert_eq!(count_lines(b"a"), 1);
}

#[test]
fn function_rows_are_zero_based() {
    let fs = funcs("\n\ndef foo():\n    pass\n", "Python", "f.py");
    assert_eq!((fs[0].1, fs[0].2), (2, 3));
}

#[test]
fn c_pointer_declarator_name() {
    let ns = names("static char *dup(const char *s) { return 0; }\n", "C", "f.c");
    assert_eq!(ns, vec!["dup"]);
}

#[test]
fn js_non_arrow_variable_not_counted() {
    let ns = names("const x = 1;\nconst g = function() {};\n", "JavaScript", "f.js");
    assert!(ns.is_empty());
}

#[test]
fn count_lines_uses_splitlines_line_ends() {
    assert_eq!(count_lines(b"a\rb"), 2);
    assert_eq!(count_lines(b"a\r\nb\r\n"), 2);
    assert_eq!(count_lines(b"a\x0bb\x0cc"), 3);
    assert_eq!(count_lines(b"a\x1cb\x1dc\x1ed"), 4);
    assert_eq!(count_lines("a\u{85}b\u{2028}c\u{2029}".as_bytes()), 3);
    assert_eq!(count_lines(b"\r\r"), 2);
    assert_eq!(count_lines(b"\r\n"), 1);
}

#[test]
fn functions_come_in_row_order() {
    let src = "def a():\n    def b():\n        pass\n\ndef c():\n    pass\n";
    let fs = funcs(src, "Python", "f.py");
    assert_eq!(fs.len(), 3);
    for w in fs.windows(2) {
        assert!(w[0].1 <= w[1].1);
    }
    for f in &fs {
        assert!(f.1 <= f.2);
    }
}

#[test]
fn enclosing_function_comes_first() {
    let fs = funcs("function outer() { function inner() { return 1; } }\n", "JavaScript", "a.js");
    let names: Vec<&str> = fs.iter().map(|f| f.0.as_str()).collect();
    assert_eq!(names, vec!["outer", "inner"]);
    assert_eq!((fs[0].1, fs[0].2), (0, 0));
    assert_eq!((fs[1].1, fs[1].2), (0, 0));
    let py = funcs("def a():\n    def b():\n        pass\n    return b\n", "Python", "a.py");
    assert_eq!(py.len(), 2);
    assert_eq!((py[0].0.as_str(), py[0].1, py[0].2), ("a", 0, 3));
    assert_eq!((py[1].0.as_str(), py[1].1, py[1].2), ("b", 1, 2));
}
