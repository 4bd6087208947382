use codesize::config::{config_from_file, default_config, FileConfig, LimitOverride};
use codesize::scanner::{
    builtin_ext_to_lang, classify, collect_findings, csv_records, decimal_text,
    effective_limit_of, extension_of, file_name_of, in_allowed_dir, select_matched,
    select_walked, sort_findings, AnalyzedFile, Finding,
};

/// The file names that survive the walk filters, for paths relative to a
/// root `/r`.
fn walked_names(rels: &[&str]) -> Vec<String> {
    let cfg = default_config();
    let entries: Vec<(String, Option<String>)> = rels
        .iter()
        .map(|rel| (format!("/r/{rel}"), Some(rel.to_string())))
        .collect();
    select_walked(entries, &cfg)
        .into_iter()
        .map(|(p, _)| p.rsplit('/').next().unwrap().to_string())
        .collect()
}

fn matched_names(paths: &[&str]) -> Vec<String> {
    let cfg = default_config();
    let ps: Vec<String> = paths.iter().map(|s| s.to_string()).collect();
    select_matched(ps, &cfg)
        .into_iter()
        .map(|(p, _)| p.rsplit('/').next().unwrap().to_string())
        .collect()
}

#[test]
fn d_ts_excluded() {
    let names = walked_names(&["types/foo.d.ts", "src/bar.ts"]);
    assert!(names.contains(&"bar.ts".to_string()));
    assert!(!names.contains(&"foo.d.ts".to_string()));
}

#[test]
fn min_js_excluded() {
    let names = walked_names(&["dist/app.min.js", "src/app.js"]);
    assert!(names.contains(&"app.js".to_string()));
    assert!(!names.contains(&"app.min.js".to_string()));
}

#[test]
fn pb2_py_excluded() {
    let names = walked_names(&["proto/schema_pb2.py", "src/main.py"]);
    assert!(names.contains(&"main.py".to_string()));
    assert!(!names.contains(&"schema_pb2.py".to_string()));
}

#[test]
fn pb_go_excluded() {
    let names = walked_names(&["proto/schema.pb.go", "cmd/main.go"]);
    assert!(names.contains(&"main.go".to_string()));
    assert!(!names.contains(&"schema.pb.go".to_string()));
}

#[test]
fn node_modules_skipped() {
    let names = walked_names(&["node_modules/lib.ts", "src/lib.ts"]);
    assert_eq!(names.iter().filter(|n| n.as_str() == "lib.ts").count(), 1);
}

#[test]
fn walked_file_outside_root_dropped() {
    let cfg = default_config();
    let kept = select_walked(
        vec![("/elsewhere/a.py".to_string(), None), ("/r/b.py".to_string(), Some("b.py".to_string()))],
        &cfg,
    );
    assert_eq!(kept, vec![("/r/b.py".to_string(), "Python".to_string())]);
}

#[test]
fn resolve_skips_unrecognised_extensions() {
    let names = matched_names(&["/r/main.py", "/r/readme.txt"]);
    assert!(names.contains(&"main.py".to_string()));
    assert!(!names.contains(&"readme.txt".to_string()));
}

#[test]
fn resolve_deduplicates() {
    let cfg = default_config();
    let results = select_matched(vec!["/r/src/main.py".to_string(), "/r/src/main.py".to_string()], &cfg);
    assert_eq!(results.len(), 1);
}

#[test]
fn resolve_skip_suffixes_applied() {
    let names = matched_names(&["/r/app.js", "/r/app.min.js"]);
    assert!(names.contains(&"app.js".to_string()));
    assert!(!names.contains(&"app.min.js".to_string()));
}

#[test]
fn builtin_extension_table() {
    assert_eq!(builtin_ext_to_lang(".rs"), Some("Rust"));
    assert_eq!(builtin_ext_to_lang(".tsx"), Some("TypeScript"));
    assert_eq!(builtin_ext_to_lang(".h"), Some("C"));
    assert_eq!(builtin_ext_to_lang(".hpp"), Some("C++"));
    assert_eq!(builtin_ext_to_lang(".hh"), Some("C++"));
    assert_eq!(builtin_ext_to_lang(".hxx"), Some("C++"));
    assert_eq!(builtin_ext_to_lang(".mm"), Some("ObjC"));
    assert_eq!(builtin_ext_to_lang(".zig"), Some("Zig"));
    assert_eq!(builtin_ext_to_lang(".rb"), None);
    assert_eq!(builtin_ext_to_lang("rs"), None);
}

#[test]
fn classify_is_case_insensitive_on_extension() {
    let cfg = default_config();
    assert_eq!(
        classify("src/Main.PY".to_string(), &cfg),
        Some(("src/Main.PY".to_string(), "Python".to_string()))
    );
    assert_eq!(classify("src/.bashrc".to_string(), &cfg), None);
    assert_eq!(classify("src/Makefile".to_string(), &cfg), None);
    assert_eq!(classify("TYPES/FOO.D.TS".to_string(), &cfg), None);
}

#[test]
fn builtin_extensions_win_over_configured_ones() {
    let mut file = FileConfig::empty();
    file.languages.push(("py".to_string(), "NotPython".to_string()));
    file.languages.push(("rb".to_string(), "Ruby".to_string()));
    let cfg = config_from_file(file);
    assert_eq!(classify("a.py".to_string(), &cfg).unwrap().1, "Python");
    assert_eq!(classify("a.RB".to_string(), &cfg).unwrap().1, "Ruby");
}

#[test]
fn path_pieces() {
    let chars = |s: &str| s.chars().collect::<Vec<char>>();
    let name = |s: &str| file_name_of(&chars(s)).map(|v| v.into_iter().collect::<String>());
    let ext = |s: &str| extension_of(&chars(s)).map(|v| v.into_iter().collect::<String>());
    assert_eq!(name("a/b/c.py"), Some("c.py".to_string()));
    assert_eq!(name("a/b/"), Some("b".to_string()));
    assert_eq!(name("a/b/."), Some("b".to_string()));
    assert_eq!(name("a/.."), None);
    assert_eq!(name("/"), None);
    assert_eq!(name(""), None);
    assert_eq!(ext("c.py"), Some("py".to_string()));
    assert_eq!(ext("archive.tar.gz"), Some("gz".to_string()));
    assert_eq!(ext("foo."), Some("".to_string()));
    assert_eq!(ext(".gitignore"), None);
    assert_eq!(ext("README"), None);
}

#[test]
fn allowed_dir_checks_every_component() {
    let cfg = default_config();
    assert!(in_allowed_dir("src/lib.rs", &cfg));
    assert!(!in_allowed_dir("node_modules/x/lib.ts", &cfg));
    assert!(!in_allowed_dir("a/b/target/c.rs", &cfg));
    assert!(!in_allowed_dir("a//build/c.rs", &cfg));
    assert!(in_allowed_dir("a/./b.rs", &cfg));
    assert!(in_allowed_dir("targets/b.rs", &cfg));
}

fn analyzed(codefile: &str, language: &str, lines: usize, functions: Vec<(&str, usize, usize)>) -> AnalyzedFile {
    AnalyzedFile {
        codefile: codefile.to_string(),
        language: language.to_string(),
        lines,
        functions: functions.into_iter().map(|(n, s, e)| (n.to_string(), s, e)).collect(),
    }
}

#[test]
fn findings_for_file_and_functions() {
    let cfg = default_config();
    // Python: file limit 300, function limit 30.
    let files = vec![
        analyzed("big.py", "Python", 301, vec![("small", 0, 29), ("long", 40, 70)]),
        analyzed("ok.py", "Python", 300, vec![("edge", 0, 29)]),
        analyzed("notes.rb", "Ruby", 10_000, vec![]),
    ];
    let findings = collect_findings(&files, &cfg, 0);
    assert_eq!(findings.len(), 2);
    assert_eq!(findings[0].exception, "file");
    assert_eq!(findings[0].function, "");
    assert_eq!(findings[0].codefile, "big.py");
    assert_eq!((findings[0].lines, findings[0].limit), (301, 300));
    assert_eq!(findings[1].exception, "function");
    assert_eq!(findings[1].function, "long");
    assert_eq!((findings[1].lines, findings[1].limit), (31, 30));
}

#[test]
fn tolerance_raises_the_limit() {
    let cfg = default_config();
    let files = vec![analyzed("a.rs", "Rust", 550, vec![("f", 0, 87)])];
    // 10 % on 500 is 550: not over; 10 % on 80 is 88: not over.
    assert!(collect_findings(&files, &cfg, 10_000_000_000).is_empty());
    // 9.99 %: 500 -> 549, 80 -> 87.
    let f = collect_findings(&files, &cfg, 9_990_000_000);
    assert_eq!(f.len(), 2);
    assert_eq!(f[0].limit, 549);
    assert_eq!(f[1].limit, 87);
    assert_eq!(f[1].lines, 88);
}

#[test]
fn effective_limit_values() {
    assert_eq!(effective_limit_of(80, 0), 80);
    assert_eq!(effective_limit_of(80, 10_000_000_000), 88);
    assert_eq!(effective_limit_of(30, 5_000_000_000), 31);
    assert_eq!(effective_limit_of(0, 50_000_000_000), 0);
    assert_eq!(effective_limit_of(usize::MAX, 100_000_000_000), usize::MAX);
    // 0.001 % of 100000 is 1.
    assert_eq!(effective_limit_of(100_000, 1_000_000), 100_001);
}

fn finding(language: &str, lines: usize, file: &str) -> Finding {
    Finding {
        language: language.to_string(),
        exception: "file".to_string(),
        function: String::new(),
        codefile: file.to_string(),
        lines,
        limit: 1,
    }
}

#[test]
fn findings_sorted_by_language_then_lines_desc() {
    let mut fs = vec![
        finding("Rust", 10, "a"),
        finding("C", 5, "b"),
        finding("Rust", 30, "c"),
        finding("C", 5, "d"),
        finding("C++", 7, "e"),
        finding("C", 9, "f"),
    ];
    sort_findings(&mut fs);
    let order: Vec<&str> = fs.iter().map(|f| f.codefile.as_str()).collect();
    assert_eq!(order, vec!["f", "b", "d", "e", "c", "a"]);
}

#[test]
fn csv_records_header_and_rows() {
    let fs = vec![finding("Go", 1234, "cmd/main.go")];
    let recs = csv_records(&fs);
    assert_eq!(recs[0], vec!["language", "exception", "function", "codefile", "lines", "limit"]);
    assert_eq!(recs[1], vec!["Go", "file", "", "cmd/main.go", "1234", "1"]);
    assert_eq!(recs.len(), 2);
}

#[test]
fn decimal_text_matches_to_string() {
    for n in [0usize, 7, 10, 99, 100, 12345, usize::MAX] {
        assert_eq!(decimal_text(n), n.to_string());
    }
}

#[test]
fn config_limits_feed_findings() {
    let mut file = FileConfig::empty();
    file.limits.push(("Ruby".to_string(), LimitOverride { file: Some(5), function: Some(2) }));
    let cfg = config_from_file(file);
    let files = vec![analyzed("x.rb", "Ruby", 6, vec![])];
    assert_eq!(collect_findings(&files, &cfg, 0).len(), 1);
}


#[test]
fn tolerance_never_adds_findings() {
    let cfg = default_config();
    let files = vec![
        analyzed("a.rs", "Rust", 560, vec![("f", 0, 87), ("g", 100, 190)]),
        analyzed("b.py", "Python", 301, vec![("h", 0, 40)]),
    ];
    let mut last = usize::MAX;
    for t in [0u64, 1_000_000_000, 9_990_000_000, 10_000_000_000, 12_000_000_000, 50_000_000_000, 1_000_000_000_000] {
        let found = collect_findings(&files, &cfg, t);
        assert!(found.len() <= last);
        for f in &found {
            assert!(f.lines > f.limit);
        }
        last = found.len();
    }
    assert_eq!(last, 0);
    assert!(effective_limit_of(77, 3_000_000_000) <= effective_limit_of(77, 3_010_000_000));
}

#[test]
fn larger_tolerance_keeps_a_subsequence() {
    let cfg = default_config();
    let files = vec![
        analyzed("a.rs", "Rust", 560, vec![("f", 0, 87), ("g", 100, 190), ("h", 200, 290)]),
        analyzed("b.py", "Python", 301, vec![("k", 0, 40)]),
    ];
    let loose = collect_findings(&files, &cfg, 12_000_000_000);
    let tight = collect_findings(&files, &cfg, 0);
    let key = |f: &Finding| (f.language.clone(), f.exception.clone(), f.function.clone(), f.codefile.clone(), f.lines);
    let mut it = tight.iter().map(key);
    for f in loose.iter().map(key) {
        assert!(it.any(|g| g == f));
    }
    for f in tight.iter().chain(loose.iter()) {
        assert!(f.exception == "function" || (f.exception == "file" && f.function.is_empty()));
    }
}

#[test]
fn file_name_is_not_a_directory_component() {
    let mut file = FileConfig::empty();
    let mut scan = codesize::config::ScanOverrides::empty();
    scan.skip_dirs = Some(vec!["gen.py".to_string()]);
    file.scan = scan;
    let cfg = config_from_file(file);
    assert!(in_allowed_dir("src/gen.py", &cfg));
    assert!(!in_allowed_dir("gen.py/x.py", &cfg));
}

#[test]
fn matched_paths_unique() {
    let cfg = default_config();
    let r = select_matched(
        vec!["/r/a.py".to_string(), "/r/b.rs".to_string(), "/r/a.py".to_string(), "/r/b.rs".to_string()],
        &cfg,
    );
    assert_eq!(r.len(), 2);
    assert_ne!(r[0].0, r[1].0);
}

#[test]
fn matched_paths_compare_by_component() {
    let cfg = default_config();
    let r = select_matched(
        vec![
            "/r/./src/main.py".to_string(),
            "/r/src/main.py".to_string(),
            "/r//src/main.py".to_string(),
            "./src/main.py".to_string(),
            "src/main.py".to_string(),
        ],
        &cfg,
    );
    let paths: Vec<&str> = r.iter().map(|(p, _)| p.as_str()).collect();
    assert_eq!(paths, vec!["/r/./src/main.py", "./src/main.py", "src/main.py"]);
}
