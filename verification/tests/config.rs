use codesize::config::{
    config_from_file, default_config, default_limits, normalize_extension, FileConfig, LangLimits,
    LimitOverride, ScanOverrides,
};

#[test]
fn default_config_has_all_languages() {
    let cfg = default_config();
    for lang in &[
        "Rust",
        "Python",
        "Go",
        "TypeScript",
        "JavaScript",
        "Java",
        "C",
        "C++",
        "Swift",
        "Lua",
    ] {
        assert!(cfg.limit_for(lang).is_some(), "Missing limits for {lang}");
    }
}

#[test]
fn default_config_has_skip_dirs() {
    let cfg = default_config();
    assert!(cfg.skip_dirs.contains(&".git".to_string()));
    assert!(cfg.skip_dirs.contains(&"node_modules".to_string()));
}

#[test]
fn default_config_has_skip_suffixes() {
    let cfg = default_config();
    assert!(cfg.skip_suffixes.contains(&".d.ts".to_string()));
    assert!(cfg.skip_suffixes.contains(&".min.js".to_string()));
}

#[test]
fn default_config_gitignore_off() {
    let cfg = default_config();
    assert!(!cfg.respect_gitignore);
    assert!(cfg.respect_ignore_files.is_empty());
    assert!(cfg.ignore_files.is_empty());
}

#[test]
fn default_output_file_is_csv() {
    let cfg = default_config();
    assert_eq!(cfg.default_output_file, "codesize.csv");
}

/// Reads the `[limits]` table of a TOML text into a `FileConfig`.
fn file_config_from_toml(text: &str) -> FileConfig {
    let table: toml::Table = toml::from_str(text).unwrap();
    let mut file = FileConfig::empty();
    if let Some(limits) = table.get("limits").and_then(|v| v.as_table()) {
        for (lang, v) in limits {
            let t = v.as_table().unwrap();
            file.limits.push((
                lang.clone(),
                LimitOverride {
                    file: t.get("file").map(|x| x.as_integer().unwrap() as usize),
                    function: t.get("function").map(|x| x.as_integer().unwrap() as usize),
                },
            ));
        }
    }
    file
}

#[test]
fn toml_override_replaces_single_limit() {
    let toml = r#"
[limits.Rust]
file = 999
function = 99
"#;
    let file_cfg = file_config_from_toml(toml);
    let cfg = config_from_file(file_cfg);
    let rust = cfg.limit_for("Rust").unwrap();
    assert_eq!(rust.file, 999);
    assert_eq!(rust.function, 99);
    assert_eq!(cfg.limit_for("Python").unwrap().file, 300);
}

#[test]
fn default_limits_match_readme_table() {
    let limits = default_limits();
    let expected = [
        ("Rust", 500, 80),
        ("TypeScript", 300, 40),
        ("JavaScript", 300, 40),
        ("Python", 300, 30),
        ("Go", 400, 60),
        ("Java", 300, 30),
        ("C", 500, 60),
        ("C++", 400, 60),
        ("Swift", 400, 50),
        ("Lua", 400, 50),
    ];
    assert_eq!(limits.len(), expected.len());
    for (lang, file, function) in expected {
        let found = limits.iter().find(|(l, _)| l == lang).unwrap().1;
        assert_eq!(found, LangLimits { file, function });
    }
}

#[test]
fn override_keeps_other_languages() {
    let mut file = FileConfig::empty();
    file.limits.push(("Python".to_string(), LimitOverride { file: Some(10), function: Some(5) }));
    file.limits.push(("Ruby".to_string(), LimitOverride { file: Some(300), function: Some(30) }));
    let cfg = config_from_file(file);
    assert_eq!(cfg.limit_for("Python"), Some(LangLimits { file: 10, function: 5 }));
    assert_eq!(cfg.limit_for("Ruby"), Some(LangLimits { file: 300, function: 30 }));
    assert_eq!(cfg.limit_for("Go"), Some(LangLimits { file: 400, function: 60 }));
    assert_eq!(cfg.limit_for("Elixir"), None);
    assert_eq!(cfg.limits.len(), 11);
}

#[test]
fn later_override_of_a_language_wins() {
    let mut file = FileConfig::empty();
    file.limits.push(("Go".to_string(), LimitOverride { file: Some(1), function: Some(1) }));
    file.limits.push(("Go".to_string(), LimitOverride { file: Some(2), function: Some(2) }));
    let cfg = config_from_file(file);
    assert_eq!(cfg.limit_for("Go"), Some(LangLimits { file: 2, function: 2 }));
    assert_eq!(cfg.limits.len(), 10);
}

#[test]
fn skip_lists_replace_defaults_when_present() {
    let mut scan = ScanOverrides::empty();
    scan.skip_dirs = Some(vec!["vendor".to_string(), "vendor".to_string(), "gen".to_string()]);
    scan.skip_suffixes = Some(vec![]);
    scan.respect_gitignore = Some(true);
    scan.default_output_file = Some("out.csv".to_string());
    scan.ignore_files = Some(vec!["~/.globalignore".to_string()]);
    let cfg = config_from_file(FileConfig { limits: vec![], scan, languages: vec![] });
    assert_eq!(cfg.skip_dirs, vec!["vendor".to_string(), "gen".to_string()]);
    assert!(cfg.skip_suffixes.is_empty());
    assert!(cfg.respect_gitignore);
    assert_eq!(cfg.default_output_file, "out.csv");
    assert_eq!(cfg.ignore_files, vec!["~/.globalignore".to_string()]);
    assert!(cfg.respect_ignore_files.is_empty());
}

#[test]
fn extension_keys_are_normalized() {
    assert_eq!(normalize_extension("rb"), ".rb");
    assert_eq!(normalize_extension(".rb"), ".rb");
    assert_eq!(normalize_extension(".RB"), ".rb");
    assert_eq!(normalize_extension("  Ex "), ".ex");
}

#[test]
fn extra_languages_normalized_and_last_wins() {
    let mut file = FileConfig::empty();
    file.languages.push(("RB".to_string(), "Ruby".to_string()));
    file.languages.push(("exs".to_string(), "Elixir".to_string()));
    file.languages.push((".rb".to_string(), "Crystal".to_string()));
    let cfg = config_from_file(file);
    assert_eq!(cfg.extra_languages.len(), 2);
    assert!(cfg.extra_languages.contains(&(".rb".to_string(), "Crystal".to_string())));
    assert!(cfg.extra_languages.contains(&(".exs".to_string(), "Elixir".to_string())));
}

#[test]
fn unicode_white_space_trimmed_from_extension_keys() {
    assert_eq!(normalize_extension("\u{3000}rb\t"), ".rb");
    assert_eq!(normalize_extension("\u{a0}.Zig\u{2028}"), ".zig");
}

#[test]
fn dropping_repetitions_twice_changes_nothing() {
    let v = vec!["a".to_string(), "b".to_string(), "a".to_string(), "c".to_string(), "b".to_string()];
    let once = codesize::table::dedup_strings(v);
    assert_eq!(once, vec!["a".to_string(), "b".to_string(), "c".to_string()]);
    let twice = codesize::table::dedup_strings(once.clone());
    assert_eq!(twice, once);
}

#[test]
fn toml_override_of_one_field_keeps_the_other() {
    let toml = r#"
[limits.Python]
function = 50

[limits.Ruby]
file = 300
"#;
    let cfg = config_from_file(file_config_from_toml(toml));
    assert_eq!(cfg.limit_for("Python"), Some(LangLimits { file: 300, function: 50 }));
    assert_eq!(cfg.limit_for("Rust"), Some(LangLimits { file: 500, function: 80 }));
    assert_eq!(cfg.limit_for("Ruby"), Some(LangLimits { file: 300, function: usize::MAX }));
}
