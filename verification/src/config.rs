//! Size limits and scan settings: the built-in defaults and how a
//! configuration file overrides them.

use vstd::prelude::*;

use crate::table::{
    dedup_strings, find_value, first_occurrences, lemma_first_occurrences_distinct, keys_unique, lookup, no_duplicates, pairs_view,
    upsert,
};
use crate::text::{
    chars_of, lowercase_text, lowercased, strings_view, text, trim_text, trimmed,
};

verus! {

/// The largest file and function, in lines, that a language allows.
#[derive(Clone, Copy, Debug, PartialEq, Eq, Structural)]
pub struct LangLimits {
    pub file: usize,
    pub function: usize,
}

/// The settings a scan runs with.
pub struct Config {
    /// Limits per language name; one entry per language.
    pub limits: Vec<(String, LangLimits)>,
    /// User-defined extension to language name mappings (extension includes
    /// leading dot, lowercased). Consulted after the built-in extension table.
    pub extra_languages: Vec<(String, String)>,
    pub skip_dirs: Vec<String>,
    pub skip_suffixes: Vec<String>,
    pub respect_gitignore: bool,
    pub respect_ignore_files: Vec<String>,
    pub ignore_files: Vec<String>,
    pub default_output_file: String,
}

/// A `[limits.<Language>]` table of a configuration file: each limit may be
/// absent, and an absent one keeps its value.
#[derive(Clone, Copy, Debug, PartialEq, Eq)]
pub struct LimitOverride {
    pub file: Option<usize>,
    pub function: Option<usize>,
}

/// The `[scan]` table of a configuration file; each setting may be absent.
pub struct ScanOverrides {
    /// Respect .gitignore / .ignore / global git excludes (default: false).
    pub respect_gitignore: Option<bool>,
    /// Additional gitignore-style filenames to look for in every directory.
    pub respect_ignore_files: Option<Vec<String>>,
    /// Paths to explicit gitignore-pattern files to apply during the walk.
    pub ignore_files: Option<Vec<String>>,
    /// Default CSV output path used when no output path is given.
    pub default_output_file: Option<String>,
    /// Replaces the built-in skip-directory list when present.
    pub skip_dirs: Option<Vec<String>>,
    /// Replaces the built-in skip-suffix list when present.
    pub skip_suffixes: Option<Vec<String>>,
}

/// A configuration file: limits per language, scan settings, and extra
/// extension to language mappings.
pub struct FileConfig {
    pub limits: Vec<(String, LimitOverride)>,
    pub scan: ScanOverrides,
    pub languages: Vec<(String, String)>,
}

impl ScanOverrides {
    /// No setting given.
    pub fn empty() -> (r: ScanOverrides)
        ensures
            r.respect_gitignore is None,
            r.respect_ignore_files is None,
            r.ignore_files is None,
            r.default_output_file is None,
            r.skip_dirs is None,
            r.skip_suffixes is None,
    {
        ScanOverrides {
            respect_gitignore: None,
            respect_ignore_files: None,
            ignore_files: None,
            default_output_file: None,
            skip_dirs: None,
            skip_suffixes: None,
        }
    }
}

impl FileConfig {
    /// A configuration file that sets nothing.
    pub fn empty() -> (r: FileConfig)
        ensures
            r.limits@.len() == 0,
            r.languages@.len() == 0,
            r.scan.respect_gitignore is None,
            r.scan.respect_ignore_files is None,
            r.scan.ignore_files is None,
            r.scan.default_output_file is None,
            r.scan.skip_dirs is None,
            r.scan.skip_suffixes is None,
    {
        FileConfig { limits: Vec::new(), scan: ScanOverrides::empty(), languages: Vec::new() }
    }
}

/// The built-in limits, per language: (language, file limit, function limit).
pub open spec fn default_limit_table() -> Seq<(Seq<char>, LangLimits)> {
    seq![
        ("Rust"@, LangLimits { file: 500, function: 80 }),
        ("TypeScript"@, LangLimits { file: 300, function: 40 }),
        ("JavaScript"@, LangLimits { file: 300, function: 40 }),
        ("Python"@, LangLimits { file: 300, function: 30 }),
        ("Go"@, LangLimits { file: 400, function: 60 }),
        ("Java"@, LangLimits { file: 300, function: 30 }),
        ("C"@, LangLimits { file: 500, function: 60 }),
        ("C++"@, LangLimits { file: 400, function: 60 }),
        ("Swift"@, LangLimits { file: 400, function: 50 }),
        ("Lua"@, LangLimits { file: 400, function: 50 }),
    ]
}

/// The built-in directory names that a scan skips.
pub open spec fn default_skip_dir_names() -> Seq<Seq<char>> {
    seq![".git"@, ".venv"@, "node_modules"@, "target"@, "dist"@, "build"@]
}

/// The built-in file-name suffixes that a scan skips.
pub open spec fn default_skip_suffix_names() -> Seq<Seq<char>> {
    seq![".d.ts"@, ".min.js"@, ".min.ts"@, ".min.mjs"@, "_pb2.py"@, "_pb.go"@, ".pb.go"@]
}

proof fn lemma_default_limit_keys_unique()
    ensures
        keys_unique(default_limit_table()),
{
    reveal_strlit("Rust");
    reveal_strlit("TypeScript");
    reveal_strlit("JavaScript");
    reveal_strlit("Python");
    reveal_strlit("Go");
    reveal_strlit("Java");
    reveal_strlit("C");
    reveal_strlit("C++");
    reveal_strlit("Swift");
    reveal_strlit("Lua");
    let t = default_limit_table();
    assert forall|i: int, j: int| 0 <= i < j < t.len() implies t[i].0 != t[j].0 by {
        if t[i].0.len() == t[j].0.len() {
            assert(t[i].0[0] != t[j].0[0] || t[i].0[1] != t[j].0[1]);
        }
    }
}

proof fn lemma_default_names_distinct()
    ensures
        no_duplicates(default_skip_dir_names()),
        no_duplicates(default_skip_suffix_names()),
{
    reveal_strlit(".git");
    reveal_strlit(".venv");
    reveal_strlit("node_modules");
    reveal_strlit("target");
    reveal_strlit("dist");
    reveal_strlit("build");
    reveal_strlit(".d.ts");
    reveal_strlit(".min.js");
    reveal_strlit(".min.ts");
    reveal_strlit(".min.mjs");
    reveal_strlit("_pb2.py");
    reveal_strlit("_pb.go");
    reveal_strlit(".pb.go");
    let d = default_skip_dir_names();
    assert forall|i: int, j: int| 0 <= i < j < d.len() implies d[i] != d[j] by {
        if d[i].len() == d[j].len() {
            assert(d[i][1] != d[j][1]);
        }
    }
    let s = default_skip_suffix_names();
    assert forall|i: int, j: int| 0 <= i < j < s.len() implies s[i] != s[j] by {
        if s[i].len() == s[j].len() {
            assert(s[i][0] != s[j][0] || s[i][5] != s[j][5]);
        }
    }
}

/// The built-in limits, one entry per language.
pub fn default_limits() -> (r: Vec<(String, LangLimits)>)
    ensures
        pairs_view(r@) == default_limit_table(),
        keys_unique(pairs_view(r@)),
{
    let r = vec![
        (text("Rust"), LangLimits { file: 500, function: 80 }),
        (text("TypeScript"), LangLimits { file: 300, function: 40 }),
        (text("JavaScript"), LangLimits { file: 300, function: 40 }),
        (text("Python"), LangLimits { file: 300, function: 30 }),
        (text("Go"), LangLimits { file: 400, function: 60 }),
        (text("Java"), LangLimits { file: 300, function: 30 }),
        (text("C"), LangLimits { file: 500, function: 60 }),
        (text("C++"), LangLimits { file: 400, function: 60 }),
        (text("Swift"), LangLimits { file: 400, function: 50 }),
        (text("Lua"), LangLimits { file: 400, function: 50 }),
    ];
    assert(pairs_view(r@) =~= default_limit_table());
    proof {
        lemma_default_limit_keys_unique();
    }
    r
}

/// The built-in directory names that a scan skips.
pub fn default_skip_dirs() -> (r: Vec<String>)
    ensures
        strings_view(r@) == default_skip_dir_names(),
{
    let r = vec![
        text(".git"),
        text(".venv"),
        text("node_modules"),
        text("target"),
        text("dist"),
        text("build"),
    ];
    assert(strings_view(r@) =~= default_skip_dir_names());
    r
}

/// The built-in file-name suffixes that a scan skips.
pub fn default_skip_suffixes() -> (r: Vec<String>)
    ensures
        strings_view(r@) == default_skip_suffix_names(),
{
    let r = vec![
        text(".d.ts"),
        text(".min.js"),
        text(".min.ts"),
        text(".min.mjs"),
        text("_pb2.py"),
        text("_pb.go"),
        text(".pb.go"),
    ];
    assert(strings_view(r@) =~= default_skip_suffix_names());
    r
}

/// An extension key as configured, trimmed and lowercased, with a leading
/// dot added where it has none.
pub open spec fn normalized_extension(ext: Seq<char>) -> Seq<char> {
    let e = lowercased(trimmed(ext));
    if e.len() > 0 && e[0] == '.' {
        e
    } else {
        seq!['.'] + e
    }
}

/// A normalized extension key always starts with a dot.
pub proof fn law_normalized_extension_has_dot(ext: Seq<char>)
    ensures
        normalized_extension(ext).len() > 0,
        normalized_extension(ext)[0] == '.',
{
}

/// Normalizes a user-supplied extension key: trimmed, lowercased, with a
/// leading dot.
pub fn normalize_extension(ext: &str) -> (r: String)
    ensures
        r@ == normalized_extension(ext@),
{
    let t = trim_text(ext);
    let e = lowercase_text(t.as_str());
    let cs = chars_of(e.as_str());
    if cs.len() > 0 && cs[0] == '.' {
        e
    } else {
        let mut r = text(".");
        r.append(e.as_str());
        proof {
            reveal_strlit(".");
        }
        assert(r@ =~= seq!['.'] + e@);
        r
    }
}

/// The limits of a language after one override: each limit given replaces
/// the one before; a limit not given keeps the one before, and where there was
/// none, the language has no such limit (`usize::MAX`).
pub open spec fn overridden(before: Option<LangLimits>, o: LimitOverride) -> LangLimits {
    LangLimits {
        file: match o.file {
            Some(f) => f,
            None => match before {
                Some(b) => b.file,
                None => usize::MAX,
            },
        },
        function: match o.function {
            Some(f) => f,
            None => match before {
                Some(b) => b.function,
                None => usize::MAX,
            },
        },
    }
}

/// The limits of `lang` after applying the overrides of `file`, in order,
/// to the built-in limits: a language without an override keeps its
/// built-in limits, and an override changes only the limits it gives.
pub open spec fn merged_limit(file: Seq<(Seq<char>, LimitOverride)>, lang: Seq<char>) -> Option<LangLimits>
    decreases file.len(),
{
    if file.len() == 0 {
        lookup(default_limit_table(), lang)
    } else {
        let before = merged_limit(file.drop_last(), lang);
        if file.last().0 == lang {
            Some(overridden(before, file.last().1))
        } else {
            before
        }
    }
}

/// A language that no `[limits]` entry names keeps its built-in limits.
pub proof fn law_unnamed_language_keeps_defaults(file: Seq<(Seq<char>, LimitOverride)>, lang: Seq<char>)
    requires
        forall|i: int| 0 <= i < file.len() ==> #[trigger] file[i].0 != lang,
    ensures
        merged_limit(file, lang) == lookup(default_limit_table(), lang),
    decreases file.len(),
{
    if file.len() > 0 {
        let d = file.drop_last();
        assert forall|i: int| 0 <= i < d.len() implies #[trigger] d[i].0 != lang by {
            assert(d[i] == file[i]);
        }
        law_unnamed_language_keeps_defaults(d, lang);
        assert(file.last() == file[file.len() - 1]);
    }
}

/// Where one `[limits]` entry names a language, its limits are the built-in
/// ones with that entry's given limits put in: a limit the entry gives
/// replaces the built-in one, and a limit it leaves out keeps it.
pub proof fn law_named_language_merges_its_entry(
    file: Seq<(Seq<char>, LimitOverride)>,
    lang: Seq<char>,
    i: int,
)
    requires
        0 <= i < file.len(),
        file[i].0 == lang,
        forall|j: int| 0 <= j < file.len() && j != i ==> #[trigger] file[j].0 != lang,
    ensures
        merged_limit(file, lang) == Some(overridden(lookup(default_limit_table(), lang), file[i].1)),
    decreases file.len(),
{
    let d = file.drop_last();
    if i == file.len() - 1 {
        assert forall|j: int| 0 <= j < d.len() implies #[trigger] d[j].0 != lang by {
            assert(d[j] == file[j]);
        }
        law_unnamed_language_keeps_defaults(d, lang);
    } else {
        assert forall|j: int| 0 <= j < d.len() && j != i implies #[trigger] d[j].0 != lang by {
            assert(d[j] == file[j]);
        }
        assert(d[i] == file[i]);
        law_named_language_merges_its_entry(d, lang, i);
        assert(file.last() == file[file.len() - 1]);
    }
}

/// Applies an override to limits.
fn apply_override(before: Option<LangLimits>, o: LimitOverride) -> (r: LangLimits)
    ensures
        r == overridden(before, o),
{
    LangLimits {
        file: match o.file {
            Some(f) => f,
            None => match before {
                Some(b) => b.file,
                None => usize::MAX,
            },
        },
        function: match o.function {
            Some(f) => f,
            None => match before {
                Some(b) => b.function,
                None => usize::MAX,
            },
        },
    }
}

/// The extension table of a configuration file, keys normalized; of two
/// entries with the same normalized key the later wins.
pub open spec fn normalized_languages(file: Seq<(Seq<char>, Seq<char>)>) -> Seq<(Seq<char>, Seq<char>)>
    decreases file.len(),
{
    if file.len() == 0 {
        seq![]
    } else {
        normalized_languages(file.drop_last()).push(
            (normalized_extension(file.last().0), file.last().1),
        )
    }
}

pub open spec fn languages_view(p: Seq<(String, String)>) -> Seq<(Seq<char>, Seq<char>)> {
    Seq::new(p.len(), |i: int| (p[i].0@, p[i].1@))
}

impl Config {
    /// The configuration's tables are well formed: one entry per language and
    /// per extension, no skip entry twice.
    pub open spec fn wf(&self) -> bool {
        &&& keys_unique(pairs_view(self.limits@))
        &&& keys_unique(pairs_view(self.extra_languages@))
        &&& no_duplicates(strings_view(self.skip_dirs@))
        &&& no_duplicates(strings_view(self.skip_suffixes@))
    }

    /// The limits configured for `lang`.
    pub open spec fn limit_of(&self, lang: Seq<char>) -> Option<LangLimits> {
        lookup(pairs_view(self.limits@), lang)
    }

    /// The language configured for an extension key (with leading dot).
    pub open spec fn extra_language_of(&self, ext: Seq<char>) -> Option<Seq<char>> {
        match lookup(pairs_view(self.extra_languages@), ext) {
            Some(s) => Some(s@),
            None => None,
        }
    }

    /// The limits configured for `lang`, where there are any.
    pub fn limit_for(&self, lang: &str) -> (r: Option<LangLimits>)
        requires
            self.wf(),
        ensures
            r == self.limit_of(lang@),
    {
        find_value(&self.limits, &text(lang))
    }
}

/// Builds the configuration from a configuration file, merging it with the
/// built-in defaults.
///
/// - Language limits are overridden per entry and per field: a limit the
///   file gives replaces the built-in one, a limit it leaves out is kept, and
///   languages it does not name keep their built-in limits.
/// - `skip_dirs` / `skip_suffixes` replace the defaults when present.
/// - `respect_ignore_files` / `ignore_files` are empty by default.
/// - Extension keys are normalized to lowercase with a leading dot.
pub fn config_from_file(file: FileConfig) -> (r: Config)
    ensures
        r.wf(),
        forall|lang: Seq<char>| #[trigger] r.limit_of(lang) == merged_limit(pairs_view(file.limits@), lang),
        forall|ext: Seq<char>| #[trigger] lookup(pairs_view(r.extra_languages@), ext) is Some
            <==> lookup(normalized_languages(languages_view(file.languages@)), ext) is Some,
        forall|ext: Seq<char>| #[trigger] r.extra_language_of(ext) == lookup(
            normalized_languages(languages_view(file.languages@)),
            ext,
        ),
        strings_view(r.skip_dirs@) == first_occurrences(
            match file.scan.skip_dirs {
                Some(v) => strings_view(v@),
                None => default_skip_dir_names(),
            },
        ),
        strings_view(r.skip_suffixes@) == first_occurrences(
            match file.scan.skip_suffixes {
                Some(v) => strings_view(v@),
                None => default_skip_suffix_names(),
            },
        ),
        r.respect_gitignore == match file.scan.respect_gitignore {
            Some(b) => b,
            None => false,
        },
        strings_view(r.respect_ignore_files@) == match file.scan.respect_ignore_files {
            Some(v) => strings_view(v@),
            None => Seq::<Seq<char>>::empty(),
        },
        strings_view(r.ignore_files@) == match file.scan.ignore_files {
            Some(v) => strings_view(v@),
            None => Seq::<Seq<char>>::empty(),
        },
        r.default_output_file@ == match file.scan.default_output_file {
            Some(s) => s@,
            None => "codesize.csv"@,
        },
{
    let FileConfig { limits: file_limits, scan, languages } = file;

    let mut limits = default_limits();
    let mut i: usize = 0;
    while i < file_limits.len()
        invariant
            i <= file_limits.len(),
            keys_unique(pairs_view(limits@)),
            forall|lang: Seq<char>| #[trigger] lookup(pairs_view(limits@), lang) == merged_limit(
                pairs_view(file_limits@).take(i as int),
                lang,
            ),
        decreases file_limits.len() - i,
    {
        let ghost before = limits@;
        let lang = file_limits[i].0.clone();
        let current = find_value(&limits, &lang);
        let lim = apply_override(current, file_limits[i].1);
        upsert(&mut limits, lang, lim);
        assert forall|lang: Seq<char>| #[trigger] lookup(pairs_view(limits@), lang) == merged_limit(
            pairs_view(file_limits@).take(i + 1),
            lang,
        ) by {
            let t = pairs_view(file_limits@).take(i + 1);
            assert(t.drop_last() =~= pairs_view(file_limits@).take(i as int));
            assert(t.last() == (file_limits@[i as int].0@, file_limits@[i as int].1));
            assert(lookup(pairs_view(before), lang) == merged_limit(
                pairs_view(file_limits@).take(i as int),
                lang,
            ));
        }
        i += 1;
    }
    assert(pairs_view(file_limits@).take(file_limits.len() as int) =~= pairs_view(file_limits@));

    let ghost lv = languages_view(languages@);
    let mut extra: Vec<(String, String)> = Vec::new();
    let mut j: usize = 0;
    while j < languages.len()
        invariant
            j <= languages.len(),
            lv == languages_view(languages@),
            keys_unique(pairs_view(extra@)),
            forall|ext: Seq<char>| #[trigger] lookup(pairs_view(extra@), ext) is Some <==> lookup(
                normalized_languages(lv.take(j as int)),
                ext,
            ) is Some,
            forall|ext: Seq<char>| #[trigger] lookup(pairs_view(extra@), ext) matches Some(s)
                ==> lookup(normalized_languages(lv.take(j as int)), ext) == Some(s@),
        decreases languages.len() - j,
    {
        let ghost before = extra@;
        let key = normalize_extension(languages[j].0.as_str());
        let lang = languages[j].1.clone();
        upsert(&mut extra, key, lang);
        assert(lv.take(j + 1).drop_last() =~= lv.take(j as int));
        assert(lv.take(j + 1).last() == (languages@[j as int].0@, languages@[j as int].1@));
        let ghost nl = normalized_languages(lv.take(j as int));
        let ghost entry = (normalized_extension(languages@[j as int].0@), languages@[j as int].1@);
        assert(normalized_languages(lv.take(j + 1)) == nl.push(entry));
        assert(nl.push(entry).drop_last() =~= nl);
        assert(nl.push(entry).last() == entry);
        assert forall|ext: Seq<char>| #[trigger] lookup(pairs_view(extra@), ext) is Some <==> lookup(
            normalized_languages(lv.take(j + 1)),
            ext,
        ) is Some by {
            assert(lookup(pairs_view(before), ext) is Some <==> lookup(
                normalized_languages(lv.take(j as int)),
                ext,
            ) is Some);
        }
        assert forall|ext: Seq<char>| #[trigger] lookup(pairs_view(extra@), ext) matches Some(s)
            ==> lookup(normalized_languages(lv.take(j + 1)), ext) == Some(s@) by {
            match lookup(pairs_view(before), ext) {
                Some(s) => {
                    assert(lookup(normalized_languages(lv.take(j as int)), ext) == Some(s@));
                },
                None => {},
            }
        }
        j += 1;
    }
    assert(lv.take(languages.len() as int) =~= lv);

    let skip_dirs = match scan.skip_dirs {
        Some(v) => dedup_strings(v),
        None => dedup_strings(default_skip_dirs()),
    };
    let skip_suffixes = match scan.skip_suffixes {
        Some(v) => dedup_strings(v),
        None => dedup_strings(default_skip_suffixes()),
    };
    let respect_gitignore = match scan.respect_gitignore {
        Some(b) => b,
        None => false,
    };
    let respect_ignore_files = match scan.respect_ignore_files {
        Some(v) => v,
        None => Vec::new(),
    };
    let ignore_files = match scan.ignore_files {
        Some(v) => v,
        None => Vec::new(),
    };
    let default_output_file = match scan.default_output_file {
        Some(s) => s,
        None => text("codesize.csv"),
    };
    assert(strings_view(Seq::<String>::empty()) =~= Seq::<Seq<char>>::empty());
    let r = Config {
        limits,
        extra_languages: extra,
        skip_dirs,
        skip_suffixes,
        respect_gitignore,
        respect_ignore_files,
        ignore_files,
        default_output_file,
    };
    assert forall|ext: Seq<char>| #[trigger] r.extra_language_of(ext) == lookup(
        normalized_languages(lv),
        ext,
    ) by {
        if lookup(pairs_view(r.extra_languages@), ext) is None {
        }
    }
    r
}

/// The configuration that applies where no configuration file is found.
pub fn default_config() -> (r: Config)
    ensures
        r.wf(),
        forall|lang: Seq<char>| #[trigger] r.limit_of(lang) == lookup(default_limit_table(), lang),
        strings_view(r.skip_dirs@) == default_skip_dir_names(),
        strings_view(r.skip_suffixes@) == default_skip_suffix_names(),
        !r.respect_gitignore,
        r.respect_ignore_files@.len() == 0,
        r.ignore_files@.len() == 0,
        r.default_output_file@ == "codesize.csv"@,
        forall|ext: Seq<char>| #[trigger] r.extra_language_of(ext) is None,
{
    let r = config_from_file(FileConfig::empty());
    proof {
        assert(pairs_view(Seq::<(String, LimitOverride)>::empty()) =~= Seq::empty());
        lemma_default_names_distinct();
        assert(languages_view(Seq::<(String, String)>::empty()) =~= Seq::empty());
        lemma_first_occurrences_distinct(default_skip_dir_names());
        lemma_first_occurrences_distinct(default_skip_suffix_names());
        assert(strings_view(r.respect_ignore_files@).len() == r.respect_ignore_files@.len());
        assert(strings_view(r.ignore_files@).len() == r.ignore_files@.len());
    }
    r
}

} // verus!
