//! Choosing the files to measure, measuring them against the limits, and
//! ordering the findings for the report.

use vstd::prelude::*;

use crate::config::Config;
use crate::parser::{span_view, spans_view, FunctionSpan, Functions};
use crate::table::{lookup, pairs_view};
use crate::text::{
    chars_of, contains_text, ends_with_chars, has_suffix, lowercase_text, lowercased, string_of,
    strings_view, text,
};

verus! {

/// One limit that a file or a function exceeds.
#[derive(Clone, Debug)]
pub struct Finding {
    pub language: String,
    /// `file` or `function`.
    pub exception: String,
    /// The function's name; empty for a file.
    pub function: String,
    /// The file's path relative to the scanned root.
    pub codefile: String,
    /// The measured line count.
    pub lines: usize,
    /// The effective limit (after tolerance).
    pub limit: usize,
}

/// A finding as plain values.
pub struct FindingView {
    pub language: Seq<char>,
    pub exception: Seq<char>,
    pub function: Seq<char>,
    pub codefile: Seq<char>,
    pub lines: nat,
    pub limit: nat,
}

impl View for Finding {
    type V = FindingView;

    open spec fn view(&self) -> FindingView {
        FindingView {
            language: self.language@,
            exception: self.exception@,
            function: self.function@,
            codefile: self.codefile@,
            lines: self.lines as nat,
            limit: self.limit as nat,
        }
    }
}

pub open spec fn findings_view(v: Seq<Finding>) -> Seq<FindingView> {
    Seq::new(v.len(), |i: int| v[i]@)
}

// ---------------------------------------------------------------- extensions

/// The language of a built-in file extension (with its leading dot).
pub open spec fn builtin_language(ext: Seq<char>) -> Option<Seq<char>> {
    if ext == ".rs"@ {
        Some("Rust"@)
    } else if ext == ".ts"@ || ext == ".tsx"@ {
        Some("TypeScript"@)
    } else if ext == ".js"@ || ext == ".jsx"@ {
        Some("JavaScript"@)
    } else if ext == ".py"@ {
        Some("Python"@)
    } else if ext == ".go"@ {
        Some("Go"@)
    } else if ext == ".java"@ {
        Some("Java"@)
    } else if ext == ".c"@ || ext == ".h"@ {
        Some("C"@)
    } else if ext == ".cpp"@ || ext == ".cc"@ || ext == ".cxx"@ || ext == ".hpp"@ || ext == ".hh"@
        || ext == ".hxx"@ || ext == ".ipp"@ {
        Some("C++"@)
    } else if ext == ".swift"@ {
        Some("Swift"@)
    } else if ext == ".lua"@ {
        Some("Lua"@)
    } else if ext == ".m"@ || ext == ".mm"@ {
        Some("ObjC"@)
    } else if ext == ".zig"@ {
        Some("Zig"@)
    } else {
        None
    }
}

/// The language of a built-in file extension (with its leading dot).
pub fn builtin_ext_to_lang(ext: &str) -> (r: Option<&'static str>)
    ensures
        match r {
            Some(l) => builtin_language(ext@) == Some(l@),
            None => builtin_language(ext@) is None,
        },
{
    let e = text(ext);
    if e == text(".rs") {
        Some("Rust")
    } else if e == text(".ts") || e == text(".tsx") {
        Some("TypeScript")
    } else if e == text(".js") || e == text(".jsx") {
        Some("JavaScript")
    } else if e == text(".py") {
        Some("Python")
    } else if e == text(".go") {
        Some("Go")
    } else if e == text(".java") {
        Some("Java")
    } else if e == text(".c") || e == text(".h") {
        Some("C")
    } else if e == text(".cpp") || e == text(".cc") || e == text(".cxx") || e == text(".hpp")
        || e == text(".hh") || e == text(".hxx") || e == text(".ipp") {
        Some("C++")
    } else if e == text(".swift") {
        Some("Swift")
    } else if e == text(".lua") {
        Some("Lua")
    } else if e == text(".m") || e == text(".mm") {
        Some("ObjC")
    } else if e == text(".zig") {
        Some("Zig")
    } else {
        None
    }
}

/// Every extension of the built-in table, with its leading dot, gives its
/// language, and no other extension gives one.
pub proof fn law_builtin_extension_table(ext: Seq<char>)
    ensures
        builtin_language(ext) is Some <==> (ext == ".rs"@ || ext == ".ts"@ || ext == ".tsx"@ || ext == ".js"@ || ext == ".jsx"@ || ext == ".py"@ || ext == ".go"@ || ext == ".java"@ || ext == ".c"@ || ext == ".h"@ || ext == ".cpp"@ || ext == ".cc"@ || ext == ".cxx"@ || ext == ".hpp"@ || ext == ".hh"@ || ext == ".hxx"@ || ext == ".ipp"@ || ext == ".swift"@ || ext == ".lua"@ || ext == ".m"@ || ext == ".mm"@ || ext == ".zig"@),
        ext == ".rs"@ ==> builtin_language(ext) == Some("Rust"@),
        ext == ".ts"@ ==> builtin_language(ext) == Some("TypeScript"@),
        ext == ".tsx"@ ==> builtin_language(ext) == Some("TypeScript"@),
        ext == ".js"@ ==> builtin_language(ext) == Some("JavaScript"@),
        ext == ".jsx"@ ==> builtin_language(ext) == Some("JavaScript"@),
        ext == ".py"@ ==> builtin_language(ext) == Some("Python"@),
        ext == ".go"@ ==> builtin_language(ext) == Some("Go"@),
        ext == ".java"@ ==> builtin_language(ext) == Some("Java"@),
        ext == ".c"@ ==> builtin_language(ext) == Some("C"@),
        ext == ".h"@ ==> builtin_language(ext) == Some("C"@),
        ext == ".cpp"@ ==> builtin_language(ext) == Some("C++"@),
        ext == ".cc"@ ==> builtin_language(ext) == Some("C++"@),
        ext == ".cxx"@ ==> builtin_language(ext) == Some("C++"@),
        ext == ".hpp"@ ==> builtin_language(ext) == Some("C++"@),
        ext == ".hh"@ ==> builtin_language(ext) == Some("C++"@),
        ext == ".hxx"@ ==> builtin_language(ext) == Some("C++"@),
        ext == ".ipp"@ ==> builtin_language(ext) == Some("C++"@),
        ext == ".swift"@ ==> builtin_language(ext) == Some("Swift"@),
        ext == ".lua"@ ==> builtin_language(ext) == Some("Lua"@),
        ext == ".m"@ ==> builtin_language(ext) == Some("ObjC"@),
        ext == ".mm"@ ==> builtin_language(ext) == Some("ObjC"@),
        ext == ".zig"@ ==> builtin_language(ext) == Some("Zig"@),
{
    reveal_strlit(".rs");
    reveal_strlit(".ts");
    reveal_strlit(".tsx");
    reveal_strlit(".js");
    reveal_strlit(".jsx");
    reveal_strlit(".py");
    reveal_strlit(".go");
    reveal_strlit(".java");
    reveal_strlit(".c");
    reveal_strlit(".h");
    reveal_strlit(".cpp");
    reveal_strlit(".cc");
    reveal_strlit(".cxx");
    reveal_strlit(".hpp");
    reveal_strlit(".hh");
    reveal_strlit(".hxx");
    reveal_strlit(".ipp");
    reveal_strlit(".swift");
    reveal_strlit(".lua");
    reveal_strlit(".m");
    reveal_strlit(".mm");
    reveal_strlit(".zig");
    if ext == ".ts"@ {
        assert(".ts"@[1] != ".rs"@[1]);
        assert(".ts"@ != ".rs"@);
    }
    if ext == ".tsx"@ {
        assert(".tsx"@.len() != ".rs"@.len());
        assert(".tsx"@.len() != ".ts"@.len());
    }
    if ext == ".js"@ {
        assert(".js"@[1] != ".rs"@[1]);
        assert(".js"@ != ".rs"@);
        assert(".js"@[1] != ".ts"@[1]);
        assert(".js"@ != ".ts"@);
        assert(".js"@.len() != ".tsx"@.len());
    }
    if ext == ".jsx"@ {
        assert(".jsx"@.len() != ".rs"@.len());
        assert(".jsx"@.len() != ".ts"@.len());
        assert(".jsx"@[1] != ".tsx"@[1]);
        assert(".jsx"@ != ".tsx"@);
        assert(".jsx"@.len() != ".js"@.len());
    }
    if ext == ".py"@ {
        assert(".py"@[1] != ".rs"@[1]);
        assert(".py"@ != ".rs"@);
        assert(".py"@[1] != ".ts"@[1]);
        assert(".py"@ != ".ts"@);
        assert(".py"@.len() != ".tsx"@.len());
        assert(".py"@[1] != ".js"@[1]);
        assert(".py"@ != ".js"@);
        assert(".py"@.len() != ".jsx"@.len());
    }
    if ext == ".go"@ {
        assert(".go"@[1] != ".rs"@[1]);
        assert(".go"@ != ".rs"@);
        assert(".go"@[1] != ".ts"@[1]);
        assert(".go"@ != ".ts"@);
        assert(".go"@.len() != ".tsx"@.len());
        assert(".go"@[1] != ".js"@[1]);
        assert(".go"@ != ".js"@);
        assert(".go"@.len() != ".jsx"@.len());
        assert(".go"@[1] != ".py"@[1]);
        assert(".go"@ != ".py"@);
    }
    if ext == ".java"@ {
        assert(".java"@.len() != ".rs"@.len());
        assert(".java"@.len() != ".ts"@.len());
        assert(".java"@.len() != ".tsx"@.len());
        assert(".java"@.len() != ".js"@.len());
        assert(".java"@.len() != ".jsx"@.len());
        assert(".java"@.len() != ".py"@.len());
        assert(".java"@.len() != ".go"@.len());
    }
    if ext == ".c"@ {
        assert(".c"@.len() != ".rs"@.len());
        assert(".c"@.len() != ".ts"@.len());
        assert(".c"@.len() != ".tsx"@.len());
        assert(".c"@.len() != ".js"@.len());
        assert(".c"@.len() != ".jsx"@.len());
        assert(".c"@.len() != ".py"@.len());
        assert(".c"@.len() != ".go"@.len());
        assert(".c"@.len() != ".java"@.len());
    }
    if ext == ".h"@ {
        assert(".h"@.len() != ".rs"@.len());
        assert(".h"@.len() != ".ts"@.len());
        assert(".h"@.len() != ".tsx"@.len());
        assert(".h"@.len() != ".js"@.len());
        assert(".h"@.len() != ".jsx"@.len());
        assert(".h"@.len() != ".py"@.len());
        assert(".h"@.len() != ".go"@.len());
        assert(".h"@.len() != ".java"@.len());
        assert(".h"@[1] != ".c"@[1]);
        assert(".h"@ != ".c"@);
    }
    if ext == ".cpp"@ {
        assert(".cpp"@.len() != ".rs"@.len());
        assert(".cpp"@.len() != ".ts"@.len());
        assert(".cpp"@[1] != ".tsx"@[1]);
        assert(".cpp"@ != ".tsx"@);
        assert(".cpp"@.len() != ".js"@.len());
        assert(".cpp"@[1] != ".jsx"@[1]);
        assert(".cpp"@ != ".jsx"@);
        assert(".cpp"@.len() != ".py"@.len());
        assert(".cpp"@.len() != ".go"@.len());
        assert(".cpp"@.len() != ".java"@.len());
        assert(".cpp"@.len() != ".c"@.len());
        assert(".cpp"@.len() != ".h"@.len());
    }
    if ext == ".cc"@ {
        assert(".cc"@[1] != ".rs"@[1]);
        assert(".cc"@ != ".rs"@);
        assert(".cc"@[1] != ".ts"@[1]);
        assert(".cc"@ != ".ts"@);
        assert(".cc"@.len() != ".tsx"@.len());
        assert(".cc"@[1] != ".js"@[1]);
        assert(".cc"@ != ".js"@);
        assert(".cc"@.len() != ".jsx"@.len());
        assert(".cc"@[1] != ".py"@[1]);
        assert(".cc"@ != ".py"@);
        assert(".cc"@[1] != ".go"@[1]);
        assert(".cc"@ != ".go"@);
        assert(".cc"@.len() != ".java"@.len());
        assert(".cc"@.len() != ".c"@.len());
        assert(".cc"@.len() != ".h"@.len());
        assert(".cc"@.len() != ".cpp"@.len());
    }
    if ext == ".cxx"@ {
        assert(".cxx"@.len() != ".rs"@.len());
        assert(".cxx"@.len() != ".ts"@.len());
        assert(".cxx"@[1] != ".tsx"@[1]);
        assert(".cxx"@ != ".tsx"@);
        assert(".cxx"@.len() != ".js"@.len());
        assert(".cxx"@[1] != ".jsx"@[1]);
        assert(".cxx"@ != ".jsx"@);
        assert(".cxx"@.len() != ".py"@.len());
        assert(".cxx"@.len() != ".go"@.len());
        assert(".cxx"@.len() != ".java"@.len());
        assert(".cxx"@.len() != ".c"@.len());
        assert(".cxx"@.len() != ".h"@.len());
        assert(".cxx"@[2] != ".cpp"@[2]);
        assert(".cxx"@ != ".cpp"@);
        assert(".cxx"@.len() != ".cc"@.len());
    }
    if ext == ".hpp"@ {
        assert(".hpp"@.len() != ".rs"@.len());
        assert(".hpp"@.len() != ".ts"@.len());
        assert(".hpp"@[1] != ".tsx"@[1]);
        assert(".hpp"@ != ".tsx"@);
        assert(".hpp"@.len() != ".js"@.len());
        assert(".hpp"@[1] != ".jsx"@[1]);
        assert(".hpp"@ != ".jsx"@);
        assert(".hpp"@.len() != ".py"@.len());
        assert(".hpp"@.len() != ".go"@.len());
        assert(".hpp"@.len() != ".java"@.len());
        assert(".hpp"@.len() != ".c"@.len());
        assert(".hpp"@.len() != ".h"@.len());
        assert(".hpp"@[1] != ".cpp"@[1]);
        assert(".hpp"@ != ".cpp"@);
        assert(".hpp"@.len() != ".cc"@.len());
        assert(".hpp"@[1] != ".cxx"@[1]);
        assert(".hpp"@ != ".cxx"@);
    }
    if ext == ".hh"@ {
        assert(".hh"@[1] != ".rs"@[1]);
        assert(".hh"@ != ".rs"@);
        assert(".hh"@[1] != ".ts"@[1]);
        assert(".hh"@ != ".ts"@);
        assert(".hh"@.len() != ".tsx"@.len());
        assert(".hh"@[1] != ".js"@[1]);
        assert(".hh"@ != ".js"@);
        assert(".hh"@.len() != ".jsx"@.len());
        assert(".hh"@[1] != ".py"@[1]);
        assert(".hh"@ != ".py"@);
        assert(".hh"@[1] != ".go"@[1]);
        assert(".hh"@ != ".go"@);
        assert(".hh"@.len() != ".java"@.len());
        assert(".hh"@.len() != ".c"@.len());
        assert(".hh"@.len() != ".h"@.len());
        assert(".hh"@.len() != ".cpp"@.len());
        assert(".hh"@[1] != ".cc"@[1]);
        assert(".hh"@ != ".cc"@);
        assert(".hh"@.len() != ".cxx"@.len());
        assert(".hh"@.len() != ".hpp"@.len());
    }
    if ext == ".hxx"@ {
        assert(".hxx"@.len() != ".rs"@.len());
        assert(".hxx"@.len() != ".ts"@.len());
        assert(".hxx"@[1] != ".tsx"@[1]);
        assert(".hxx"@ != ".tsx"@);
        assert(".hxx"@.len() != ".js"@.len());
        assert(".hxx"@[1] != ".jsx"@[1]);
        assert(".hxx"@ != ".jsx"@);
        assert(".hxx"@.len() != ".py"@.len());
        assert(".hxx"@.len() != ".go"@.len());
        assert(".hxx"@.len() != ".java"@.len());
        assert(".hxx"@.len() != ".c"@.len());
        assert(".hxx"@.len() != ".h"@.len());
        assert(".hxx"@[1] != ".cpp"@[1]);
        assert(".hxx"@ != ".cpp"@);
        assert(".hxx"@.len() != ".cc"@.len());
        assert(".hxx"@[1] != ".cxx"@[1]);
        assert(".hxx"@ != ".cxx"@);
        assert(".hxx"@[2] != ".hpp"@[2]);
        assert(".hxx"@ != ".hpp"@);
        assert(".hxx"@.len() != ".hh"@.len());
    }
    if ext == ".ipp"@ {
        assert(".ipp"@.len() != ".rs"@.len());
        assert(".ipp"@.len() != ".ts"@.len());
        assert(".ipp"@[1] != ".tsx"@[1]);
        assert(".ipp"@ != ".tsx"@);
        assert(".ipp"@.len() != ".js"@.len());
        assert(".ipp"@[1] != ".jsx"@[1]);
        assert(".ipp"@ != ".jsx"@);
        assert(".ipp"@.len() != ".py"@.len());
        assert(".ipp"@.len() != ".go"@.len());
        assert(".ipp"@.len() != ".java"@.len());
        assert(".ipp"@.len() != ".c"@.len());
        assert(".ipp"@.len() != ".h"@.len());
        assert(".ipp"@[1] != ".cpp"@[1]);
        assert(".ipp"@ != ".cpp"@);
        assert(".ipp"@.len() != ".cc"@.len());
        assert(".ipp"@[1] != ".cxx"@[1]);
        assert(".ipp"@ != ".cxx"@);
        assert(".ipp"@[1] != ".hpp"@[1]);
        assert(".ipp"@ != ".hpp"@);
        assert(".ipp"@.len() != ".hh"@.len());
        assert(".ipp"@[1] != ".hxx"@[1]);
        assert(".ipp"@ != ".hxx"@);
    }
    if ext == ".swift"@ {
        assert(".swift"@.len() != ".rs"@.len());
        assert(".swift"@.len() != ".ts"@.len());
        assert(".swift"@.len() != ".tsx"@.len());
        assert(".swift"@.len() != ".js"@.len());
        assert(".swift"@.len() != ".jsx"@.len());
        assert(".swift"@.len() != ".py"@.len());
        assert(".swift"@.len() != ".go"@.len());
        assert(".swift"@.len() != ".java"@.len());
        assert(".swift"@.len() != ".c"@.len());
        assert(".swift"@.len() != ".h"@.len());
        assert(".swift"@.len() != ".cpp"@.len());
        assert(".swift"@.len() != ".cc"@.len());
        assert(".swift"@.len() != ".cxx"@.len());
        assert(".swift"@.len() != ".hpp"@.len());
        assert(".swift"@.len() != ".hh"@.len());
        assert(".swift"@.len() != ".hxx"@.len());
        assert(".swift"@.len() != ".ipp"@.len());
    }
    if ext == ".lua"@ {
        assert(".lua"@.len() != ".rs"@.len());
        assert(".lua"@.len() != ".ts"@.len());
        assert(".lua"@[1] != ".tsx"@[1]);
        assert(".lua"@ != ".tsx"@);
        assert(".lua"@.len() != ".js"@.len());
        assert(".lua"@[1] != ".jsx"@[1]);
        assert(".lua"@ != ".jsx"@);
        assert(".lua"@.len() != ".py"@.len());
        assert(".lua"@.len() != ".go"@.len());
        assert(".lua"@.len() != ".java"@.len());
        assert(".lua"@.len() != ".c"@.len());
        assert(".lua"@.len() != ".h"@.len());
        assert(".lua"@[1] != ".cpp"@[1]);
        assert(".lua"@ != ".cpp"@);
        assert(".lua"@.len() != ".cc"@.len());
        assert(".lua"@[1] != ".cxx"@[1]);
        assert(".lua"@ != ".cxx"@);
        assert(".lua"@[1] != ".hpp"@[1]);
        assert(".lua"@ != ".hpp"@);
        assert(".lua"@.len() != ".hh"@.len());
        assert(".lua"@[1] != ".hxx"@[1]);
        assert(".lua"@ != ".hxx"@);
        assert(".lua"@[1] != ".ipp"@[1]);
        assert(".lua"@ != ".ipp"@);
        assert(".lua"@.len() != ".swift"@.len());
    }
    if ext == ".m"@ {
        assert(".m"@.len() != ".rs"@.len());
        assert(".m"@.len() != ".ts"@.len());
        assert(".m"@.len() != ".tsx"@.len());
        assert(".m"@.len() != ".js"@.len());
        assert(".m"@.len() != ".jsx"@.len());
        assert(".m"@.len() != ".py"@.len());
        assert(".m"@.len() != ".go"@.len());
        assert(".m"@.len() != ".java"@.len());
        assert(".m"@[1] != ".c"@[1]);
        assert(".m"@ != ".c"@);
        assert(".m"@[1] != ".h"@[1]);
        assert(".m"@ != ".h"@);
        assert(".m"@.len() != ".cpp"@.len());
        assert(".m"@.len() != ".cc"@.len());
        assert(".m"@.len() != ".cxx"@.len());
        assert(".m"@.len() != ".hpp"@.len());
        assert(".m"@.len() != ".hh"@.len());
        assert(".m"@.len() != ".hxx"@.len());
        assert(".m"@.len() != ".ipp"@.len());
        assert(".m"@.len() != ".swift"@.len());
        assert(".m"@.len() != ".lua"@.len());
    }
    if ext == ".mm"@ {
        assert(".mm"@[1] != ".rs"@[1]);
        assert(".mm"@ != ".rs"@);
        assert(".mm"@[1] != ".ts"@[1]);
        assert(".mm"@ != ".ts"@);
        assert(".mm"@.len() != ".tsx"@.len());
        assert(".mm"@[1] != ".js"@[1]);
        assert(".mm"@ != ".js"@);
        assert(".mm"@.len() != ".jsx"@.len());
        assert(".mm"@[1] != ".py"@[1]);
        assert(".mm"@ != ".py"@);
        assert(".mm"@[1] != ".go"@[1]);
        assert(".mm"@ != ".go"@);
        assert(".mm"@.len() != ".java"@.len());
        assert(".mm"@.len() != ".c"@.len());
        assert(".mm"@.len() != ".h"@.len());
        assert(".mm"@.len() != ".cpp"@.len());
        assert(".mm"@[1] != ".cc"@[1]);
        assert(".mm"@ != ".cc"@);
        assert(".mm"@.len() != ".cxx"@.len());
        assert(".mm"@.len() != ".hpp"@.len());
        assert(".mm"@[1] != ".hh"@[1]);
        assert(".mm"@ != ".hh"@);
        assert(".mm"@.len() != ".hxx"@.len());
        assert(".mm"@.len() != ".ipp"@.len());
        assert(".mm"@.len() != ".swift"@.len());
        assert(".mm"@.len() != ".lua"@.len());
        assert(".mm"@.len() != ".m"@.len());
    }
    if ext == ".zig"@ {
        assert(".zig"@.len() != ".rs"@.len());
        assert(".zig"@.len() != ".ts"@.len());
        assert(".zig"@[1] != ".tsx"@[1]);
        assert(".zig"@ != ".tsx"@);
        assert(".zig"@.len() != ".js"@.len());
        assert(".zig"@[1] != ".jsx"@[1]);
        assert(".zig"@ != ".jsx"@);
        assert(".zig"@.len() != ".py"@.len());
        assert(".zig"@.len() != ".go"@.len());
        assert(".zig"@.len() != ".java"@.len());
        assert(".zig"@.len() != ".c"@.len());
        assert(".zig"@.len() != ".h"@.len());
        assert(".zig"@[1] != ".cpp"@[1]);
        assert(".zig"@ != ".cpp"@);
        assert(".zig"@.len() != ".cc"@.len());
        assert(".zig"@[1] != ".cxx"@[1]);
        assert(".zig"@ != ".cxx"@);
        assert(".zig"@[1] != ".hpp"@[1]);
        assert(".zig"@ != ".hpp"@);
        assert(".zig"@.len() != ".hh"@.len());
        assert(".zig"@[1] != ".hxx"@[1]);
        assert(".zig"@ != ".hxx"@);
        assert(".zig"@[1] != ".ipp"@[1]);
        assert(".zig"@ != ".ipp"@);
        assert(".zig"@.len() != ".swift"@.len());
        assert(".zig"@[1] != ".lua"@[1]);
        assert(".zig"@ != ".lua"@);
        assert(".zig"@.len() != ".m"@.len());
        assert(".zig"@.len() != ".mm"@.len());
    }
}

// ---------------------------------------------------------------- paths

/// The pieces of `p` between `'/'` separators (as `str::split('/')`).
pub open spec fn split_slash(p: Seq<char>) -> Seq<Seq<char>>
    decreases p.len(),
{
    if p.len() == 0 {
        seq![seq![]]
    } else {
        let s = split_slash(p.drop_last());
        if p.last() == '/' {
            s.push(seq![])
        } else {
            s.update(s.len() - 1, s.last().push(p.last()))
        }
    }
}

proof fn lemma_split_slash_len(p: Seq<char>)
    ensures
        split_slash(p).len() >= 1,
    decreases p.len(),
{
    if p.len() > 0 {
        lemma_split_slash_len(p.drop_last());
    }
}

/// The segment `s` at position `k` names a path component: it is not empty,
/// and a `.` counts only at the very start.
pub open spec fn kept_segment(s: Seq<char>, k: int) -> bool {
    s.len() > 0 && (s != "."@ || k == 0)
}

/// The components named by the first `n` segments.
pub open spec fn kept_segments(segs: Seq<Seq<char>>, n: int) -> Seq<Seq<char>>
    decreases n,
{
    if n <= 0 {
        seq![]
    } else {
        let before = kept_segments(segs, n - 1);
        if kept_segment(segs[n - 1], n - 1) {
            before.push(segs[n - 1])
        } else {
            before
        }
    }
}

/// The components of a `'/'`-separated path, as `Path::components` gives
/// them on Unix: a leading `/` for an absolute path, empty segments and
/// inner `.` segments dropped.
pub open spec fn path_components(p: Seq<char>) -> Seq<Seq<char>> {
    let segs = split_slash(p);
    (if p.len() > 0 && p[0] == '/' {
        seq!["/"@]
    } else {
        seq![]
    }) + kept_segments(segs, segs.len() as int)
}

/// The final component of a path, unless it is the root, `.` or `..`
/// (`Path::file_name`).
pub open spec fn file_name(p: Seq<char>) -> Option<Seq<char>> {
    let cs = path_components(p);
    if cs.len() == 0 || cs.last() == "."@ || cs.last() == ".."@ || cs.last() == "/"@ {
        None
    } else {
        Some(cs.last())
    }
}

/// The position of the last `.` among the first `n` characters of `s`, or -1.
pub open spec fn last_dot(s: Seq<char>, n: int) -> int
    decreases n,
{
    if n <= 0 {
        -1
    } else if s[n - 1] == '.' {
        n - 1
    } else {
        last_dot(s, n - 1)
    }
}

/// The extension of a file name: what follows its last `.`, where something
/// precedes that dot (`Path::extension`).
pub open spec fn extension(name: Seq<char>) -> Option<Seq<char>> {
    let k = last_dot(name, name.len() as int);
    if name == ".."@ || k <= 0 {
        None
    } else {
        Some(name.subrange(k + 1, name.len() as int))
    }
}

proof fn lemma_last_dot_range(s: Seq<char>, n: int)
    requires
        0 <= n <= s.len(),
    ensures
        -1 <= last_dot(s, n) < n,
        last_dot(s, n) >= 0 ==> s[last_dot(s, n)] == '.',
    decreases n,
{
    if n > 0 {
        lemma_last_dot_range(s, n - 1);
    }
}

fn is_dot_segment(seg: &Vec<char>) -> (r: bool)
    ensures
        r == (seg@ == "."@),
{
    proof {
        reveal_strlit(".");
    }
    if seg.len() == 1 && seg[0] == '.' {
        assert(seg@ =~= "."@);
        true
    } else {
        false
    }
}

/// The components of the path `p` (see [`path_components`]).
pub fn components_of(p: &Vec<char>) -> (r: Vec<Vec<char>>)
    ensures
        r@.len() == path_components(p@).len(),
        forall|i: int| 0 <= i < r@.len() ==> #[trigger] r@[i]@ == path_components(p@)[i],
{
    let mut out: Vec<Vec<char>> = Vec::new();
    let absolute = p.len() > 0 && p[0] == '/';
    let ghost lead: Seq<Seq<char>> = if absolute {
        seq!["/"@]
    } else {
        seq![]
    };
    if absolute {
        out.push(chars_of("/"));
    }
    let mut cur: Vec<char> = Vec::new();
    let mut k: usize = 0;
    let mut i: usize = 0;
    proof {
        lemma_split_slash_len(p@.take(0));
        assert(p@.take(0) =~= Seq::<char>::empty());
    }
    while i < p.len()
        invariant
            i <= p.len(),
            k < split_slash(p@.take(i as int)).len(),
            k == split_slash(p@.take(i as int)).len() - 1,
            k <= i,
            cur@ == split_slash(p@.take(i as int)).last(),
            lead == (if p@.len() > 0 && p@[0] == '/' {
                seq!["/"@]
            } else {
                Seq::<Seq<char>>::empty()
            }),
            out@.len() == lead.len() + kept_segments(split_slash(p@.take(i as int)), k as int).len(),
            forall|j: int| 0 <= j < out@.len() ==> #[trigger] out@[j]@ == (lead + kept_segments(
                split_slash(p@.take(i as int)),
                k as int,
            ))[j],
        decreases p.len() - i,
    {
        let ghost segs = split_slash(p@.take(i as int));
        let ghost old_out = out@;
        assert(p@.take(i + 1).drop_last() =~= p@.take(i as int));
        let c = p[i];
        if c == '/' {
            let seg = cur;
            cur = Vec::new();
            let keep = seg.len() > 0 && (!is_dot_segment(&seg) || k == 0);
            assert(segs[k as int] == seg@);
            if keep {
                out.push(seg);
            }
            proof {
                let nsegs = split_slash(p@.take(i + 1));
                assert(nsegs == segs.push(seq![]));
                assert(nsegs[k as int] == segs[k as int]);
                assert forall|m: int| 0 <= m <= k implies #[trigger] kept_segments(nsegs, m)
                    == kept_segments(segs, m) by {
                    lemma_kept_prefix(nsegs, segs, m);
                }
                assert(kept_segment(seg@, k as int) == keep);
                assert(kept_segments(nsegs, k + 1) == if kept_segment(nsegs[k as int], k as int) {
                    kept_segments(nsegs, k as int).push(nsegs[k as int])
                } else {
                    kept_segments(nsegs, k as int)
                });
                assert(kept_segments(nsegs, k + 1) == if keep {
                    kept_segments(segs, k as int).push(seg@)
                } else {
                    kept_segments(segs, k as int)
                });
                assert forall|j: int| 0 <= j < out@.len() implies #[trigger] out@[j]@ == (lead
                    + kept_segments(nsegs, k + 1))[j] by {
                    if j < old_out.len() {
                        assert(out@[j] == old_out[j]);
                    }
                }
            }
            k += 1;
            assert(cur@ =~= split_slash(p@.take(i + 1)).last());
        } else {
            cur.push(c);
            proof {
                let nsegs = split_slash(p@.take(i + 1));
                assert(nsegs == segs.update(k as int, segs.last().push(c)));
                assert forall|m: int| 0 <= m <= k implies #[trigger] kept_segments(nsegs, m)
                    == kept_segments(segs, m) by {
                    lemma_kept_prefix(nsegs, segs, m);
                }
                assert(cur@ =~= nsegs.last());
            }
        }
        i += 1;
    }
    assert(p@.take(p.len() as int) =~= p@);
    let ghost segs = split_slash(p@);
    let ghost old_out = out@;
    let keep = cur.len() > 0 && (!is_dot_segment(&cur) || k == 0);
    let ghost last = cur@;
    if keep {
        out.push(cur);
    }
    proof {
        assert(segs.len() == k + 1);
        assert(kept_segments(segs, k + 1) == if keep {
            kept_segments(segs, k as int).push(last)
        } else {
            kept_segments(segs, k as int)
        });
        assert forall|j: int| 0 <= j < out@.len() implies #[trigger] out@[j]@ == path_components(p@)[j] by {
            if j < old_out.len() {
                assert(out@[j] == old_out[j]);
            }
        }
    }
    out
}

proof fn lemma_kept_prefix(a: Seq<Seq<char>>, b: Seq<Seq<char>>, m: int)
    requires
        0 <= m <= a.len(),
        m <= b.len(),
        forall|j: int| 0 <= j < m ==> a[j] == b[j],
    ensures
        kept_segments(a, m) == kept_segments(b, m),
    decreases m,
{
    if m > 0 {
        lemma_kept_prefix(a, b, m - 1);
    }
}

fn is_text_chars(seg: &Vec<char>, lit: &str) -> (r: bool)
    ensures
        r == (seg@ == lit@),
{
    let l = chars_of(lit);
    if seg.len() != l.len() {
        return false;
    }
    let mut i: usize = 0;
    while i < l.len()
        invariant
            seg.len() == l.len(),
            l@ == lit@,
            i <= l.len(),
            forall|j: int| 0 <= j < i ==> seg@[j] == l@[j],
        decreases l.len() - i,
    {
        if seg[i] != l[i] {
            return false;
        }
        i += 1;
    }
    assert(seg@ =~= l@);
    true
}

/// The final component of the path `p` (see [`file_name`]).
pub fn file_name_of(p: &Vec<char>) -> (r: Option<Vec<char>>)
    ensures
        match r {
            Some(n) => file_name(p@) == Some(n@),
            None => file_name(p@) is None,
        },
{
    let mut comps = components_of(p);
    let ghost cs = path_components(p@);
    if comps.len() == 0 {
        return None;
    }
    let last = comps.pop().unwrap();
    assert(last@ == cs.last());
    if is_text_chars(&last, ".") || is_text_chars(&last, "..") || is_text_chars(&last, "/") {
        None
    } else {
        Some(last)
    }
}

/// The extension of the file name `name` (see [`extension`]).
pub fn extension_of(name: &Vec<char>) -> (r: Option<Vec<char>>)
    ensures
        match r {
            Some(e) => extension(name@) == Some(e@),
            None => extension(name@) is None,
        },
{
    let mut k: usize = name.len();
    while k > 0 && name[k - 1] != '.'
        invariant
            k <= name.len(),
            last_dot(name@, name.len() as int) == last_dot(name@, k as int),
        decreases k,
    {
        k -= 1;
    }
    proof {
        lemma_last_dot_range(name@, name.len() as int);
    }
    if is_text_chars(name, "..") || k <= 1 {
        return None;
    }
    let mut e: Vec<char> = Vec::new();
    let mut i = k;
    while i < name.len()
        invariant
            k <= i <= name.len(),
            e@ == name@.subrange(k as int, i as int),
        decreases name.len() - i,
    {
        e.push(name[i]);
        i += 1;
        assert(e@ =~= name@.subrange(k as int, i as int));
    }
    Some(e)
}

/// No directory component of the relative file path `rel` (every component
/// but the last, which names the file) is a directory name that the
/// configuration skips.
pub open spec fn allowed_dir(rel: Seq<char>, config: Config) -> bool {
    forall|i: int| 0 <= i < path_components(rel).len() - 1 ==> !strings_view(config.skip_dirs@).contains(
        #[trigger] path_components(rel)[i],
    )
}

/// Returns `true` if no directory component of `rel` is in
/// `config.skip_dirs`; the last component, the file name, is not one.
/// Hidden-directory pruning is the directory walk's business.
pub fn in_allowed_dir(rel: &str, config: &Config) -> (r: bool)
    ensures
        r == allowed_dir(rel@, *config),
{
    let comps = components_of(&chars_of(rel));
    let dirs = if comps.len() > 0 {
        comps.len() - 1
    } else {
        0
    };
    let mut i: usize = 0;
    while i < dirs
        invariant
            i <= dirs,
            dirs == if comps@.len() > 0 {
                comps@.len() - 1
            } else {
                0
            },
            comps@.len() == path_components(rel@).len(),
            forall|j: int| 0 <= j < comps@.len() ==> #[trigger] comps@[j]@ == path_components(rel@)[j],
            forall|j: int| 0 <= j < i ==> !strings_view(config.skip_dirs@).contains(
                #[trigger] path_components(rel@)[j],
            ),
        decreases dirs - i,
    {
        let name = string_of(comps[i].as_slice());
        assert(name@ == path_components(rel@)[i as int]);
        if contains_text(&config.skip_dirs, &name) {
            return false;
        }
        i += 1;
    }
    true
}

/// Some configured suffix ends the (lowercased) file name.
pub open spec fn skipped_by_suffix(name: Seq<char>, suffixes: Seq<Seq<char>>) -> bool {
    exists|i: int| 0 <= i < suffixes.len() && has_suffix(name, #[trigger] suffixes[i])
}

/// The language of an extension key: the built-in table first, then the
/// configured extensions.
pub open spec fn extension_language(key: Seq<char>, config: Config) -> Option<Seq<char>> {
    match builtin_language(key) {
        Some(l) => Some(l),
        None => config.extra_language_of(key),
    }
}

/// The language a file is measured as, or `None` where it is not measured:
/// its name (lowercased) ends with a skipped suffix, or it has no extension,
/// or its extension (lowercased, with a leading dot) has no language.
pub open spec fn classified(path: Seq<char>, config: Config) -> Option<Seq<char>> {
    match file_name(path) {
        None => None,
        Some(name) => if skipped_by_suffix(lowercased(name), strings_view(config.skip_suffixes@)) {
            None
        } else {
            match extension(name) {
                None => None,
                Some(e) => extension_language(seq!['.'] + lowercased(e), config),
            }
        },
    }
}

fn ends_with_any(name: &Vec<char>, suffixes: &Vec<String>) -> (r: bool)
    ensures
        r == skipped_by_suffix(name@, strings_view(suffixes@)),
{
    let mut i: usize = 0;
    while i < suffixes.len()
        invariant
            i <= suffixes.len(),
            forall|j: int| 0 <= j < i ==> !has_suffix(name@, #[trigger] strings_view(suffixes@)[j]),
        decreases suffixes.len() - i,
    {
        assert(strings_view(suffixes@)[i as int] == suffixes@[i as int]@);
        if ends_with_chars(name, &chars_of(suffixes[i].as_str())) {
            return true;
        }
        i += 1;
    }
    false
}

/// Applies the file-name and extension filters to `path`, yielding
/// `(path, lang)`.
///
/// Built-in extensions are checked first; the configured extra languages are
/// consulted as a fallback for unknown extensions.
pub fn classify(path: String, config: &Config) -> (r: Option<(String, String)>)
    requires
        config.wf(),
    ensures
        match r {
            Some((p, l)) => p@ == path@ && classified(path@, *config) == Some(l@),
            None => classified(path@, *config) is None,
        },
{
    let pchars = chars_of(path.as_str());
    let name = match file_name_of(&pchars) {
        Some(n) => n,
        None => return None,
    };
    let lower = chars_of(lowercase_text(string_of(name.as_slice()).as_str()).as_str());
    if ends_with_any(&lower, &config.skip_suffixes) {
        return None;
    }
    let ext = match extension_of(&name) {
        Some(e) => e,
        None => return None,
    };
    let mut key = text(".");
    key.append(lowercase_text(string_of(ext.as_slice()).as_str()).as_str());
    proof {
        reveal_strlit(".");
    }
    assert(key@ =~= seq!['.'] + lowercased(ext@));
    let lang = match builtin_ext_to_lang(key.as_str()) {
        Some(l) => text(l),
        None => match crate::table::find_value_string(&config.extra_languages, &key) {
            Some(l) => l,
            None => return None,
        },
    };
    Some((path, lang))
}

// ---------------------------------------------------------------- file selection

pub open spec fn classified_view(v: Seq<(String, String)>) -> Seq<(Seq<char>, Seq<char>)> {
    Seq::new(v.len(), |i: int| (v[i].0@, v[i].1@))
}

/// The measured files among `paths`, in order, each with its language.
pub open spec fn classify_all(paths: Seq<Seq<char>>, config: Config) -> Seq<(Seq<char>, Seq<char>)>
    decreases paths.len(),
{
    if paths.len() == 0 {
        seq![]
    } else {
        let before = classify_all(paths.drop_last(), config);
        match classified(paths.last(), config) {
            Some(l) => before.push((paths.last(), l)),
            None => before,
        }
    }
}

/// No two selected files are the same path: their components differ
/// (`Path`'s `==`), so their texts differ too.
pub open spec fn paths_unique(v: Seq<(Seq<char>, Seq<char>)>) -> bool {
    forall|i: int, j: int| 0 <= i < j < v.len() ==> path_components(#[trigger] v[i].0) != path_components(
        #[trigger] v[j].0,
    )
}

/// No two of the paths `s` have the same components.
pub open spec fn components_distinct(s: Seq<Seq<char>>) -> bool {
    forall|i: int, j: int| 0 <= i < j < s.len() ==> path_components(#[trigger] s[i]) != path_components(
        #[trigger] s[j],
    )
}

/// The paths of `s` in order, each dropped where an earlier one kept is the
/// same path, component by component (as `PathBuf`'s `==` compares them, so
/// `/r/./a.py` repeats `/r/a.py`).
pub open spec fn distinct_paths(s: Seq<Seq<char>>) -> Seq<Seq<char>>
    decreases s.len(),
{
    if s.len() == 0 {
        seq![]
    } else {
        let before = distinct_paths(s.drop_last());
        if exists|k: int| 0 <= k < before.len() && #[trigger] path_components(before[k]) == path_components(
            s.last(),
        ) {
            before
        } else {
            before.push(s.last())
        }
    }
}

proof fn lemma_distinct_paths(s: Seq<Seq<char>>)
    ensures
        components_distinct(distinct_paths(s)),
        forall|i: int| 0 <= i < distinct_paths(s).len() ==> s.contains(#[trigger] distinct_paths(s)[i]),
    decreases s.len(),
{
    if s.len() > 0 {
        let d = s.drop_last();
        lemma_distinct_paths(d);
        let before = distinct_paths(d);
        let all = distinct_paths(s);
        assert forall|i: int| 0 <= i < all.len() implies s.contains(#[trigger] all[i]) by {
            if i < before.len() {
                assert(all[i] == before[i]);
                let k = choose|k: int| 0 <= k < d.len() && d[k] == before[i];
                assert(s[k] == d[k]);
            } else {
                assert(all[i] == s[s.len() - 1]);
            }
        }
        assert forall|i: int, j: int| 0 <= i < j < all.len() implies path_components(#[trigger] all[i])
            != path_components(#[trigger] all[j]) by {
            assert(all[i] == before[i]);
            if j < before.len() {
                assert(all[j] == before[j]);
            } else {
                assert(all[j] == s.last());
            }
        }
    }
}

proof fn lemma_classify_all_paths(paths: Seq<Seq<char>>, config: Config)
    ensures
        forall|i: int| 0 <= i < classify_all(paths, config).len() ==> paths.contains(
            #[trigger] classify_all(paths, config)[i].0,
        ),
        components_distinct(paths) ==> paths_unique(classify_all(paths, config)),
    decreases paths.len(),
{
    if paths.len() > 0 {
        let d = paths.drop_last();
        lemma_classify_all_paths(d, config);
        let before = classify_all(d, config);
        let all = classify_all(paths, config);
        assert forall|i: int| 0 <= i < all.len() implies paths.contains(#[trigger] all[i].0) by {
            if i < before.len() {
                assert(all[i] == before[i]);
                let k = choose|k: int| 0 <= k < d.len() && d[k] == before[i].0;
                assert(paths[k] == d[k]);
            } else {
                assert(all[i].0 == paths[paths.len() - 1]);
            }
        }
        if components_distinct(paths) {
            assert(components_distinct(d)) by {
                assert forall|i: int, j: int| 0 <= i < j < d.len() implies path_components(#[trigger] d[i])
                    != path_components(#[trigger] d[j]) by {
                    assert(d[i] == paths[i] && d[j] == paths[j]);
                }
            }
            assert forall|i: int, j: int| 0 <= i < j < all.len() implies path_components(
                #[trigger] all[i].0,
            ) != path_components(#[trigger] all[j].0) by {
                assert(all[i] == before[i]);
                if j < before.len() {
                    assert(all[j] == before[j]);
                } else {
                    let k = choose|k: int| 0 <= k < d.len() && d[k] == before[i].0;
                    assert(paths[k] == d[k]);
                    assert(all[j].0 == paths[paths.len() - 1]);
                }
            }
        }
    }
}

/// A file met by a directory walk: its path, and its path relative to the
/// scanned root (`None` where the root is not a prefix of it).
pub open spec fn walked_view(v: Seq<(String, Option<String>)>) -> Seq<(Seq<char>, Option<Seq<char>>)> {
    Seq::new(v.len(), |i: int| (v[i].0@, crate::syntax::opt_chars(v[i].1)))
}

/// The measured files among those a directory walk met, in order: those
/// under the root, in no skipped directory, that classify.
pub open spec fn walked_selection(entries: Seq<(Seq<char>, Option<Seq<char>>)>, config: Config) -> Seq<(Seq<char>, Seq<char>)>
    decreases entries.len(),
{
    if entries.len() == 0 {
        seq![]
    } else {
        let before = walked_selection(entries.drop_last(), config);
        let (path, rel) = entries.last();
        match rel {
            Some(r) => if allowed_dir(r, config) {
                match classified(path, config) {
                    Some(l) => before.push((path, l)),
                    None => before,
                }
            } else {
                before
            },
            None => before,
        }
    }
}

/// Filters the files met by a directory walk: a file is kept where it lies
/// under the scanned root, no directory on its relative path is skipped, and
/// it classifies; each kept file comes with its language.
pub fn select_walked(entries: Vec<(String, Option<String>)>, config: &Config) -> (r: Vec<(String, String)>)
    requires
        config.wf(),
    ensures
        classified_view(r@) == walked_selection(walked_view(entries@), *config),
{
    let ghost ev = walked_view(entries@);
    let mut out: Vec<(String, String)> = Vec::new();
    let mut i: usize = 0;
    while i < entries.len()
        invariant
            i <= entries.len(),
            config.wf(),
            ev == walked_view(entries@),
            classified_view(out@) == walked_selection(ev.take(i as int), *config),
        decreases entries.len() - i,
    {
        assert(ev.take(i + 1).drop_last() =~= ev.take(i as int));
        assert(ev.take(i + 1).last() == ev[i as int]);
        let ghost before = out@;
        let keep = match &entries[i].1 {
            Some(rel) => in_allowed_dir(rel.as_str(), config),
            None => false,
        };
        if keep {
            match classify(entries[i].0.clone(), config) {
                Some(pair) => {
                    out.push(pair);
                    assert(classified_view(out@) =~= classified_view(before).push(
                        (out@.last().0@, out@.last().1@),
                    ));
                },
                None => {},
            }
        }
        i += 1;
    }
    assert(ev.take(entries.len() as int) =~= ev);
    out
}

pub open spec fn components_view(v: Seq<Vec<char>>) -> Seq<Seq<char>> {
    Seq::new(v.len(), |i: int| v[i]@)
}

fn same_chars(a: &Vec<char>, b: &Vec<char>) -> (r: bool)
    ensures
        r == (a@ == b@),
{
    if a.len() != b.len() {
        return false;
    }
    let mut i: usize = 0;
    while i < a.len()
        invariant
            a.len() == b.len(),
            i <= a.len(),
            forall|j: int| 0 <= j < i ==> a@[j] == b@[j],
        decreases a.len() - i,
    {
        if a[i] != b[i] {
            return false;
        }
        i += 1;
    }
    assert(a@ =~= b@);
    true
}

fn same_components(a: &Vec<Vec<char>>, b: &Vec<Vec<char>>) -> (r: bool)
    ensures
        r == (components_view(a@) == components_view(b@)),
{
    if a.len() != b.len() {
        assert(components_view(a@).len() != components_view(b@).len());
        return false;
    }
    let mut i: usize = 0;
    while i < a.len()
        invariant
            a.len() == b.len(),
            i <= a.len(),
            forall|j: int| 0 <= j < i ==> a@[j]@ == b@[j]@,
        decreases a.len() - i,
    {
        if !same_chars(&a[i], &b[i]) {
            assert(components_view(a@)[i as int] != components_view(b@)[i as int]);
            return false;
        }
        i += 1;
    }
    assert(components_view(a@) =~= components_view(b@));
    true
}

/// The paths in order, each dropped where an earlier one kept is the same
/// path component by component (see [`distinct_paths`]).
pub fn distinct_by_path(paths: &Vec<String>) -> (r: Vec<String>)
    ensures
        strings_view(r@) == distinct_paths(strings_view(paths@)),
{
    let ghost sv = strings_view(paths@);
    let mut out: Vec<String> = Vec::new();
    let mut seen: Vec<Vec<Vec<char>>> = Vec::new();
    let mut i: usize = 0;
    while i < paths.len()
        invariant
            i <= paths.len(),
            sv == strings_view(paths@),
            strings_view(out@) == distinct_paths(sv.take(i as int)),
            seen@.len() == out@.len(),
            forall|k: int| 0 <= k < seen@.len() ==> #[trigger] components_view(seen@[k]@)
                == path_components(out@[k]@),
        decreases paths.len() - i,
    {
        let comps = components_of(&chars_of(paths[i].as_str()));
        assert(components_view(comps@) =~= path_components(paths@[i as int]@));
        let mut found = false;
        let mut j: usize = 0;
        while j < seen.len()
            invariant
                j <= seen@.len(),
                found <==> exists|k: int| 0 <= k < j && #[trigger] components_view(seen@[k]@)
                    == components_view(comps@),
            decreases seen.len() - j,
        {
            if same_components(&seen[j], &comps) {
                found = true;
            }
            j += 1;
        }
        let ghost before = strings_view(out@);
        proof {
            let s = sv.take(i + 1);
            assert(s.drop_last() =~= sv.take(i as int));
            assert(s.last() == paths@[i as int]@);
            assert(before.len() == out@.len());
            if found {
                let k = choose|k: int| 0 <= k < seen@.len() && #[trigger] components_view(seen@[k]@)
                    == components_view(comps@);
                assert(before[k] == out@[k]@);
                assert(path_components(before[k]) == path_components(s.last()));
            } else {
                assert forall|k: int| 0 <= k < before.len() implies #[trigger] path_components(before[k])
                    != path_components(s.last()) by {
                    assert(before[k] == out@[k]@);
                    assert(components_view(seen@[k]@) == path_components(out@[k]@));
                }
            }
        }
        if !found {
            out.push(paths[i].clone());
            seen.push(comps);
            proof {
                assert(strings_view(out@) =~= before.push(paths@[i as int]@));
                assert forall|k: int| 0 <= k < seen@.len() implies #[trigger] components_view(seen@[k]@)
                    == path_components(out@[k]@) by {
                    if k < seen@.len() - 1 {
                    }
                }
            }
        }
        i += 1;
    }
    assert(sv.take(paths.len() as int) =~= sv);
    out
}

/// Filters the files that file patterns matched: a path that is the same
/// path as an earlier one, component by component, is dropped (the first
/// occurrence stays), and each path that classifies is kept with its
/// language.
pub fn select_matched(paths: Vec<String>, config: &Config) -> (r: Vec<(String, String)>)
    requires
        config.wf(),
    ensures
        classified_view(r@) == classify_all(distinct_paths(strings_view(paths@)), *config),
        paths_unique(classified_view(r@)),
{
    let unique = distinct_by_path(&paths);
    let ghost uv = strings_view(unique@);
    let mut out: Vec<(String, String)> = Vec::new();
    let mut i: usize = 0;
    while i < unique.len()
        invariant
            i <= unique.len(),
            config.wf(),
            uv == strings_view(unique@),
            classified_view(out@) == classify_all(uv.take(i as int), *config),
        decreases unique.len() - i,
    {
        assert(uv.take(i + 1).drop_last() =~= uv.take(i as int));
        assert(uv.take(i + 1).last() == unique@[i as int]@);
        let ghost before = out@;
        match classify(unique[i].clone(), config) {
            Some(pair) => {
                out.push(pair);
                assert(classified_view(out@) =~= classified_view(before).push(
                    (out@.last().0@, out@.last().1@),
                ));
            },
            None => {},
        }
        i += 1;
    }
    assert(uv.take(unique.len() as int) =~= uv);
    proof {
        lemma_distinct_paths(strings_view(paths@));
        lemma_classify_all_paths(uv, *config);
    }
    out
}

// ---------------------------------------------------------------- findings

/// A measured file: its path relative to the scanned root, its language, its
/// line count and its functions.
pub struct AnalyzedFile {
    pub codefile: String,
    pub language: String,
    pub lines: usize,
    pub functions: Functions,
}

/// A measured file as plain values.
pub struct AnalyzedView {
    pub codefile: Seq<char>,
    pub language: Seq<char>,
    pub lines: nat,
    pub functions: Seq<FunctionSpan>,
}

impl View for AnalyzedFile {
    type V = AnalyzedView;

    open spec fn view(&self) -> AnalyzedView {
        AnalyzedView {
            codefile: self.codefile@,
            language: self.language@,
            lines: self.lines as nat,
            functions: spans_view(self.functions@),
        }
    }
}

pub open spec fn analyzed_view(v: Seq<AnalyzedFile>) -> Seq<AnalyzedView> {
    Seq::new(v.len(), |i: int| v[i]@)
}

/// The limit raised by a tolerance given in billionths of a percent,
/// rounded down.
pub open spec fn effective_limit(limit: nat, tolerance_nano_pct: nat) -> nat {
    limit + limit * tolerance_nano_pct / 100_000_000_000
}

/// `lines` is more than `tolerance_nano_pct` billionths of a percent above
/// `limit`.
pub open spec fn exceeds(lines: nat, limit: nat, tolerance_nano_pct: nat) -> bool {
    lines * 100_000_000_000 > limit * (100_000_000_000 + tolerance_nano_pct)
}

/// The lines a function spans, its first and last row included.
pub open spec fn span_lines(f: FunctionSpan) -> int {
    f.2 - f.1 + 1
}

/// Every function starts no later than it ends, and its span fits in a
/// `usize`.
pub open spec fn spans_valid(fs: Seq<FunctionSpan>) -> bool {
    forall|i: int| 0 <= i < fs.len() ==> #[trigger] fs[i].1 <= fs[i].2 && fs[i].2 - fs[i].1 < usize::MAX
}

/// The finding for a file over its limit.
pub open spec fn file_finding(f: AnalyzedView, limit: nat, tolerance_nano_pct: nat) -> FindingView {
    FindingView {
        language: f.language,
        exception: "file"@,
        function: seq![],
        codefile: f.codefile,
        lines: f.lines,
        limit: effective_limit(limit, tolerance_nano_pct),
    }
}

/// The finding for a function over its limit.
pub open spec fn function_finding(f: AnalyzedView, func: FunctionSpan, limit: nat, tolerance_nano_pct: nat) -> FindingView {
    FindingView {
        language: f.language,
        exception: "function"@,
        function: func.0,
        codefile: f.codefile,
        lines: span_lines(func) as nat,
        limit: effective_limit(limit, tolerance_nano_pct),
    }
}

/// The findings for the first `n` functions of a file, in order.
pub open spec fn function_findings(f: AnalyzedView, limit: nat, tolerance_nano_pct: nat, n: int) -> Seq<FindingView>
    decreases n,
{
    if n <= 0 {
        seq![]
    } else {
        let before = function_findings(f, limit, tolerance_nano_pct, n - 1);
        let func = f.functions[n - 1];
        if exceeds(span_lines(func) as nat, limit, tolerance_nano_pct) {
            before.push(function_finding(f, func, limit, tolerance_nano_pct))
        } else {
            before
        }
    }
}

/// The findings for a file: none where its language has no limits; else a
/// file finding where the file exceeds the file limit, followed by the
/// findings for its functions.
pub open spec fn file_findings(f: AnalyzedView, config: Config, tolerance_nano_pct: nat) -> Seq<FindingView> {
    match config.limit_of(f.language) {
        None => seq![],
        Some(l) => (if exceeds(f.lines, l.file as nat, tolerance_nano_pct) {
            seq![file_finding(f, l.file as nat, tolerance_nano_pct)]
        } else {
            seq![]
        }) + function_findings(f, l.function as nat, tolerance_nano_pct, f.functions.len() as int),
    }
}

/// The findings for the first `n` files, file by file.
pub open spec fn all_findings(files: Seq<AnalyzedView>, config: Config, tolerance_nano_pct: nat, n: int) -> Seq<FindingView>
    decreases n,
{
    if n <= 0 {
        seq![]
    } else {
        all_findings(files, config, tolerance_nano_pct, n - 1) + file_findings(files[n - 1], config, tolerance_nano_pct)
    }
}

/// A count over the limit by more than the tolerance is exactly a count over
/// the effective limit.
pub proof fn law_exceeds_effective_limit(lines: nat, limit: nat, tolerance_nano_pct: nat)
    ensures
        exceeds(lines, limit, tolerance_nano_pct) <==> lines > effective_limit(limit, tolerance_nano_pct),
{
    let p = limit * tolerance_nano_pct;
    let q = p / 100_000_000_000;
    let r = p % 100_000_000_000;
    assert(p == q * 100_000_000_000 + r && 0 <= r < 100_000_000_000) by (nonlinear_arith)
        requires
            p >= 0,
            q == p / 100_000_000_000,
            r == p % 100_000_000_000,
    ;
    assert(limit * (100_000_000_000 + tolerance_nano_pct) == limit * 100_000_000_000 + p) by (nonlinear_arith)
        requires
            p == limit * tolerance_nano_pct,
    ;
    if lines > limit + q {
        assert(lines * 100_000_000_000 >= (limit + q + 1) * 100_000_000_000) by (nonlinear_arith)
            requires
                lines >= limit + q + 1,
        ;
    } else {
        assert(lines * 100_000_000_000 <= (limit + q) * 100_000_000_000) by (nonlinear_arith)
            requires
                lines <= limit + q,
        ;
    }
}

/// With no tolerance the effective limit is the limit.
pub proof fn law_zero_tolerance(limit: nat)
    ensures
        effective_limit(limit, 0) == limit,
{
}

/// Raising the tolerance never lowers the effective limit.
pub proof fn law_effective_limit_monotone(limit: nat, t1: nat, t2: nat)
    requires
        t1 <= t2,
    ensures
        effective_limit(limit, t1) <= effective_limit(limit, t2),
{
    assert(limit * t1 <= limit * t2) by (nonlinear_arith)
        requires
            t1 <= t2,
    ;
    vstd::arithmetic::div_mod::lemma_div_is_ordered((limit * t1) as int, (limit * t2) as int, 100_000_000_000);
}

/// A count that exceeds a limit under some tolerance exceeds it under any
/// smaller tolerance.
pub proof fn law_exceeds_antitone(lines: nat, limit: nat, t1: nat, t2: nat)
    requires
        t1 <= t2,
        exceeds(lines, limit, t2),
    ensures
        exceeds(lines, limit, t1),
{
    assert(limit * (100_000_000_000 + t1) <= limit * (100_000_000_000 + t2)) by (nonlinear_arith)
        requires
            t1 <= t2,
    ;
}

proof fn lemma_function_findings_antitone(f: AnalyzedView, limit: nat, t1: nat, t2: nat, n: int)
    requires
        t1 <= t2,
    ensures
        function_findings(f, limit, t2, n).len() <= function_findings(f, limit, t1, n).len(),
    decreases n,
{
    if n > 0 {
        lemma_function_findings_antitone(f, limit, t1, t2, n - 1);
        let func = f.functions[n - 1];
        if exceeds(span_lines(func) as nat, limit, t2) {
            law_exceeds_antitone(span_lines(func) as nat, limit, t1, t2);
        }
    }
}

/// Raising the tolerance never adds findings.
pub proof fn law_tolerance_never_adds_findings(files: Seq<AnalyzedView>, config: Config, t1: nat, t2: nat, n: int)
    requires
        t1 <= t2,
    ensures
        all_findings(files, config, t2, n).len() <= all_findings(files, config, t1, n).len(),
    decreases n,
{
    if n > 0 {
        law_tolerance_never_adds_findings(files, config, t1, t2, n - 1);
        let f = files[n - 1];
        match config.limit_of(f.language) {
            None => {},
            Some(l) => {
                lemma_function_findings_antitone(f, l.function as nat, t1, t2, f.functions.len() as int);
                if exceeds(f.lines, l.file as nat, t2) {
                    law_exceeds_antitone(f.lines, l.file as nat, t1, t2);
                }
            },
        }
    }
}

proof fn lemma_function_findings_exceed(f: AnalyzedView, limit: nat, t: nat, n: int)
    ensures
        forall|i: int| 0 <= i < function_findings(f, limit, t, n).len() ==> #[trigger] function_findings(
            f,
            limit,
            t,
            n,
        )[i].lines > function_findings(f, limit, t, n)[i].limit,
    decreases n,
{
    if n > 0 {
        lemma_function_findings_exceed(f, limit, t, n - 1);
        let func = f.functions[n - 1];
        law_exceeds_effective_limit(span_lines(func) as nat, limit, t);
        let before = function_findings(f, limit, t, n - 1);
        let all = function_findings(f, limit, t, n);
        assert forall|i: int| 0 <= i < all.len() implies #[trigger] all[i].lines > all[i].limit by {
            if i < before.len() {
                assert(all[i] == before[i]);
            }
        }
    }
}

/// Every finding reports a line count above the limit it reports.
pub proof fn law_findings_exceed_their_limit(files: Seq<AnalyzedView>, config: Config, t: nat, n: int)
    ensures
        forall|i: int| 0 <= i < all_findings(files, config, t, n).len() ==> #[trigger] all_findings(
            files,
            config,
            t,
            n,
        )[i].lines > all_findings(files, config, t, n)[i].limit,
    decreases n,
{
    if n > 0 {
        law_findings_exceed_their_limit(files, config, t, n - 1);
        let f = files[n - 1];
        let before = all_findings(files, config, t, n - 1);
        let here = file_findings(f, config, t);
        match config.limit_of(f.language) {
            None => {},
            Some(l) => {
                lemma_function_findings_exceed(f, l.function as nat, t, f.functions.len() as int);
                law_exceeds_effective_limit(f.lines, l.file as nat, t);
            },
        }
        assert forall|i: int| 0 <= i < (before + here).len() implies #[trigger] (before + here)[i].lines
            > (before + here)[i].limit by {
            if i >= before.len() {
                let j = i - before.len();
                assert((before + here)[i] == here[j]);
                match config.limit_of(f.language) {
                    None => {},
                    Some(l) => {
                        let head: Seq<FindingView> = if exceeds(f.lines, l.file as nat, t) {
                            seq![file_finding(f, l.file as nat, t)]
                        } else {
                            seq![]
                        };
                        let tail = function_findings(f, l.function as nat, t, f.functions.len() as int);
                        assert(here == head + tail);
                        if j >= head.len() {
                            assert(here[j] == tail[j - head.len()]);
                        }
                    },
                }
            }
        }
    }
}

/// Two findings agree but for the limit they report.
pub open spec fn same_but_limit(a: FindingView, b: FindingView) -> bool {
    &&& a.language == b.language
    &&& a.exception == b.exception
    &&& a.function == b.function
    &&& a.codefile == b.codefile
    &&& a.lines == b.lines
}

/// `small` is a subsequence of `big`, up to the limits reported.
pub open spec fn embeds(small: Seq<FindingView>, big: Seq<FindingView>) -> bool
    decreases big.len(),
{
    if small.len() == 0 {
        true
    } else if big.len() == 0 {
        false
    } else if same_but_limit(small.last(), big.last()) && embeds(small.drop_last(), big.drop_last()) {
        true
    } else {
        embeds(small, big.drop_last())
    }
}

proof fn lemma_embeds_extend(a: Seq<FindingView>, b: Seq<FindingView>, d: Seq<FindingView>)
    requires
        embeds(a, b),
    ensures
        embeds(a, b + d),
    decreases d.len(),
{
    if d.len() == 0 {
        assert(b + d =~= b);
    } else {
        lemma_embeds_extend(a, b, d.drop_last());
        assert((b + d).drop_last() =~= b + d.drop_last());
    }
}

proof fn lemma_embeds_concat(a: Seq<FindingView>, b: Seq<FindingView>, c: Seq<FindingView>, d: Seq<FindingView>)
    requires
        embeds(a, b),
        embeds(c, d),
    ensures
        embeds(a + c, b + d),
    decreases d.len(),
{
    if c.len() == 0 {
        assert(a + c =~= a);
        lemma_embeds_extend(a, b, d);
    } else {
        assert((a + c).last() == c.last());
        assert((b + d).last() == d.last());
        assert((a + c).drop_last() =~= a + c.drop_last());
        assert((b + d).drop_last() =~= b + d.drop_last());
        if same_but_limit(c.last(), d.last()) && embeds(c.drop_last(), d.drop_last()) {
            lemma_embeds_concat(a, b, c.drop_last(), d.drop_last());
        } else {
            lemma_embeds_concat(a, b, c, d.drop_last());
        }
    }
}

proof fn lemma_function_findings_embed(f: AnalyzedView, limit: nat, t1: nat, t2: nat, n: int)
    requires
        t1 <= t2,
    ensures
        embeds(function_findings(f, limit, t2, n), function_findings(f, limit, t1, n)),
    decreases n,
{
    if n > 0 {
        lemma_function_findings_embed(f, limit, t1, t2, n - 1);
        let func = f.functions[n - 1];
        let small = function_findings(f, limit, t2, n - 1);
        let big = function_findings(f, limit, t1, n - 1);
        if exceeds(span_lines(func) as nat, limit, t2) {
            law_exceeds_antitone(span_lines(func) as nat, limit, t1, t2);
            let x = function_finding(f, func, limit, t2);
            let y = function_finding(f, func, limit, t1);
            assert(small.push(x).drop_last() =~= small);
            assert(big.push(y).drop_last() =~= big);
        } else if exceeds(span_lines(func) as nat, limit, t1) {
            let y = function_finding(f, func, limit, t1);
            lemma_embeds_extend(small, big, seq![y]);
            assert(big + seq![y] =~= big.push(y));
        }
    }
}

/// A larger tolerance gives a subsequence of the findings of a smaller one:
/// the same findings but for the limits they report, in the same order.
pub proof fn law_tolerance_keeps_a_subsequence(files: Seq<AnalyzedView>, config: Config, t1: nat, t2: nat, n: int)
    requires
        t1 <= t2,
    ensures
        embeds(all_findings(files, config, t2, n), all_findings(files, config, t1, n)),
    decreases n,
{
    if n > 0 {
        law_tolerance_keeps_a_subsequence(files, config, t1, t2, n - 1);
        let f = files[n - 1];
        let small = file_findings(f, config, t2);
        let big = file_findings(f, config, t1);
        match config.limit_of(f.language) {
            None => {
                assert(small =~= Seq::<FindingView>::empty());
            },
            Some(l) => {
                lemma_function_findings_embed(f, l.function as nat, t1, t2, f.functions.len() as int);
                let fs2 = function_findings(f, l.function as nat, t2, f.functions.len() as int);
                let fs1 = function_findings(f, l.function as nat, t1, f.functions.len() as int);
                let e: Seq<FindingView> = seq![];
                if exceeds(f.lines, l.file as nat, t2) {
                    law_exceeds_antitone(f.lines, l.file as nat, t1, t2);
                    let h2 = seq![file_finding(f, l.file as nat, t2)];
                    let h1 = seq![file_finding(f, l.file as nat, t1)];
                    assert(h2.drop_last() =~= e);
                    assert(h1.drop_last() =~= e);
                    assert(embeds(e, e));
                    assert(h2.last() == file_finding(f, l.file as nat, t2));
                    assert(h1.last() == file_finding(f, l.file as nat, t1));
                    assert(same_but_limit(h2.last(), h1.last()));
                    assert(embeds(h2, h1));
                    lemma_embeds_concat(h2, h1, fs2, fs1);
                } else if exceeds(f.lines, l.file as nat, t1) {
                    let h1 = seq![file_finding(f, l.file as nat, t1)];
                    lemma_embeds_concat(e, h1, fs2, fs1);
                    assert(e + fs2 =~= fs2);
                } else {
                    lemma_embeds_concat(e, e, fs2, fs1);
                    assert(e + fs2 =~= fs2);
                    assert(e + fs1 =~= fs1);
                }
            },
        }
        lemma_embeds_concat(
            all_findings(files, config, t2, n - 1),
            all_findings(files, config, t1, n - 1),
            small,
            big,
        );
    }
}

proof fn lemma_function_findings_kind(f: AnalyzedView, limit: nat, t: nat, n: int)
    ensures
        forall|i: int| 0 <= i < function_findings(f, limit, t, n).len() ==> #[trigger] function_findings(
            f,
            limit,
            t,
            n,
        )[i].exception == "function"@,
    decreases n,
{
    if n > 0 {
        lemma_function_findings_kind(f, limit, t, n - 1);
        let before = function_findings(f, limit, t, n - 1);
        let all = function_findings(f, limit, t, n);
        assert forall|i: int| 0 <= i < all.len() implies #[trigger] all[i].exception == "function"@ by {
            if i < before.len() {
                assert(all[i] == before[i]);
            }
        }
    }
}

/// Every finding is about a file or about a function; a file finding names
/// no function.
pub proof fn law_finding_kinds(files: Seq<AnalyzedView>, config: Config, t: nat, n: int)
    ensures
        forall|i: int| 0 <= i < all_findings(files, config, t, n).len() ==> {
            let x = #[trigger] all_findings(files, config, t, n)[i];
            x.exception == "function"@ || (x.exception == "file"@ && x.function.len() == 0)
        },
    decreases n,
{
    if n > 0 {
        law_finding_kinds(files, config, t, n - 1);
        let f = files[n - 1];
        let before = all_findings(files, config, t, n - 1);
        let here = file_findings(f, config, t);
        match config.limit_of(f.language) {
            None => {},
            Some(l) => {
                lemma_function_findings_kind(f, l.function as nat, t, f.functions.len() as int);
            },
        }
        assert forall|i: int| 0 <= i < (before + here).len() implies {
            let x = #[trigger] (before + here)[i];
            x.exception == "function"@ || (x.exception == "file"@ && x.function.len() == 0)
        } by {
            if i >= before.len() {
                let j = i - before.len();
                assert((before + here)[i] == here[j]);
                match config.limit_of(f.language) {
                    None => {},
                    Some(l) => {
                        let head: Seq<FindingView> = if exceeds(f.lines, l.file as nat, t) {
                            seq![file_finding(f, l.file as nat, t)]
                        } else {
                            seq![]
                        };
                        let tail = function_findings(f, l.function as nat, t, f.functions.len() as int);
                        assert(here == head + tail);
                        if j >= head.len() {
                            assert(here[j] == tail[j - head.len()]);
                        }
                    },
                }
            } else {
                assert((before + here)[i] == before[i]);
            }
        }
    }
}

/// An extension in the built-in table keeps its built-in language, whatever
/// the configuration maps it to.
pub proof fn law_builtin_extension_wins(key: Seq<char>, config: Config)
    requires
        builtin_language(key) is Some,
    ensures
        extension_language(key, config) == builtin_language(key),
{
}

/// The limit after tolerance, saturated at `usize::MAX`.
pub fn effective_limit_of(limit: usize, tolerance_nano_pct: u64) -> (r: usize)
    ensures
        r == if effective_limit(limit as nat, tolerance_nano_pct as nat) <= usize::MAX {
            effective_limit(limit as nat, tolerance_nano_pct as nat)
        } else {
            usize::MAX as nat
        },
{
    let l = limit as u128;
    let t = tolerance_nano_pct as u128;
    assert(l * t <= 0xffff_ffff_ffff_ffffu128 * 0xffff_ffff_ffff_ffffu128) by (nonlinear_arith)
        requires
            l <= 0xffff_ffff_ffff_ffffu128,
            t <= 0xffff_ffff_ffff_ffffu128,
    ;
    let p = l * t;
    let e = l + p / 100_000_000_000;
    if e > usize::MAX as u128 {
        usize::MAX
    } else {
        e as usize
    }
}

/// Measures analyzed files against the configured limits.
///
/// For each file whose language has limits: a `file` finding where its line
/// count exceeds the file limit by more than the tolerance, then a
/// `function` finding for each function, in order, whose span (first and
/// last line included) exceeds the function limit by more than the
/// tolerance. The tolerance is given in billionths of a percent; a finding
/// reports the effective limit.
pub fn collect_findings(files: &Vec<AnalyzedFile>, config: &Config, tolerance_nano_pct: u64) -> (r: Vec<Finding>)
    requires
        config.wf(),
        forall|i: int| 0 <= i < files@.len() ==> spans_valid(#[trigger] files@[i]@.functions),
    ensures
        findings_view(r@) == all_findings(analyzed_view(files@), *config, tolerance_nano_pct as nat, files@.len() as int),
{
    let ghost fv = analyzed_view(files@);
    let mut out: Vec<Finding> = Vec::new();
    let mut i: usize = 0;
    while i < files.len()
        invariant
            i <= files.len(),
            config.wf(),
            fv == analyzed_view(files@),
            forall|i: int| 0 <= i < files@.len() ==> spans_valid(#[trigger] files@[i]@.functions),
            findings_view(out@) == all_findings(fv, *config, tolerance_nano_pct as nat, i as int),
        decreases files.len() - i,
    {
        let file = &files[i];
        assert(fv[i as int] == file@);
        let ghost before = findings_view(out@);
        match config.limit_for(file.language.as_str()) {
            None => {
                assert(file_findings(fv[i as int], *config, tolerance_nano_pct as nat) =~= Seq::<FindingView>::empty());
                assert(before + Seq::<FindingView>::empty() =~= before);
            },
            Some(limits) => {
                let ghost f = file@;
                let file_limit = effective_limit_of(limits.file, tolerance_nano_pct);
                proof {
                    law_exceeds_effective_limit(file.lines as nat, limits.file as nat, tolerance_nano_pct as nat);
                }
                let ghost head: Seq<FindingView> = if exceeds(f.lines, limits.file as nat, tolerance_nano_pct as nat) {
                    seq![file_finding(f, limits.file as nat, tolerance_nano_pct as nat)]
                } else {
                    seq![]
                };
                if file.lines > file_limit {
                    let ghost prev = out@;
                    out.push(Finding {
                        language: file.language.clone(),
                        exception: text("file"),
                        function: text(""),
                        codefile: file.codefile.clone(),
                        lines: file.lines,
                        limit: file_limit,
                    });
                    proof {
                        reveal_strlit("");
                        assert(exceeds(f.lines, limits.file as nat, tolerance_nano_pct as nat));
                        assert(out@.last()@.function =~= Seq::<char>::empty());
                        assert(out@.last()@ == file_finding(f, limits.file as nat, tolerance_nano_pct as nat));
                        assert(findings_view(out@) =~= findings_view(prev).push(out@.last()@));
                    }
                    assert(findings_view(out@) =~= before + head);
                } else {
                    assert(findings_view(out@) =~= before + head);
                }
                let function_limit = effective_limit_of(limits.function, tolerance_nano_pct);
                let mut k: usize = 0;
                while k < file.functions.len()
                    invariant
                        k <= file.functions.len(),
                        f == file@,
                        spans_valid(f.functions),
                        f.functions.len() == file.functions@.len(),
                        function_limit == (if effective_limit(limits.function as nat, tolerance_nano_pct as nat)
                            <= usize::MAX {
                            effective_limit(limits.function as nat, tolerance_nano_pct as nat)
                        } else {
                            usize::MAX as nat
                        }),
                        findings_view(out@) == before + head + function_findings(
                            f,
                            limits.function as nat,
                            tolerance_nano_pct as nat,
                            k as int,
                        ),
                    decreases file.functions.len() - k,
                {
                    let (ref name, start, end) = file.functions[k];
                    assert(f.functions[k as int] == span_view(file.functions@[k as int]));
                    assert(f.functions[k as int].1 <= f.functions[k as int].2);
                    let lines = end - start + 1;
                    proof {
                        law_exceeds_effective_limit(lines as nat, limits.function as nat, tolerance_nano_pct as nat);
                    }
                    let ghost prev = out@;
                    if lines > function_limit {
                        out.push(Finding {
                            language: file.language.clone(),
                            exception: text("function"),
                            function: name.clone(),
                            codefile: file.codefile.clone(),
                            lines,
                            limit: function_limit,
                        });
                        assert(findings_view(out@) =~= findings_view(prev).push(out@.last()@));
                    }
                    k += 1;
                }
                assert(findings_view(out@) =~= before + file_findings(fv[i as int], *config, tolerance_nano_pct as nat));
            },
        }
        i += 1;
    }
    out
}

// ---------------------------------------------------------------- report order

/// `a` comes before `b` in lexicographic order of code points (the order of
/// `String`s, which compare their UTF-8 bytes).
pub open spec fn lex_less(a: Seq<char>, b: Seq<char>) -> bool
    decreases a.len(),
{
    if a.len() == 0 {
        b.len() > 0
    } else if b.len() == 0 {
        false
    } else if a[0] != b[0] {
        a[0] < b[0]
    } else {
        lex_less(a.drop_first(), b.drop_first())
    }
}

proof fn lemma_lex_irreflexive(a: Seq<char>)
    ensures
        !lex_less(a, a),
    decreases a.len(),
{
    if a.len() > 0 {
        lemma_lex_irreflexive(a.drop_first());
    }
}

proof fn lemma_lex_transitive(a: Seq<char>, b: Seq<char>, c: Seq<char>)
    requires
        lex_less(a, b),
        lex_less(b, c),
    ensures
        lex_less(a, c),
    decreases a.len(),
{
    if a.len() > 0 && b.len() > 0 && c.len() > 0 && a[0] == b[0] && b[0] == c[0] {
        lemma_lex_transitive(a.drop_first(), b.drop_first(), c.drop_first());
    }
}

proof fn lemma_lex_total(a: Seq<char>, b: Seq<char>)
    requires
        a != b,
    ensures
        lex_less(a, b) || lex_less(b, a),
    decreases a.len(),
{
    if a.len() > 0 && b.len() > 0 && a[0] == b[0] {
        if a.drop_first() == b.drop_first() {
            assert(a =~= seq![a[0]] + a.drop_first());
            assert(b =~= seq![b[0]] + b.drop_first());
        }
        lemma_lex_total(a.drop_first(), b.drop_first());
    } else if a.len() > 0 && b.len() > 0 {
        assert(a[0] < b[0] || b[0] < a[0]);
    } else if a.len() == 0 && b.len() == 0 {
        assert(a =~= b);
    }
}

/// `a` is reported before `b`: by language, then by line count, larger
/// first.
pub open spec fn finding_before(a: FindingView, b: FindingView) -> bool {
    lex_less(a.language, b.language) || (a.language == b.language && a.lines > b.lines)
}

/// Findings in report order.
pub open spec fn in_report_order(s: Seq<FindingView>) -> bool {
    forall|i: int, j: int| 0 <= i < j < s.len() ==> !finding_before(#[trigger] s[j], #[trigger] s[i])
}

/// The findings for one language and one line count.
pub open spec fn with_key(language: Seq<char>, lines: nat) -> spec_fn(FindingView) -> bool {
    |y: FindingView| y.language == language && y.lines == lines
}

proof fn lemma_before_irreflexive(a: FindingView, b: FindingView)
    requires
        a.language == b.language,
        a.lines == b.lines,
    ensures
        !finding_before(a, b),
{
    lemma_lex_irreflexive(a.language);
}

proof fn lemma_before_transitive(a: FindingView, b: FindingView, c: FindingView)
    requires
        finding_before(a, b),
        finding_before(b, c),
    ensures
        finding_before(a, c),
{
    if lex_less(a.language, b.language) && lex_less(b.language, c.language) {
        lemma_lex_transitive(a.language, b.language, c.language);
    }
}

proof fn lemma_before_after_first(x: FindingView, y: FindingView, z: FindingView)
    requires
        finding_before(x, y),
        !finding_before(z, y),
    ensures
        finding_before(x, z),
{
    if y.language == z.language && y.lines == z.lines {
    } else {
        if y.language != z.language {
            lemma_lex_total(y.language, z.language);
        }
        lemma_before_transitive(x, y, z);
    }
}

proof fn lemma_filter_none(s: Seq<FindingView>, p: spec_fn(FindingView) -> bool)
    requires
        forall|i: int| 0 <= i < s.len() ==> !p(#[trigger] s[i]),
    ensures
        s.filter(p) =~= Seq::<FindingView>::empty(),
    decreases s.len(),
{
    reveal(Seq::filter);
    if s.len() > 0 {
        lemma_filter_none(s.drop_last(), p);
    }
}

/// Whether `a` is reported before `b`.
fn reported_before(a: &Finding, b: &Finding) -> (r: bool)
    ensures
        r == finding_before(a@, b@),
{
    let x = chars_of(a.language.as_str());
    let y = chars_of(b.language.as_str());
    let mut i: usize = 0;
    assert(x@.skip(0) =~= x@);
    assert(y@.skip(0) =~= y@);
    while i < x.len() && i < y.len() && x[i] == y[i]
        invariant
            i <= x.len(),
            i <= y.len(),
            x@.subrange(0, i as int) == y@.subrange(0, i as int),
            lex_less(x@, y@) == lex_less(x@.skip(i as int), y@.skip(i as int)),
        decreases x.len() - i,
    {
        assert(x@.skip(i as int).drop_first() =~= x@.skip(i + 1));
        assert(y@.skip(i as int).drop_first() =~= y@.skip(i + 1));
        assert(x@.subrange(0, i + 1) =~= x@.subrange(0, i as int).push(x@[i as int]));
        assert(y@.subrange(0, i + 1) =~= y@.subrange(0, i as int).push(y@[i as int]));
        i += 1;
    }
    let less = if i < x.len() && i < y.len() {
        assert(x@.skip(i as int)[0] == x@[i as int]);
        assert(y@.skip(i as int)[0] == y@[i as int]);
        x[i] < y[i]
    } else {
        i == x.len() && i < y.len()
    };
    let same = i == x.len() && i == y.len();
    if same {
        assert(x@ =~= x@.subrange(0, i as int));
        assert(y@ =~= y@.subrange(0, i as int));
    } else {
        if i < x.len() && i < y.len() {
            assert(x@[i as int] != y@[i as int]);
            assert(x@.skip(i as int)[0] != y@.skip(i as int)[0]);
            assert(x@ != y@) by {
                if x@ == y@ {
                    assert(x@[i as int] == y@[i as int]);
                }
            }
        } else {
            assert(x@.len() != y@.len());
        }
    }
    less || (same && a.lines > b.lines)
}

/// Sorts findings into report order: by language, then by line count, larger
/// first. The sort is stable: findings with the same language and line count
/// keep their order.
pub fn sort_findings(findings: &mut Vec<Finding>)
    ensures
        in_report_order(findings_view(final(findings)@)),
        findings_view(final(findings)@).len() == findings_view(old(findings)@).len(),
        forall|language: Seq<char>, lines: nat| #[trigger] findings_view(final(findings)@).filter(
            with_key(language, lines),
        ) == findings_view(old(findings)@).filter(with_key(language, lines)),
{
    let ghost input = findings_view(findings@);
    let mut items: Vec<Finding> = Vec::new();
    std::mem::swap(&mut items, findings);
    assert(findings_view(items@) == input);
    let mut out: Vec<Finding> = Vec::new();
    let mut i: usize = 0;
    let n0 = items.len();
    let ghost n = input.len();
    assert(n == n0);
    assert(findings_view(out@) =~= Seq::<FindingView>::empty());
    while items.len() > 0
        invariant
            i + items.len() == n,
            n == input.len(),
            n <= usize::MAX,
            findings_view(items@) == input.skip(i as int),
            in_report_order(findings_view(out@)),
            findings_view(out@).len() == i,
            forall|language: Seq<char>, lines: nat| #[trigger] findings_view(out@).filter(
                with_key(language, lines),
            ) == input.take(i as int).filter(with_key(language, lines)),
        decreases items.len(),
    {
        let ghost rest = findings_view(items@);
        let ghost old_items = items@;
        let x = items.remove(0);
        assert(x@ == rest[0]);
        assert(rest[0] == input[i as int]);
        assert forall|k: int| 0 <= k < items@.len() implies #[trigger] findings_view(items@)[k]
            == input.skip(i + 1)[k] by {
            assert(items@[k] == old_items[k + 1]);
            assert(rest[k + 1] == input.skip(i as int)[k + 1]);
        }
        assert(findings_view(items@) =~= input.skip(i + 1));
        let ghost ov = findings_view(out@);
        let mut p: usize = 0;
        while p < out.len() && !reported_before(&x, &out[p])
            invariant
                p <= out.len(),
                ov == findings_view(out@),
                forall|j: int| 0 <= j < p ==> !finding_before(x@, #[trigger] ov[j]),
            decreases out.len() - p,
        {
            assert(ov[p as int] == out@[p as int]@);
            p += 1;
        }
        proof {
            if p < out.len() {
                assert(ov[p as int] == out@[p as int]@);
                assert forall|j: int| p <= j < ov.len() implies finding_before(x@, #[trigger] ov[j]) by {
                    if j > p {
                        lemma_before_after_first(x@, ov[p as int], ov[j]);
                    }
                }
            }
        }
        let ghost xv = x@;
        out.insert(p, x);
        let ghost nv = findings_view(out@);
        assert(nv =~= ov.subrange(0, p as int) + seq![xv] + ov.subrange(p as int, ov.len() as int));
        proof {
            assert forall|a: int, b: int| 0 <= a < b < nv.len() implies !finding_before(
                #[trigger] nv[b],
                #[trigger] nv[a],
            ) by {
                if b < p {
                    assert(nv[a] == ov[a] && nv[b] == ov[b]);
                } else if b == p {
                    assert(nv[a] == ov[a]);
                } else if a == p {
                    assert(nv[b] == ov[b - 1]);
                    if finding_before(nv[b], xv) {
                        lemma_before_transitive(xv, nv[b], xv);
                        lemma_before_irreflexive(xv, xv);
                    }
                } else if a < p {
                    assert(nv[a] == ov[a] && nv[b] == ov[b - 1]);
                } else {
                    assert(nv[a] == ov[a - 1] && nv[b] == ov[b - 1]);
                }
            }
            assert(input.take(i + 1) =~= input.take(i as int).push(xv));
            assert forall|language: Seq<char>, lines: nat| #[trigger] nv.filter(with_key(language, lines))
                == input.take(i + 1).filter(with_key(language, lines)) by {
                let pr = with_key(language, lines);
                let lo = ov.subrange(0, p as int);
                let hi = ov.subrange(p as int, ov.len() as int);
                assert(ov =~= lo + hi);
                Seq::filter_distributes_over_add(lo, hi, pr);
                Seq::filter_distributes_over_add(lo + seq![xv], hi, pr);
                Seq::filter_distributes_over_add(lo, seq![xv], pr);
                input.take(i as int).lemma_filter_push(xv, pr);
                lo.lemma_filter_push(xv, pr);
                assert(lo.push(xv) =~= lo + seq![xv]);
                if pr(xv) {
                    assert forall|j: int| 0 <= j < hi.len() implies !pr(#[trigger] hi[j]) by {
                        assert(hi[j] == ov[p + j]);
                        assert(finding_before(xv, ov[p + j]));
                        if pr(hi[j]) {
                            lemma_before_irreflexive(xv, hi[j]);
                        }
                    }
                    lemma_filter_none(hi, pr);
                    assert(hi.filter(pr) =~= Seq::<FindingView>::empty());
                }
            }
        }
        i += 1;
    }
    assert(input.take(n as int) =~= input);
    *findings = out;
}

// ---------------------------------------------------------------- report rows

/// The decimal digits of `n`, most significant first.
pub open spec fn decimal(n: nat) -> Seq<char>
    decreases n,
{
    let d = seq!['0', '1', '2', '3', '4', '5', '6', '7', '8', '9'][(n % 10) as int];
    if n < 10 {
        seq![d]
    } else {
        decimal(n / 10).push(d)
    }
}

fn push_decimal(n: usize, out: &mut Vec<char>)
    ensures
        final(out)@ == old(out)@ + decimal(n as nat),
    decreases n,
{
    let digits = ['0', '1', '2', '3', '4', '5', '6', '7', '8', '9'];
    if n >= 10 {
        push_decimal(n / 10, out);
    }
    let ghost mid = out@;
    out.push(digits[n % 10]);
    proof {
        assert(digits@ =~= seq!['0', '1', '2', '3', '4', '5', '6', '7', '8', '9']);
    }
    assert(out@ =~= old(out)@ + decimal(n as nat));
}

/// `n` in decimal notation (as `usize::to_string` writes it).
pub fn decimal_text(n: usize) -> (r: String)
    ensures
        r@ == decimal(n as nat),
{
    let mut cs: Vec<char> = Vec::new();
    push_decimal(n, &mut cs);
    assert(cs@ =~= decimal(n as nat));
    string_of(cs.as_slice())
}

/// The column names of the report.
pub open spec fn report_header() -> Seq<Seq<char>> {
    seq!["language"@, "exception"@, "function"@, "codefile"@, "lines"@, "limit"@]
}

/// The report row of a finding.
pub open spec fn report_row(f: FindingView) -> Seq<Seq<char>> {
    seq![f.language, f.exception, f.function, f.codefile, decimal(f.lines), decimal(f.limit)]
}

pub open spec fn records_view(v: Seq<Vec<String>>) -> Seq<Seq<Seq<char>>> {
    Seq::new(v.len(), |i: int| strings_view(v[i]@))
}

/// The records of the CSV report for `fs`: the header, then one row per
/// finding, in order.
pub open spec fn report_records(fs: Seq<FindingView>) -> Seq<Seq<Seq<char>>> {
    seq![report_header()] + Seq::new(fs.len(), |i: int| report_row(fs[i]))
}

/// The records of the CSV report: the header, then one row per finding, in
/// the given order.
pub fn csv_records(findings: &Vec<Finding>) -> (r: Vec<Vec<String>>)
    ensures
        records_view(r@) == report_records(findings_view(findings@)),
{
    let ghost fv = findings_view(findings@);
    let mut out: Vec<Vec<String>> = Vec::new();
    let header = vec![
        text("language"),
        text("exception"),
        text("function"),
        text("codefile"),
        text("lines"),
        text("limit"),
    ];
    assert(strings_view(header@) =~= report_header());
    out.push(header);
    assert(records_view(out@) =~= report_records(fv.take(0)));
    let mut i: usize = 0;
    while i < findings.len()
        invariant
            i <= findings.len(),
            fv == findings_view(findings@),
            records_view(out@) == report_records(fv.take(i as int)),
        decreases findings.len() - i,
    {
        let f = &findings[i];
        assert(fv[i as int] == f@);
        assert(fv.len() == findings.len());
        let row = vec![
            f.language.clone(),
            f.exception.clone(),
            f.function.clone(),
            f.codefile.clone(),
            decimal_text(f.lines),
            decimal_text(f.limit),
        ];
        assert(strings_view(row@) =~= report_row(f@));
        let ghost before = out@;
        out.push(row);
        let ghost next = report_records(fv.take(i + 1));
        let ghost prev = report_records(fv.take(i as int));
        assert forall|j: int| 0 <= j < next.len() implies #[trigger] records_view(out@)[j] == next[j] by {
            if j < prev.len() {
                assert(records_view(before)[j] == prev[j]);
                assert(out@[j] == before[j]);
                if j > 0 {
                    assert(fv.take(i + 1)[j - 1] == fv.take(i as int)[j - 1]);
                }
            } else {
                assert(out@[j] == row);
                assert(fv.take(i + 1)[j - 1] == f@);
            }
        }
        assert(records_view(before).len() == before.len());
        assert(before.len() == prev.len());
        assert(prev.len() == 1 + i);
        assert(next.len() == 2 + i);
        assert(out@.len() == before.len() + 1);
        assert(records_view(out@).len() == next.len());
        assert(records_view(out@) =~= next);
        i += 1;
    }
    assert(fv.take(findings.len() as int) =~= fv);
    out
}

// ---------------------------------------------------------------- laws of the report

/// Two languages are ordered by their first differing character, whatever
/// their lengths: where `a` and `b` agree before position `k` and differ at
/// `k`, `a` comes first exactly when its character there is the smaller.
pub proof fn law_lex_first_difference(a: Seq<char>, b: Seq<char>, k: int)
    requires
        0 <= k < a.len(),
        k < b.len(),
        a[k] != b[k],
        forall|j: int| 0 <= j < k ==> a[j] == b[j],
    ensures
        lex_less(a, b) <==> a[k] < b[k],
        lex_less(b, a) <==> b[k] < a[k],
    decreases k,
{
    if k > 0 {
        assert(a[0] == b[0]);
        let a1 = a.drop_first();
        let b1 = b.drop_first();
        assert forall|j: int| 0 <= j < k - 1 implies a1[j] == b1[j] by {
            assert(a1[j] == a[j + 1] && b1[j] == b[j + 1]);
        }
        assert(a1[k - 1] == a[k] && b1[k - 1] == b[k]);
        law_lex_first_difference(a1, b1, k - 1);
    }
}

/// A language that is a proper prefix of another comes first.
pub proof fn law_lex_prefix_first(a: Seq<char>, b: Seq<char>)
    requires
        a.len() < b.len(),
        forall|j: int| 0 <= j < a.len() ==> a[j] == b[j],
    ensures
        lex_less(a, b),
        !lex_less(b, a),
    decreases a.len(),
{
    if a.len() > 0 {
        assert(a[0] == b[0]);
        let a1 = a.drop_first();
        let b1 = b.drop_first();
        assert forall|j: int| 0 <= j < a1.len() implies a1[j] == b1[j] by {
            assert(a1[j] == a[j + 1] && b1[j] == b[j + 1]);
        }
        law_lex_prefix_first(a1, b1);
    }
}

/// Report order compares languages first and line counts only within one
/// language, the larger count first.
pub proof fn law_report_order_keys(a: FindingView, b: FindingView)
    ensures
        a.language == b.language ==> (finding_before(a, b) <==> a.lines > b.lines),
        a.language != b.language ==> (finding_before(a, b) <==> lex_less(a.language, b.language)),
        a.language != b.language ==> (finding_before(a, b) <==> !finding_before(b, a)),
{
    if a.language == b.language {
        lemma_lex_irreflexive(a.language);
    } else {
        lemma_lex_total(a.language, b.language);
        if lex_less(a.language, b.language) && lex_less(b.language, a.language) {
            lemma_lex_transitive(a.language, b.language, a.language);
            lemma_lex_irreflexive(a.language);
        }
    }
}

/// The value of a string of decimal digits, most significant first.
pub open spec fn digits_value(s: Seq<char>) -> int
    decreases s.len(),
{
    if s.len() == 0 {
        0
    } else {
        digits_value(s.drop_last()) * 10 + (s.last() as int - '0' as int)
    }
}

/// `decimal(n)` writes `n` as `to_string` does: decimal digits only, read
/// back as `n`, with no leading zero but for `0` itself.
pub proof fn law_decimal_reads_back(n: nat)
    ensures
        decimal(n).len() >= 1,
        forall|i: int| 0 <= i < decimal(n).len() ==> '0' <= #[trigger] decimal(n)[i] <= '9',
        digits_value(decimal(n)) == n,
        decimal(n)[0] == '0' ==> n == 0 && decimal(n).len() == 1,
    decreases n,
{
    let t = seq!['0', '1', '2', '3', '4', '5', '6', '7', '8', '9'];
    let r = (n % 10) as int;
    assert(t[r] as int - '0' as int == r && '0' <= t[r] <= '9') by {
        assert(t[0] == '0' && t[1] == '1' && t[2] == '2' && t[3] == '3' && t[4] == '4');
        assert(t[5] == '5' && t[6] == '6' && t[7] == '7' && t[8] == '8' && t[9] == '9');
    }
    if n >= 10 {
        law_decimal_reads_back(n / 10);
        let h = decimal(n / 10);
        let d = decimal(n);
        assert(d == h.push(t[r]));
        assert(d.drop_last() =~= h);
        assert forall|i: int| 0 <= i < d.len() implies '0' <= #[trigger] d[i] <= '9' by {
            if i < h.len() {
                assert(d[i] == h[i]);
            }
        }
        assert(d[0] == h[0]);
        assert(n / 10 >= 1);
        assert(d.last() == t[r]);
        assert(digits_value(d) == digits_value(h) * 10 + r);
        assert((n / 10) * 10 + n % 10 == n) by (nonlinear_arith);
    } else {
        let d = decimal(n);
        assert(d == seq![t[r]]);
        assert(d.drop_last() =~= Seq::<char>::empty());
        assert(d.last() == t[r]);
        assert(digits_value(d) == digits_value(Seq::<char>::empty()) * 10 + r);
    }
}

/// The report is the header row, then one row per finding in the given
/// order, holding its language, kind, function name, file, line count and
/// limit, the two counts in decimal.
pub proof fn law_report_rows(fs: Seq<FindingView>)
    ensures
        report_records(fs).len() == fs.len() + 1,
        report_records(fs)[0] == seq!["language"@, "exception"@, "function"@, "codefile"@, "lines"@, "limit"@],
        forall|i: int| 0 <= i < fs.len() ==> #[trigger] report_records(fs)[i + 1] == seq![
            fs[i].language,
            fs[i].exception,
            fs[i].function,
            fs[i].codefile,
            decimal(fs[i].lines),
            decimal(fs[i].limit),
        ],
        forall|i: int| 0 <= i < fs.len() ==> #[trigger] report_records(fs)[i + 1].len() == 6,
{
    assert forall|i: int| 0 <= i < fs.len() implies #[trigger] report_records(fs)[i + 1] == seq![
        fs[i].language,
        fs[i].exception,
        fs[i].function,
        fs[i].codefile,
        decimal(fs[i].lines),
        decimal(fs[i].limit),
    ] by {
        assert(report_records(fs)[i + 1] == report_row(fs[i]));
    }
}

} // verus!
