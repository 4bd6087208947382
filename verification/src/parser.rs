//! Line counting and function discovery in parsed source files.

use vstd::prelude::*;
use vstd::slice::slice_subrange;

use crate::syntax::{
    depths_in_preorder, node_views, parse_nodes, parsed_nodes, rows_ordered, Grammar, NodeInfo,
    SyntaxNode,
};
use crate::text::{
    chars_of, contains_text, decode_utf8, ends_with_chars, has_suffix, string_of, strings_view,
    text, utf8_decode,
};

verus! {

/// The functions found in a file: name, first row and last row (rows count
/// from 0).
pub type Functions = Vec<(String, usize, usize)>;

/// A function as plain values: name, first row, last row.
pub type FunctionSpan = (Seq<char>, nat, nat);

pub open spec fn span_view(f: (String, usize, usize)) -> FunctionSpan {
    (f.0@, f.1 as nat, f.2 as nat)
}

pub open spec fn spans_view(v: Seq<(String, usize, usize)>) -> Seq<FunctionSpan> {
    Seq::new(v.len(), |i: int| span_view(v[i]))
}

// ---------------------------------------------------------------- line counting

/// The length of the line end that starts at byte `i` of `s`, or 0 where
/// none does. Line ends are those of Python's `str.splitlines()`: CR LF, CR,
/// LF, VT, FF, the separators 0x1C to 0x1E, and U+0085, U+2028 and U+2029 in
/// UTF-8.
pub open spec fn line_end_len(s: Seq<u8>, i: int) -> nat {
    if i < 0 || i >= s.len() {
        0
    } else if s[i] == 0x0du8 {
        if i + 1 < s.len() && s[i + 1] == 0x0au8 {
            2
        } else {
            1
        }
    } else if s[i] == 0x0au8 || s[i] == 0x0bu8 || s[i] == 0x0cu8 || s[i] == 0x1cu8 || s[i] == 0x1du8
        || s[i] == 0x1eu8 {
        1
    } else if s[i] == 0xc2u8 && i + 1 < s.len() && s[i + 1] == 0x85u8 {
        2
    } else if s[i] == 0xe2u8 && i + 2 < s.len() && s[i + 1] == 0x80u8 && (s[i + 2] == 0xa8u8 || s[i
        + 2] == 0xa9u8) {
        3
    } else {
        0
    }
}

/// The lines of `s` from byte `i` on, where `open` says that a line has
/// begun and not yet ended before `i`: each line end closes a line, and a
/// final line without a line end counts too.
pub open spec fn lines_from(s: Seq<u8>, i: int, open: bool) -> nat
    decreases s.len() - i,
{
    if i < 0 || i >= s.len() {
        if open {
            1
        } else {
            0
        }
    } else if line_end_len(s, i) > 0 {
        1 + lines_from(s, i + line_end_len(s, i), false)
    } else {
        lines_from(s, i + 1, true)
    }
}

/// The number of lines of `s` in the sense of Python's `str.splitlines()`:
/// an empty text has none, and a last line without a line end counts.
pub open spec fn line_count(s: Seq<u8>) -> nat {
    lines_from(s, 0, false)
}

proof fn lemma_line_end_in_range(s: Seq<u8>, i: int)
    ensures
        line_end_len(s, i) > 0 ==> 0 <= i && i + line_end_len(s, i) <= s.len(),
        line_end_len(s, i) <= 3,
{
}

proof fn lemma_line_end_prefix(a: Seq<u8>, b: Seq<u8>, i: int)
    requires
        a.len() > 0,
        a.last() == 0x0au8,
        0 <= i < a.len(),
    ensures
        line_end_len(a + b, i) == line_end_len(a, i),
{
    let ab = a + b;
    assert(ab[i] == a[i]);
    if i + 1 < a.len() {
        assert(ab[i + 1] == a[i + 1]);
    }
    if i + 2 < a.len() {
        assert(ab[i + 2] == a[i + 2]);
    }
    if i + 1 == a.len() {
        assert(a[i] == 0x0au8);
    }
    if i + 2 == a.len() {
        assert(ab[i + 1] == 0x0au8);
    }
}

proof fn lemma_lines_from_concat(a: Seq<u8>, b: Seq<u8>, i: int, open: bool)
    requires
        a.len() > 0,
        a.last() == 0x0au8,
        0 <= i <= a.len(),
        i == a.len() ==> !open,
    ensures
        lines_from(a + b, i, open) == lines_from(a, i, open) + lines_from(b, 0, false),
    decreases a.len() - i,
{
    let ab = a + b;
    if i == a.len() {
        lemma_lines_from_shift(a, b, 0, false);
    } else {
        lemma_line_end_prefix(a, b, i);
        lemma_line_end_in_range(a, i);
        let t = line_end_len(a, i);
        if t > 0 {
            lemma_lines_from_concat(a, b, i + t, false);
        } else {
            assert(i + 1 < a.len()) by {
                if i + 1 == a.len() {
                    assert(a[i] == 0x0au8);
                }
            }
            lemma_lines_from_concat(a, b, i + 1, true);
        }
    }
}

proof fn lemma_lines_from_shift(a: Seq<u8>, b: Seq<u8>, j: int, open: bool)
    requires
        0 <= j,
    ensures
        lines_from(a + b, a.len() + j, open) == lines_from(b, j, open),
    decreases b.len() - j,
{
    let ab = a + b;
    if j < b.len() {
        assert(ab[a.len() + j] == b[j]);
        if j + 1 < b.len() {
            assert(ab[a.len() + j + 1] == b[j + 1]);
        }
        if j + 2 < b.len() {
            assert(ab[a.len() + j + 2] == b[j + 2]);
        }
        assert(line_end_len(ab, a.len() + j) == line_end_len(b, j));
        let t = line_end_len(b, j);
        if t > 0 {
            lemma_lines_from_shift(a, b, j + t, false);
        } else {
            lemma_lines_from_shift(a, b, j + 1, true);
        }
    }
}

/// Counting lines is additive over texts cut just after a `'\n'`: the lines
/// of `a` followed by `b` are those of `a` and those of `b`, where `a` is
/// empty or ends with `'\n'`.
pub proof fn law_line_count_concat(a: Seq<u8>, b: Seq<u8>)
    requires
        a.len() == 0 || a.last() == 0x0au8,
    ensures
        line_count(a + b) == line_count(a) + line_count(b),
{
    if a.len() == 0 {
        assert(a + b =~= b);
    } else {
        lemma_lines_from_concat(a, b, 0, false);
    }
}

/// The bytes that end a line on their own: LF, VT, FF, CR and the
/// separators 0x1C, 0x1D and 0x1E (a TAB or any other byte does not).
pub open spec fn single_byte_line_end(b: u8) -> bool {
    b == 0x0au8 || b == 0x0bu8 || b == 0x0cu8 || b == 0x0du8 || b == 0x1cu8 || b == 0x1du8 || b == 0x1eu8
}

/// The number of bytes of `s` from position `i` on that end a line on
/// their own.
pub open spec fn single_ends_from(s: Seq<u8>, i: int) -> nat
    decreases s.len() - i,
{
    if i < 0 || i >= s.len() {
        0
    } else {
        (if single_byte_line_end(s[i]) {
            1nat
        } else {
            0nat
        }) + single_ends_from(s, i + 1)
    }
}

/// The text holds no line end longer than one byte: no CR directly before
/// an LF, and none of the bytes that close U+0085, U+2028 or U+2029.
pub open spec fn only_single_byte_ends(s: Seq<u8>) -> bool {
    &&& forall|i: int| 0 <= i < s.len() ==> #[trigger] s[i] != 0x85u8 && s[i] != 0xa8u8 && s[i] != 0xa9u8
    &&& forall|i: int| 0 <= i < s.len() - 1 ==> !(#[trigger] s[i] == 0x0du8 && s[i + 1] == 0x0au8)
}

proof fn lemma_lines_single_ends(s: Seq<u8>, i: int, open: bool)
    requires
        only_single_byte_ends(s),
        0 <= i <= s.len(),
    ensures
        lines_from(s, i, open) == single_ends_from(s, i) + if i == s.len() {
            if open {
                1nat
            } else {
                0nat
            }
        } else if single_byte_line_end(s.last()) {
            0nat
        } else {
            1nat
        },
    decreases s.len() - i,
{
    if i < s.len() {
        if i + 1 < s.len() {
            assert(s[i + 1] != 0x85u8 && s[i + 1] != 0xa8u8 && s[i + 1] != 0xa9u8);
        }
        if i + 2 < s.len() {
            assert(s[i + 2] != 0xa8u8 && s[i + 2] != 0xa9u8);
        }
        if s[i] == 0x0du8 && i + 1 < s.len() {
            assert(!(s[i] == 0x0du8 && s[i + 1] == 0x0au8));
        }
        assert(line_end_len(s, i) == if single_byte_line_end(s[i]) {
            1nat
        } else {
            0nat
        });
        if single_byte_line_end(s[i]) {
            lemma_lines_single_ends(s, i + 1, false);
        } else {
            lemma_lines_single_ends(s, i + 1, true);
        }
        if i + 1 == s.len() {
            assert(s.last() == s[i]);
        }
    }
}

/// Where every line end is a single byte, the lines are counted by those
/// bytes: each such byte closes one line, and a final line with no line end
/// after it counts once more. A TAB, for one, ends no line.
pub proof fn law_line_count_single_byte_ends(s: Seq<u8>)
    requires
        only_single_byte_ends(s),
    ensures
        line_count(s) == single_ends_from(s, 0) + if s.len() > 0 && !single_byte_line_end(s.last()) {
            1nat
        } else {
            0nat
        },
{
    lemma_lines_single_ends(s, 0, false);
}

/// A CR LF pair ends one line, as a lone LF does: writing CR LF in place of
/// an LF leaves the line count as it is (where no CR comes just before).
pub proof fn law_crlf_is_one_line_end(a: Seq<u8>, b: Seq<u8>)
    requires
        a.len() == 0 || a.last() != 0x0du8,
    ensures
        line_count(a + seq![0x0du8, 0x0au8] + b) == line_count(a + seq![0x0au8] + b),
{
    lemma_crlf_prefix(a, b, 0, false);
}

proof fn lemma_crlf_prefix(a: Seq<u8>, b: Seq<u8>, i: int, open: bool)
    requires
        a.len() == 0 || a.last() != 0x0du8,
        0 <= i <= a.len(),
    ensures
        lines_from(a + seq![0x0du8, 0x0au8] + b, i, open) == lines_from(a + seq![0x0au8] + b, i, open),
    decreases a.len() - i,
{
    let x = a + seq![0x0du8, 0x0au8] + b;
    let y = a + seq![0x0au8] + b;
    let n = a.len() as int;
    if i == n {
        assert(x[n] == 0x0du8 && x[n + 1] == 0x0au8);
        assert(y[n] == 0x0au8);
        assert(x =~= (a + seq![0x0du8, 0x0au8]) + b);
        assert(y =~= (a + seq![0x0au8]) + b);
        lemma_lines_from_shift(a + seq![0x0du8, 0x0au8], b, 0, false);
        lemma_lines_from_shift(a + seq![0x0au8], b, 0, false);
    } else {
        assert(x[i] == a[i] && y[i] == a[i]);
        if i + 1 < n {
            assert(x[i + 1] == a[i + 1] && y[i + 1] == a[i + 1]);
        } else {
            assert(x[i + 1] == 0x0du8 && y[i + 1] == 0x0au8);
            assert(a[i] == a.last());
        }
        if i + 2 < n {
            assert(x[i + 2] == a[i + 2] && y[i + 2] == a[i + 2]);
        } else if i + 2 == n {
            assert(x[i + 2] == 0x0du8 && y[i + 2] == 0x0au8);
        } else {
            assert(x[i + 2] == 0x0au8);
        }
        assert(line_end_len(x, i) == line_end_len(y, i));
        lemma_line_end_in_range(a, i);
        let t = line_end_len(x, i);
        if t > 0 {
            assert(t == line_end_len(a, i) || i + t > n);
            if i + t <= n {
                lemma_crlf_prefix(a, b, i + t, false);
            }
        } else {
            lemma_crlf_prefix(a, b, i + 1, true);
        }
    }
}

/// The length of the line end at byte `i` of `source` (see [`line_end_len`]).
fn line_end_at(source: &[u8], i: usize) -> (r: usize)
    requires
        i < source.len(),
    ensures
        r == line_end_len(source@, i as int),
{
    let n = source.len();
    let c = source[i];
    if c == 0x0du8 {
        if i + 1 < n && source[i + 1] == 0x0au8 {
            2
        } else {
            1
        }
    } else if c == 0x0au8 || c == 0x0bu8 || c == 0x0cu8 || c == 0x1cu8 || c == 0x1du8 || c == 0x1eu8 {
        1
    } else if c == 0xc2u8 && i + 1 < n && source[i + 1] == 0x85u8 {
        2
    } else if c == 0xe2u8 && i + 1 < n && i + 2 < n && source[i + 1] == 0x80u8 && (source[i + 2] == 0xa8u8
        || source[i + 2] == 0xa9u8) {
        3
    } else {
        0
    }
}

/// Counts source lines matching Python's `str.splitlines()` semantics (see
/// [`line_count`]).
pub fn count_lines(source: &[u8]) -> (r: usize)
    ensures
        r == line_count(source@),
{
    let mut count: usize = 0;
    let mut open = false;
    let mut i: usize = 0;
    while i < source.len()
        invariant
            i <= source.len(),
            line_count(source@) == count + lines_from(source@, i as int, open),
            count <= i,
            open ==> count < i,
        decreases source.len() - i,
    {
        let t = line_end_at(source, i);
        proof {
            lemma_line_end_in_range(source@, i as int);
        }
        if t > 0 {
            count += 1;
            i += t;
            open = false;
        } else {
            i += 1;
            open = true;
        }
    }
    if open {
        count + 1
    } else {
        count
    }
}

// ---------------------------------------------------------------- grammar tables

/// The tree-sitter grammar used for a language key.
pub open spec fn grammar_for(key: Seq<char>) -> Option<Grammar> {
    if key == "Python"@ {
        Some(Grammar::Python)
    } else if key == "Rust"@ {
        Some(Grammar::Rust)
    } else if key == "Go"@ {
        Some(Grammar::Go)
    } else if key == "JavaScript"@ {
        Some(Grammar::JavaScript)
    } else if key == "TypeScript"@ {
        Some(Grammar::TypeScript)
    } else if key == "TSX"@ {
        Some(Grammar::Tsx)
    } else if key == "Java"@ {
        Some(Grammar::Java)
    } else if key == "C"@ {
        Some(Grammar::C)
    } else if key == "C++"@ {
        Some(Grammar::Cpp)
    } else if key == "Swift"@ {
        Some(Grammar::Swift)
    } else if key == "Lua"@ {
        Some(Grammar::Lua)
    } else if key == "ObjC"@ {
        Some(Grammar::ObjC)
    } else if key == "Zig"@ {
        Some(Grammar::Zig)
    } else {
        None
    }
}

/// The grammar for a language key, where there is one.
pub fn language_for(key: &str) -> (r: Option<Grammar>)
    ensures
        r == grammar_for(key@),
{
    let k = text(key);
    if k == text("Python") {
        Some(Grammar::Python)
    } else if k == text("Rust") {
        Some(Grammar::Rust)
    } else if k == text("Go") {
        Some(Grammar::Go)
    } else if k == text("JavaScript") {
        Some(Grammar::JavaScript)
    } else if k == text("TypeScript") {
        Some(Grammar::TypeScript)
    } else if k == text("TSX") {
        Some(Grammar::Tsx)
    } else if k == text("Java") {
        Some(Grammar::Java)
    } else if k == text("C") {
        Some(Grammar::C)
    } else if k == text("C++") {
        Some(Grammar::Cpp)
    } else if k == text("Swift") {
        Some(Grammar::Swift)
    } else if k == text("Lua") {
        Some(Grammar::Lua)
    } else if k == text("ObjC") {
        Some(Grammar::ObjC)
    } else if k == text("Zig") {
        Some(Grammar::Zig)
    } else {
        None
    }
}

/// The node kinds that count as functions in a language.
pub open spec fn function_kinds(lang: Seq<char>) -> Seq<Seq<char>> {
    if lang == "Python"@ {
        seq!["function_definition"@]
    } else if lang == "Rust"@ {
        seq!["function_item"@]
    } else if lang == "Go"@ {
        seq!["function_declaration"@, "method_declaration"@]
    } else if lang == "TypeScript"@ || lang == "TSX"@ || lang == "JavaScript"@ {
        seq!["function_declaration"@, "method_definition"@]
    } else if lang == "Java"@ {
        seq!["method_declaration"@, "constructor_declaration"@]
    } else if lang == "C"@ || lang == "C++"@ {
        seq!["function_definition"@]
    } else if lang == "Swift"@ {
        seq!["function_declaration"@]
    } else if lang == "Lua"@ {
        seq!["function_declaration"@]
    } else if lang == "ObjC"@ {
        seq!["function_definition"@, "method_definition"@]
    } else if lang == "Zig"@ {
        seq!["function_declaration"@]
    } else {
        seq![]
    }
}

/// The node kinds that count as functions in `lang`.
pub fn func_types(lang: &str) -> (r: Vec<String>)
    ensures
        strings_view(r@) == function_kinds(lang@),
{
    let k = text(lang);
    let r = if k == text("Python") {
        vec![text("function_definition")]
    } else if k == text("Rust") {
        vec![text("function_item")]
    } else if k == text("Go") {
        vec![text("function_declaration"), text("method_declaration")]
    } else if k == text("TypeScript") || k == text("TSX") || k == text("JavaScript") {
        vec![text("function_declaration"), text("method_definition")]
    } else if k == text("Java") {
        vec![text("method_declaration"), text("constructor_declaration")]
    } else if k == text("C") || k == text("C++") {
        vec![text("function_definition")]
    } else if k == text("Swift") {
        vec![text("function_declaration")]
    } else if k == text("Lua") {
        vec![text("function_declaration")]
    } else if k == text("ObjC") {
        vec![text("function_definition"), text("method_definition")]
    } else if k == text("Zig") {
        vec![text("function_declaration")]
    } else {
        Vec::new()
    };
    assert(strings_view(r@) =~= function_kinds(lang@));
    r
}

/// Whether arrow functions bound to variables count as functions in `lang`.
pub open spec fn arrow_functions_count(lang: Seq<char>) -> bool {
    lang == "JavaScript"@ || lang == "TypeScript"@ || lang == "TSX"@
}

/// Whether arrow functions bound to variables count as functions in `lang`.
pub fn has_arrow_funcs(lang: &str) -> (r: bool)
    ensures
        r == arrow_functions_count(lang@),
{
    let k = text(lang);
    k == text("JavaScript") || k == text("TypeScript") || k == text("TSX")
}

// ---------------------------------------------------------------- tree queries

/// The first node after `j - 1` that is a direct child of node `p` and hangs
/// under the field `f`; the scan stops at the end of `p`'s subtree.
pub open spec fn field_child_from(nodes: Seq<SyntaxNode>, p: int, f: Seq<char>, j: int) -> Option<int>
    decreases nodes.len() - j,
{
    if j < 0 || j >= nodes.len() || nodes[j].depth <= nodes[p].depth {
        None
    } else if nodes[j].depth == nodes[p].depth + 1 && nodes[j].field == Some(f) {
        Some(j)
    } else {
        field_child_from(nodes, p, f, j + 1)
    }
}

/// The first direct child of node `p` under the field `f`.
pub open spec fn field_child(nodes: Seq<SyntaxNode>, p: int, f: Seq<char>) -> Option<int> {
    field_child_from(nodes, p, f, p + 1)
}

/// The text of a node: its bytes of `source`, decoded as UTF-8.
pub open spec fn node_text(source: Seq<u8>, n: SyntaxNode) -> Option<Seq<char>> {
    if n.start_byte <= n.end_byte <= source.len() {
        utf8_decode(source.subrange(n.start_byte as int, n.end_byte as int))
    } else {
        None
    }
}

pub open spec fn anonymous() -> Seq<char> {
    "<anonymous>"@
}

pub open spec fn text_or_anonymous(source: Seq<u8>, n: SyntaxNode) -> Seq<char> {
    match node_text(source, n) {
        Some(t) => t,
        None => anonymous(),
    }
}

/// The name a C declarator chain leads to, starting at node `d`: the text of
/// the first `identifier` or `field_identifier` reached by following the
/// `declarator` field.
pub open spec fn declarator_name(nodes: Seq<SyntaxNode>, source: Seq<u8>, d: int) -> Seq<char>
    decreases nodes.len() - d,
{
    if d < 0 || d >= nodes.len() {
        anonymous()
    } else if nodes[d].kind == "identifier"@ || nodes[d].kind == "field_identifier"@ {
        text_or_anonymous(source, nodes[d])
    } else {
        match field_child(nodes, d, "declarator"@) {
            Some(e) => if d < e < nodes.len() {
                declarator_name(nodes, source, e)
            } else {
                anonymous()
            },
            None => anonymous(),
        }
    }
}

/// The selector pieces of an Objective-C method `m`, scanning its subtree
/// from node `j`: each `identifier` child adds its text, each
/// `method_parameter` child adds a colon to the last piece unless it has one.
pub open spec fn selector_parts(
    nodes: Seq<SyntaxNode>,
    source: Seq<u8>,
    m: int,
    j: int,
    parts: Seq<Seq<char>>,
) -> Seq<Seq<char>>
    decreases nodes.len() - j,
{
    if j <= m || j >= nodes.len() || nodes[j].depth <= nodes[m].depth {
        parts
    } else {
        let next = if nodes[j].depth != nodes[m].depth + 1 {
            parts
        } else if nodes[j].kind == "identifier"@ {
            match node_text(source, nodes[j]) {
                Some(t) => parts.push(t),
                None => parts,
            }
        } else if nodes[j].kind == "method_parameter"@ && parts.len() > 0 && !has_suffix(
            parts.last(),
            ":"@,
        ) {
            parts.update(parts.len() - 1, parts.last() + ":"@)
        } else {
            parts
        };
        selector_parts(nodes, source, m, j + 1, next)
    }
}

/// The pieces of `parts`, joined.
pub open spec fn joined(parts: Seq<Seq<char>>) -> Seq<char>
    decreases parts.len(),
{
    if parts.len() == 0 {
        seq![]
    } else {
        joined(parts.drop_last()) + parts.last()
    }
}

/// The selector of an Objective-C method node, such as `doFoo:withBar:`.
pub open spec fn objc_selector(nodes: Seq<SyntaxNode>, source: Seq<u8>, m: int) -> Seq<char> {
    let parts = selector_parts(nodes, source, m, m + 1, seq![]);
    if parts.len() == 0 {
        anonymous()
    } else {
        joined(parts)
    }
}

/// The name reported for function node `i` in language `lang`.
pub open spec fn function_name(nodes: Seq<SyntaxNode>, source: Seq<u8>, lang: Seq<char>, i: int) -> Seq<char> {
    let kind = nodes[i].kind;
    if lang == "C"@ || lang == "C++"@ || (lang == "ObjC"@ && kind == "function_definition"@) {
        match field_child(nodes, i, "declarator"@) {
            Some(d) => declarator_name(nodes, source, d),
            None => anonymous(),
        }
    } else if lang == "ObjC"@ && kind == "method_definition"@ {
        objc_selector(nodes, source, i)
    } else {
        match field_child(nodes, i, "name"@) {
            Some(c) => text_or_anonymous(source, nodes[c]),
            None => anonymous(),
        }
    }
}

/// Node `i` is a variable declarator whose `value` is an arrow function.
pub open spec fn is_arrow_declarator(nodes: Seq<SyntaxNode>, i: int) -> bool {
    nodes[i].kind == "variable_declarator"@ && match field_child(nodes, i, "value"@) {
        Some(c) => nodes[c].kind == "arrow_function"@,
        None => false,
    }
}

/// Node `i` is reported as a function in language `lang`.
pub open spec fn is_function_node(nodes: Seq<SyntaxNode>, lang: Seq<char>, i: int) -> bool {
    function_kinds(lang).contains(nodes[i].kind) || (arrow_functions_count(lang)
        && is_arrow_declarator(nodes, i))
}

/// The functions among the first `n` nodes, in preorder.
pub open spec fn functions_upto(nodes: Seq<SyntaxNode>, source: Seq<u8>, lang: Seq<char>, n: int) -> Seq<FunctionSpan>
    decreases n,
{
    if n <= 0 {
        seq![]
    } else {
        let before = functions_upto(nodes, source, lang, n - 1);
        if is_function_node(nodes, lang, n - 1) {
            before.push(
                (function_name(nodes, source, lang, n - 1), nodes[n - 1].start_row, nodes[n - 1].end_row),
            )
        } else {
            before
        }
    }
}

/// The functions of a tree, in preorder.
pub open spec fn tree_functions(nodes: Seq<SyntaxNode>, source: Seq<u8>, lang: Seq<char>) -> Seq<FunctionSpan> {
    functions_upto(nodes, source, lang, nodes.len() as int)
}

/// Every function ends on or after the row it starts on, and functions come
/// in order of their first rows.
pub open spec fn spans_in_row_order(fs: Seq<FunctionSpan>) -> bool {
    &&& forall|i: int| 0 <= i < fs.len() ==> #[trigger] fs[i].1 <= fs[i].2
    &&& forall|i: int, j: int| 0 <= i < j < fs.len() ==> #[trigger] fs[i].1 <= #[trigger] fs[j].1
}

proof fn lemma_functions_rows(nodes: Seq<SyntaxNode>, source: Seq<u8>, lang: Seq<char>, n: int)
    requires
        rows_ordered(nodes),
        n <= nodes.len(),
    ensures
        spans_in_row_order(functions_upto(nodes, source, lang, n)),
        forall|i: int| 0 <= i < functions_upto(nodes, source, lang, n).len() ==> exists|k: int|
            0 <= k < n && #[trigger] functions_upto(nodes, source, lang, n)[i].1 == nodes[k].start_row,
    decreases n,
{
    if n > 0 {
        lemma_functions_rows(nodes, source, lang, n - 1);
        let before = functions_upto(nodes, source, lang, n - 1);
        let all = functions_upto(nodes, source, lang, n);
        assert forall|i: int| 0 <= i < all.len() implies exists|k: int| 0 <= k < n && #[trigger] all[i].1
            == nodes[k].start_row by {
            if i < before.len() {
                assert(all[i] == before[i]);
                let k = choose|k: int| 0 <= k < n - 1 && before[i].1 == nodes[k].start_row;
                assert(0 <= k < n && all[i].1 == nodes[k].start_row);
            } else {
                assert(all[i].1 == nodes[n - 1].start_row);
            }
        }
        assert forall|i: int| 0 <= i < all.len() implies #[trigger] all[i].1 <= all[i].2 by {
            if i < before.len() {
                assert(all[i] == before[i]);
            } else {
                assert(nodes[n - 1].start_row <= nodes[n - 1].end_row);
            }
        }
        assert forall|i: int, j: int| 0 <= i < j < all.len() implies #[trigger] all[i].1
            <= #[trigger] all[j].1 by {
            assert(all[i] == before[i]);
            if j < before.len() {
                assert(all[j] == before[j]);
            } else {
                let k = choose|k: int| 0 <= k < n - 1 && before[i].1 == nodes[k].start_row;
                assert(nodes[k].start_row <= nodes[n - 1].start_row);
            }
        }
    }
}

/// Where the tree's rows are ordered, the functions found in it end no
/// earlier than they start and come in order of their first rows.
pub proof fn law_functions_in_row_order(nodes: Seq<SyntaxNode>, source: Seq<u8>, lang: Seq<char>)
    requires
        rows_ordered(nodes),
    ensures
        spans_in_row_order(tree_functions(nodes, source, lang)),
{
    lemma_functions_rows(nodes, source, lang, nodes.len() as int);
}

/// The positions, in preorder, of the nodes among the first `n` that are
/// reported as functions: the `p`-th function found is node
/// `function_indices(..)[p]`.
pub open spec fn function_indices(nodes: Seq<SyntaxNode>, lang: Seq<char>, n: int) -> Seq<int>
    decreases n,
{
    if n <= 0 {
        seq![]
    } else {
        let before = function_indices(nodes, lang, n - 1);
        if is_function_node(nodes, lang, n - 1) {
            before.push(n - 1)
        } else {
            before
        }
    }
}

/// Node `j` lies inside the subtree of node `i`: it comes after `i` in
/// preorder, and every node from the one after `i` up to `j` is deeper than
/// `i`.
pub open spec fn in_subtree(nodes: Seq<SyntaxNode>, i: int, j: int) -> bool {
    &&& 0 <= i < j < nodes.len()
    &&& forall|k: int| i < k <= j ==> #[trigger] nodes[k].depth > nodes[i].depth
}

proof fn lemma_function_indices(nodes: Seq<SyntaxNode>, source: Seq<u8>, lang: Seq<char>, n: int)
    requires
        n <= nodes.len(),
    ensures
        function_indices(nodes, lang, n).len() == functions_upto(nodes, source, lang, n).len(),
        forall|p: int| 0 <= p < function_indices(nodes, lang, n).len() ==> {
            let i = #[trigger] function_indices(nodes, lang, n)[p];
            &&& 0 <= i < n
            &&& is_function_node(nodes, lang, i)
            &&& functions_upto(nodes, source, lang, n)[p] == (
                function_name(nodes, source, lang, i),
                nodes[i].start_row,
                nodes[i].end_row,
            )
        },
        forall|p: int, q: int|
            0 <= p < q < function_indices(nodes, lang, n).len() ==> #[trigger] function_indices(
                nodes,
                lang,
                n,
            )[p] < #[trigger] function_indices(nodes, lang, n)[q],
    decreases n,
{
    if n > 0 {
        lemma_function_indices(nodes, source, lang, n - 1);
        let bi = function_indices(nodes, lang, n - 1);
        let bf = functions_upto(nodes, source, lang, n - 1);
        let ai = function_indices(nodes, lang, n);
        let af = functions_upto(nodes, source, lang, n);
        assert forall|p: int| 0 <= p < ai.len() implies {
            let i = #[trigger] ai[p];
            &&& 0 <= i < n
            &&& is_function_node(nodes, lang, i)
            &&& af[p] == (function_name(nodes, source, lang, i), nodes[i].start_row, nodes[i].end_row)
        } by {
            if p < bi.len() {
                assert(ai[p] == bi[p]);
                assert(af[p] == bf[p]);
            }
        }
        assert forall|p: int, q: int| 0 <= p < q < ai.len() implies #[trigger] ai[p] < #[trigger] ai[q] by {
            assert(ai[p] == bi[p]);
            if q < bi.len() {
                assert(ai[q] == bi[q]);
            }
        }
    }
}

/// The functions of a tree come in preorder: where the node of one reported
/// function lies inside the subtree of the node of another, the enclosing
/// function comes first, and the nested one starts on its row or later.
/// `function_indices` gives the node of each reported function, with its
/// rows. On a parsed tree, whose depths are those of a preorder walk
/// ([`depths_in_preorder`], stated by `analyze_source`), `in_subtree` is
/// exactly "is a descendant of".
pub proof fn law_enclosing_function_first(
    nodes: Seq<SyntaxNode>,
    source: Seq<u8>,
    lang: Seq<char>,
    p: int,
    q: int,
)
    requires
        rows_ordered(nodes),
        0 <= p < tree_functions(nodes, source, lang).len(),
        0 <= q < tree_functions(nodes, source, lang).len(),
        in_subtree(
            nodes,
            function_indices(nodes, lang, nodes.len() as int)[p],
            function_indices(nodes, lang, nodes.len() as int)[q],
        ),
    ensures
        p < q,
        tree_functions(nodes, source, lang)[p].1 <= tree_functions(nodes, source, lang)[q].1,
        tree_functions(nodes, source, lang)[p].1 == nodes[function_indices(
            nodes,
            lang,
            nodes.len() as int,
        )[p]].start_row,
        tree_functions(nodes, source, lang)[q].2 == nodes[function_indices(
            nodes,
            lang,
            nodes.len() as int,
        )[q]].end_row,
{
    let n = nodes.len() as int;
    lemma_function_indices(nodes, source, lang, n);
    let ix = function_indices(nodes, lang, n);
    if q <= p {
        if q < p {
            assert(ix[q] < ix[p]);
        }
        assert(false);
    }
    lemma_functions_rows(nodes, source, lang, n);
}

proof fn lemma_one_kind(a: Seq<char>, x: Seq<char>)
    ensures
        seq![a].contains(x) <==> x == a,
{
    if x == a {
        assert(seq![a][0] == x);
    }
}

proof fn lemma_two_kinds(a: Seq<char>, b: Seq<char>, x: Seq<char>)
    ensures
        seq![a, b].contains(x) <==> (x == a || x == b),
{
    if x == a {
        assert(seq![a, b][0] == x);
    }
    if x == b {
        assert(seq![a, b][1] == x);
    }
}

/// The node kinds reported as functions, language by language: Python
/// `function_definition`; Rust `function_item`; Go `function_declaration`
/// and `method_declaration`; JavaScript, TypeScript and TSX
/// `function_declaration` and `method_definition` (class methods), and
/// besides variables bound to arrow functions; Java `method_declaration` and
/// `constructor_declaration`; C and C++ `function_definition`; Swift, Lua
/// and Zig `function_declaration`; Objective-C `function_definition` and
/// `method_definition`; no kind in any other language.
pub proof fn law_function_kinds(lang: Seq<char>, kind: Seq<char>)
    ensures
        lang == "Python"@ ==> (function_kinds(lang).contains(kind) <==> (kind == "function_definition"@)),
        lang == "Rust"@ ==> (function_kinds(lang).contains(kind) <==> (kind == "function_item"@)),
        lang == "Go"@ ==> (function_kinds(lang).contains(kind) <==> (kind == "function_declaration"@ || kind == "method_declaration"@)),
        lang == "TypeScript"@ ==> (function_kinds(lang).contains(kind) <==> (kind == "function_declaration"@ || kind == "method_definition"@)),
        lang == "TSX"@ ==> (function_kinds(lang).contains(kind) <==> (kind == "function_declaration"@ || kind == "method_definition"@)),
        lang == "JavaScript"@ ==> (function_kinds(lang).contains(kind) <==> (kind == "function_declaration"@ || kind == "method_definition"@)),
        lang == "Java"@ ==> (function_kinds(lang).contains(kind) <==> (kind == "method_declaration"@ || kind == "constructor_declaration"@)),
        lang == "C"@ ==> (function_kinds(lang).contains(kind) <==> (kind == "function_definition"@)),
        lang == "C++"@ ==> (function_kinds(lang).contains(kind) <==> (kind == "function_definition"@)),
        lang == "Swift"@ ==> (function_kinds(lang).contains(kind) <==> (kind == "function_declaration"@)),
        lang == "Lua"@ ==> (function_kinds(lang).contains(kind) <==> (kind == "function_declaration"@)),
        lang == "ObjC"@ ==> (function_kinds(lang).contains(kind) <==> (kind == "function_definition"@ || kind == "method_definition"@)),
        lang == "Zig"@ ==> (function_kinds(lang).contains(kind) <==> (kind == "function_declaration"@)),
        !(lang == "Python"@ || lang == "Rust"@ || lang == "Go"@ || lang == "TypeScript"@ || lang == "TSX"@ || lang == "JavaScript"@ || lang == "Java"@ || lang == "C"@ || lang == "C++"@ || lang == "Swift"@ || lang == "Lua"@ || lang == "ObjC"@ || lang == "Zig"@) ==> !function_kinds(lang).contains(kind),
        arrow_functions_count(lang) <==> (lang == "JavaScript"@ || lang == "TypeScript"@ || lang == "TSX"@),
{
    reveal_strlit("Python");
    reveal_strlit("Rust");
    reveal_strlit("Go");
    reveal_strlit("TypeScript");
    reveal_strlit("TSX");
    reveal_strlit("JavaScript");
    reveal_strlit("Java");
    reveal_strlit("C");
    reveal_strlit("C++");
    reveal_strlit("Swift");
    reveal_strlit("Lua");
    reveal_strlit("ObjC");
    reveal_strlit("Zig");
    if lang == "Python"@ {
        lemma_one_kind("function_definition"@, kind);
    }
    if lang == "Rust"@ {
        assert("Rust"@.len() != "Python"@.len());
        assert("Rust"@ != "Python"@);
        lemma_one_kind("function_item"@, kind);
    }
    if lang == "Go"@ {
        assert("Go"@.len() != "Python"@.len());
        assert("Go"@ != "Python"@);
        assert("Go"@.len() != "Rust"@.len());
        assert("Go"@ != "Rust"@);
        lemma_two_kinds("function_declaration"@, "method_declaration"@, kind);
    }
    if lang == "TypeScript"@ {
        assert("TypeScript"@.len() != "Python"@.len());
        assert("TypeScript"@ != "Python"@);
        assert("TypeScript"@.len() != "Rust"@.len());
        assert("TypeScript"@ != "Rust"@);
        assert("TypeScript"@.len() != "Go"@.len());
        assert("TypeScript"@ != "Go"@);
        lemma_two_kinds("function_declaration"@, "method_definition"@, kind);
    }
    if lang == "TSX"@ {
        assert("TSX"@.len() != "Python"@.len());
        assert("TSX"@ != "Python"@);
        assert("TSX"@.len() != "Rust"@.len());
        assert("TSX"@ != "Rust"@);
        assert("TSX"@.len() != "Go"@.len());
        assert("TSX"@ != "Go"@);
        assert("TSX"@.len() != "TypeScript"@.len());
        assert("TSX"@ != "TypeScript"@);
        lemma_two_kinds("function_declaration"@, "method_definition"@, kind);
    }
    if lang == "JavaScript"@ {
        assert("JavaScript"@.len() != "Python"@.len());
        assert("JavaScript"@ != "Python"@);
        assert("JavaScript"@.len() != "Rust"@.len());
        assert("JavaScript"@ != "Rust"@);
        assert("JavaScript"@.len() != "Go"@.len());
        assert("JavaScript"@ != "Go"@);
        assert("JavaScript"@[0] != "TypeScript"@[0]);
        assert("JavaScript"@ != "TypeScript"@);
        assert("JavaScript"@.len() != "TSX"@.len());
        assert("JavaScript"@ != "TSX"@);
        lemma_two_kinds("function_declaration"@, "method_definition"@, kind);
    }
    if lang == "Java"@ {
        assert("Java"@.len() != "Python"@.len());
        assert("Java"@ != "Python"@);
        assert("Java"@[0] != "Rust"@[0]);
        assert("Java"@ != "Rust"@);
        assert("Java"@.len() != "Go"@.len());
        assert("Java"@ != "Go"@);
        assert("Java"@.len() != "TypeScript"@.len());
        assert("Java"@ != "TypeScript"@);
        assert("Java"@.len() != "TSX"@.len());
        assert("Java"@ != "TSX"@);
        assert("Java"@.len() != "JavaScript"@.len());
        assert("Java"@ != "JavaScript"@);
        lemma_two_kinds("method_declaration"@, "constructor_declaration"@, kind);
    }
    if lang == "C"@ {
        assert("C"@.len() != "Python"@.len());
        assert("C"@ != "Python"@);
        assert("C"@.len() != "Rust"@.len());
        assert("C"@ != "Rust"@);
        assert("C"@.len() != "Go"@.len());
        assert("C"@ != "Go"@);
        assert("C"@.len() != "TypeScript"@.len());
        assert("C"@ != "TypeScript"@);
        assert("C"@.len() != "TSX"@.len());
        assert("C"@ != "TSX"@);
        assert("C"@.len() != "JavaScript"@.len());
        assert("C"@ != "JavaScript"@);
        assert("C"@.len() != "Java"@.len());
        assert("C"@ != "Java"@);
        lemma_one_kind("function_definition"@, kind);
    }
    if lang == "C++"@ {
        assert("C++"@.len() != "Python"@.len());
        assert("C++"@ != "Python"@);
        assert("C++"@.len() != "Rust"@.len());
        assert("C++"@ != "Rust"@);
        assert("C++"@.len() != "Go"@.len());
        assert("C++"@ != "Go"@);
        assert("C++"@.len() != "TypeScript"@.len());
        assert("C++"@ != "TypeScript"@);
        assert("C++"@[0] != "TSX"@[0]);
        assert("C++"@ != "TSX"@);
        assert("C++"@.len() != "JavaScript"@.len());
        assert("C++"@ != "JavaScript"@);
        assert("C++"@.len() != "Java"@.len());
        assert("C++"@ != "Java"@);
        assert("C++"@.len() != "C"@.len());
        assert("C++"@ != "C"@);
        lemma_one_kind("function_definition"@, kind);
    }
    if lang == "Swift"@ {
        assert("Swift"@.len() != "Python"@.len());
        assert("Swift"@ != "Python"@);
        assert("Swift"@.len() != "Rust"@.len());
        assert("Swift"@ != "Rust"@);
        assert("Swift"@.len() != "Go"@.len());
        assert("Swift"@ != "Go"@);
        assert("Swift"@.len() != "TypeScript"@.len());
        assert("Swift"@ != "TypeScript"@);
        assert("Swift"@.len() != "TSX"@.len());
        assert("Swift"@ != "TSX"@);
        assert("Swift"@.len() != "JavaScript"@.len());
        assert("Swift"@ != "JavaScript"@);
        assert("Swift"@.len() != "Java"@.len());
        assert("Swift"@ != "Java"@);
        assert("Swift"@.len() != "C"@.len());
        assert("Swift"@ != "C"@);
        assert("Swift"@.len() != "C++"@.len());
        assert("Swift"@ != "C++"@);
        lemma_one_kind("function_declaration"@, kind);
    }
    if lang == "Lua"@ {
        assert("Lua"@.len() != "Python"@.len());
        assert("Lua"@ != "Python"@);
        assert("Lua"@.len() != "Rust"@.len());
        assert("Lua"@ != "Rust"@);
        assert("Lua"@.len() != "Go"@.len());
        assert("Lua"@ != "Go"@);
        assert("Lua"@.len() != "TypeScript"@.len());
        assert("Lua"@ != "TypeScript"@);
        assert("Lua"@[0] != "TSX"@[0]);
        assert("Lua"@ != "TSX"@);
        assert("Lua"@.len() != "JavaScript"@.len());
        assert("Lua"@ != "JavaScript"@);
        assert("Lua"@.len() != "Java"@.len());
        assert("Lua"@ != "Java"@);
        assert("Lua"@.len() != "C"@.len());
        assert("Lua"@ != "C"@);
        assert("Lua"@[0] != "C++"@[0]);
        assert("Lua"@ != "C++"@);
        assert("Lua"@.len() != "Swift"@.len());
        assert("Lua"@ != "Swift"@);
        lemma_one_kind("function_declaration"@, kind);
    }
    if lang == "ObjC"@ {
        assert("ObjC"@.len() != "Python"@.len());
        assert("ObjC"@ != "Python"@);
        assert("ObjC"@[0] != "Rust"@[0]);
        assert("ObjC"@ != "Rust"@);
        assert("ObjC"@.len() != "Go"@.len());
        assert("ObjC"@ != "Go"@);
        assert("ObjC"@.len() != "TypeScript"@.len());
        assert("ObjC"@ != "TypeScript"@);
        assert("ObjC"@.len() != "TSX"@.len());
        assert("ObjC"@ != "TSX"@);
        assert("ObjC"@.len() != "JavaScript"@.len());
        assert("ObjC"@ != "JavaScript"@);
        assert("ObjC"@[0] != "Java"@[0]);
        assert("ObjC"@ != "Java"@);
        assert("ObjC"@.len() != "C"@.len());
        assert("ObjC"@ != "C"@);
        assert("ObjC"@.len() != "C++"@.len());
        assert("ObjC"@ != "C++"@);
        assert("ObjC"@.len() != "Swift"@.len());
        assert("ObjC"@ != "Swift"@);
        assert("ObjC"@.len() != "Lua"@.len());
        assert("ObjC"@ != "Lua"@);
        lemma_two_kinds("function_definition"@, "method_definition"@, kind);
    }
    if lang == "Zig"@ {
        assert("Zig"@.len() != "Python"@.len());
        assert("Zig"@ != "Python"@);
        assert("Zig"@.len() != "Rust"@.len());
        assert("Zig"@ != "Rust"@);
        assert("Zig"@.len() != "Go"@.len());
        assert("Zig"@ != "Go"@);
        assert("Zig"@.len() != "TypeScript"@.len());
        assert("Zig"@ != "TypeScript"@);
        assert("Zig"@[0] != "TSX"@[0]);
        assert("Zig"@ != "TSX"@);
        assert("Zig"@.len() != "JavaScript"@.len());
        assert("Zig"@ != "JavaScript"@);
        assert("Zig"@.len() != "Java"@.len());
        assert("Zig"@ != "Java"@);
        assert("Zig"@.len() != "C"@.len());
        assert("Zig"@ != "C"@);
        assert("Zig"@[0] != "C++"@[0]);
        assert("Zig"@ != "C++"@);
        assert("Zig"@.len() != "Swift"@.len());
        assert("Zig"@ != "Swift"@);
        assert("Zig"@[0] != "Lua"@[0]);
        assert("Zig"@ != "Lua"@);
        assert("Zig"@.len() != "ObjC"@.len());
        assert("Zig"@ != "ObjC"@);
        lemma_one_kind("function_declaration"@, kind);
    }
}

/// Every node that is a function in its language is reported, with its own
/// rows, and only such nodes are: the `p`-th reported function is node
/// `function_indices(..)[p]`, and a function node `i` is one of them.
pub proof fn law_function_nodes_reported(nodes: Seq<SyntaxNode>, source: Seq<u8>, lang: Seq<char>, i: int)
    requires
        0 <= i < nodes.len(),
        is_function_node(nodes, lang, i),
    ensures
        exists|p: int|
            0 <= p < tree_functions(nodes, source, lang).len() && #[trigger] function_indices(
                nodes,
                lang,
                nodes.len() as int,
            )[p] == i && tree_functions(nodes, source, lang)[p] == (
                function_name(nodes, source, lang, i),
                nodes[i].start_row,
                nodes[i].end_row,
            ),
        forall|p: int|
            0 <= p < tree_functions(nodes, source, lang).len() ==> is_function_node(
                nodes,
                lang,
                #[trigger] function_indices(nodes, lang, nodes.len() as int)[p],
            ),
{
    lemma_function_indices(nodes, source, lang, nodes.len() as int);
    lemma_function_node_listed(nodes, lang, nodes.len() as int, i);
}

proof fn lemma_function_node_listed(nodes: Seq<SyntaxNode>, lang: Seq<char>, n: int, i: int)
    requires
        0 <= i < n,
        is_function_node(nodes, lang, i),
    ensures
        exists|p: int| 0 <= p < function_indices(nodes, lang, n).len() && #[trigger] function_indices(nodes, lang, n)[p] == i,
    decreases n,
{
    let ix = function_indices(nodes, lang, n);
    if i == n - 1 {
        assert(ix[ix.len() - 1] == i);
    } else {
        lemma_function_node_listed(nodes, lang, n - 1, i);
        let b = function_indices(nodes, lang, n - 1);
        let p = choose|p: int| 0 <= p < b.len() && #[trigger] b[p] == i;
        assert(ix[p] == b[p]);
    }
}

/// The first direct child of node `p` under the field `f`.
fn find_field_child(nodes: &Vec<NodeInfo>, p: usize, f: &str) -> (r: Option<usize>)
    requires
        p < nodes.len(),
    ensures
        match r {
            Some(c) => field_child(node_views(nodes@), p as int, f@) == Some(c as int) && p < c
                < nodes.len(),
            None => field_child(node_views(nodes@), p as int, f@) is None,
        },
{
    let ghost v = node_views(nodes@);
    let want = text(f);
    let pd = nodes[p].depth;
    let mut j = p + 1;
    while j < nodes.len()
        invariant
            p < j <= nodes.len(),
            v == node_views(nodes@),
            pd == v[p as int].depth,
            want@ == f@,
            field_child(v, p as int, f@) == field_child_from(v, p as int, f@, j as int),
        decreases nodes.len() - j,
    {
        let d = nodes[j].depth;
        assert(v[j as int] == nodes@[j as int]@);
        if d <= pd {
            return None;
        }
        let hit = match &nodes[j].field {
            Some(name) => d == pd + 1 && *name == want,
            None => false,
        };
        if hit {
            return Some(j);
        }
        j += 1;
    }
    None
}

/// The text of node `n` in `source`.
fn text_of(source: &[u8], n: &NodeInfo) -> (r: Option<String>)
    ensures
        match r {
            Some(t) => node_text(source@, n@) == Some(t@),
            None => node_text(source@, n@) is None,
        },
{
    if n.start_byte <= n.end_byte && n.end_byte <= source.len() {
        let bytes = slice_subrange(source, n.start_byte, n.end_byte);
        decode_utf8(bytes)
    } else {
        None
    }
}

fn text_or_anon(source: &[u8], n: &NodeInfo) -> (r: String)
    ensures
        r@ == text_or_anonymous(source@, n@),
{
    match text_of(source, n) {
        Some(t) => t,
        None => text("<anonymous>"),
    }
}

/// The name a C declarator chain leads to, starting at the node `first`.
fn c_declarator_name(nodes: &Vec<NodeInfo>, source: &[u8], first: usize) -> (r: String)
    requires
        first < nodes.len(),
    ensures
        r@ == declarator_name(node_views(nodes@), source@, first as int),
{
    let ghost v = node_views(nodes@);
    let mut d = first;
    loop
        invariant
            d < nodes.len(),
            v == node_views(nodes@),
            declarator_name(v, source@, first as int) == declarator_name(v, source@, d as int),
        decreases nodes.len() - d,
    {
        assert(v[d as int] == nodes@[d as int]@);
        let k = &nodes[d].kind;
        if *k == text("identifier") || *k == text("field_identifier") {
            return text_or_anon(source, &nodes[d]);
        }
        match find_field_child(nodes, d, "declarator") {
            Some(e) => {
                d = e;
            },
            None => {
                return text("<anonymous>");
            },
        }
    }
}

/// The pieces joined, as characters.
fn join_parts(parts: &Vec<Vec<char>>) -> (r: Vec<char>)
    ensures
        r@ == joined(parts_view(parts@)),
{
    let ghost ps = parts_view(parts@);
    let mut out: Vec<char> = Vec::new();
    let mut i: usize = 0;
    while i < parts.len()
        invariant
            i <= parts.len(),
            ps == parts_view(parts@),
            out@ == joined(ps.take(i as int)),
        decreases parts.len() - i,
    {
        let mut k: usize = 0;
        let ghost before = out@;
        while k < parts[i].len()
            invariant
                i < parts.len(),
                k <= parts@[i as int].len(),
                out@ == before + parts@[i as int]@.take(k as int),
            decreases parts@[i as int].len() - k,
        {
            out.push(parts[i][k]);
            k += 1;
            assert(out@ =~= before + parts@[i as int]@.take(k as int));
        }
        assert(ps.take(i + 1).drop_last() =~= ps.take(i as int));
        assert(parts@[i as int]@.take(k as int) =~= parts@[i as int]@);
        i += 1;
    }
    assert(ps.take(parts.len() as int) =~= ps);
    out
}

pub open spec fn parts_view(parts: Seq<Vec<char>>) -> Seq<Seq<char>> {
    Seq::new(parts.len(), |i: int| parts[i]@)
}

proof fn lemma_colon_suffix(l: Seq<char>)
    ensures
        has_suffix(l, ":"@) <==> (l.len() > 0 && l[l.len() - 1] == ':'),
{
    reveal_strlit(":");
    if l.len() > 0 && l[l.len() - 1] == ':' {
        assert(l.subrange(l.len() - 1, l.len() as int) =~= ":"@);
    }
    if has_suffix(l, ":"@) {
        assert(l.subrange(l.len() - 1, l.len() as int)[0] == ':');
    }
}

fn selector_result(parts: &Vec<Vec<char>>) -> (r: String)
    ensures
        r@ == (if parts.len() == 0 {
            anonymous()
        } else {
            joined(parts_view(parts@))
        }),
{
    if parts.len() == 0 {
        text("<anonymous>")
    } else {
        let joined_chars = join_parts(parts);
        string_of(joined_chars.as_slice())
    }
}

/// The selector of the Objective-C method node `m`.
fn objc_selector_of(nodes: &Vec<NodeInfo>, source: &[u8], m: usize) -> (r: String)
    requires
        m < nodes.len(),
    ensures
        r@ == objc_selector(node_views(nodes@), source@, m as int),
{
    let ghost v = node_views(nodes@);
    let md = nodes[m].depth;
    let mut parts: Vec<Vec<char>> = Vec::new();
    let mut j = m + 1;
    assert(parts_view(parts@) =~= Seq::<Seq<char>>::empty());
    while j < nodes.len()
        invariant
            m < j <= nodes.len(),
            v == node_views(nodes@),
            md == v[m as int].depth,
            selector_parts(v, source@, m as int, m + 1, seq![]) == selector_parts(
                v,
                source@,
                m as int,
                j as int,
                parts_view(parts@),
            ),
        decreases nodes.len() - j,
    {
        let ghost pv = parts_view(parts@);
        assert(v[j as int] == nodes@[j as int]@);
        let d = nodes[j].depth;
        if d <= md {
            return selector_result(&parts);
        }
        if d == md + 1 {
            let k = &nodes[j].kind;
            if *k == text("identifier") {
                match text_of(source, &nodes[j]) {
                    Some(t) => {
                        parts.push(chars_of(t.as_str()));
                        assert(parts_view(parts@) =~= pv.push(t@));
                    },
                    None => {},
                }
            } else if *k == text("method_parameter") && parts.len() > 0 {
                let n = parts.len();
                let last_len = parts[n - 1].len();
                let colon = last_len > 0 && parts[n - 1][last_len - 1] == ':';
                proof {
                    assert(pv.last() == parts@[n - 1]@);
                    lemma_colon_suffix(pv.last());
                }
                if !colon {
                    let ghost old_parts = parts@;
                    let mut last = parts.pop().unwrap();
                    assert(last@ == pv.last());
                    last.push(':');
                    parts.push(last);
                    proof {
                        reveal_strlit(":");
                        assert(pv.last() + ":"@ =~= pv.last().push(':'));
                        assert forall|i: int| 0 <= i < pv.len() implies #[trigger] parts_view(parts@)[i]
                            == pv.update(pv.len() - 1, pv.last() + ":"@)[i] by {
                            if i < pv.len() - 1 {
                                assert(parts@[i] == old_parts[i]);
                            }
                        }
                    }
                    assert(parts_view(parts@) =~= pv.update(pv.len() - 1, pv.last() + ":"@));
                }
            }
        }
        j += 1;
    }
    selector_result(&parts)
}

/// The name reported for the function node `i` of a file in language `lang`.
fn get_name(nodes: &Vec<NodeInfo>, source: &[u8], lang: &String, i: usize) -> (r: String)
    requires
        i < nodes.len(),
    ensures
        r@ == function_name(node_views(nodes@), source@, lang@, i as int),
{
    let ghost v = node_views(nodes@);
    assert(v[i as int] == nodes@[i as int]@);
    let kind = &nodes[i].kind;
    let objc = *lang == text("ObjC");
    if *lang == text("C") || *lang == text("C++") || (objc && *kind == text("function_definition")) {
        match find_field_child(nodes, i, "declarator") {
            Some(d) => c_declarator_name(nodes, source, d),
            None => text("<anonymous>"),
        }
    } else if objc && *kind == text("method_definition") {
        objc_selector_of(nodes, source, i)
    } else {
        match find_field_child(nodes, i, "name") {
            Some(c) => {
                assert(v[c as int] == nodes@[c as int]@);
                text_or_anon(source, &nodes[c])
            },
            None => text("<anonymous>"),
        }
    }
}

/// Whether node `i` is a variable declarator whose value is an arrow function.
fn arrow_declarator(nodes: &Vec<NodeInfo>, i: usize) -> (r: bool)
    requires
        i < nodes.len(),
    ensures
        r == is_arrow_declarator(node_views(nodes@), i as int),
{
    let ghost v = node_views(nodes@);
    assert(v[i as int] == nodes@[i as int]@);
    if nodes[i].kind != text("variable_declarator") {
        return false;
    }
    match find_field_child(nodes, i, "value") {
        Some(c) => {
            assert(v[c as int] == nodes@[c as int]@);
            nodes[c].kind == text("arrow_function")
        },
        None => false,
    }
}

/// The functions of a parsed file, in preorder.
pub fn find_functions(nodes: &Vec<NodeInfo>, source: &[u8], lang: &str) -> (r: Functions)
    ensures
        spans_view(r@) == tree_functions(node_views(nodes@), source@, lang@),
{
    let ghost v = node_views(nodes@);
    let key = text(lang);
    let ftypes = func_types(lang);
    let arrows = has_arrow_funcs(lang);
    let mut out: Functions = Vec::new();
    let mut i: usize = 0;
    while i < nodes.len()
        invariant
            i <= nodes.len(),
            v == node_views(nodes@),
            key@ == lang@,
            strings_view(ftypes@) == function_kinds(lang@),
            arrows == arrow_functions_count(lang@),
            spans_view(out@) == functions_upto(v, source@, lang@, i as int),
        decreases nodes.len() - i,
    {
        assert(v[i as int] == nodes@[i as int]@);
        let hit = contains_text(&ftypes, &nodes[i].kind) || (arrows && arrow_declarator(nodes, i));
        if hit {
            let name = get_name(nodes, source, &key, i);
            let ghost before = out@;
            out.push((name, nodes[i].start_row, nodes[i].end_row));
            assert(spans_view(out@) =~= spans_view(before).push(span_view(out@[out@.len() - 1])));
        }
        i += 1;
    }
    out
}

// ---------------------------------------------------------------- analysis

/// The language key a file is parsed with: `TSX` for `.tsx` files, else its
/// language.
pub open spec fn grammar_key(path: Seq<char>, lang: Seq<char>) -> Seq<char> {
    if has_suffix(path, ".tsx"@) {
        "TSX"@
    } else {
        lang
    }
}

/// The functions found in `source`: none where no grammar is known for the
/// language or no tree is built.
pub open spec fn source_functions(source: Seq<u8>, path: Seq<char>, lang: Seq<char>) -> Seq<FunctionSpan> {
    let key = grammar_key(path, lang);
    match grammar_for(key) {
        Some(g) => match parsed_nodes(g, source) {
            Some(nodes) => tree_functions(nodes, source, key),
            None => seq![],
        },
        None => seq![],
    }
}

/// Parses `source` for `lang`, returning `(total_lines, functions)`.
///
/// Each function entry is `(name, start_row, end_row)` with 0-based rows; the
/// span of a function is `end_row - start_row + 1` lines. `path` is used only
/// to select the TSX grammar for `.tsx` files. Where the language has no
/// grammar, only the line count is reported.
pub fn analyze_source(source: &[u8], path: &str, lang: &str) -> (r: (usize, Functions))
    ensures
        r.0 == line_count(source@),
        spans_view(r.1@) == source_functions(source@, path@, lang@),
        spans_in_row_order(spans_view(r.1@)),
        grammar_for(grammar_key(path@, lang@)) matches Some(g) ==> (parsed_nodes(g, source@) matches Some(
            nodes,
        ) ==> rows_ordered(nodes) && depths_in_preorder(nodes)),
{
    let total = count_lines(source);
    let tsx = ends_with_chars(&chars_of(path), &chars_of(".tsx"));
    let key: &str = if tsx {
        "TSX"
    } else {
        lang
    };
    assert(key@ == grammar_key(path@, lang@));
    let grammar = match language_for(key) {
        Some(g) => g,
        None => {
            let none: Functions = Vec::new();
            assert(spans_view(none@) =~= Seq::<FunctionSpan>::empty());
            return (total, none);
        },
    };
    match parse_nodes(grammar, source) {
        Some(nodes) => {
            let found = find_functions(&nodes, source, key);
            proof {
                law_functions_in_row_order(node_views(nodes@), source@, key@);
            }
            (total, found)
        },
        None => {
            let none: Functions = Vec::new();
            assert(spans_view(none@) =~= Seq::<FunctionSpan>::empty());
            (total, none)
        },
    }
}

} // verus!
