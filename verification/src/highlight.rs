//! Syntax highlighting: source text in, colored spans out.
//!
//! A grammar parses the text and its highlights query names what it finds; the names are
//! mapped to theme slots here. Dotenv and gitignore files have small line highlighters of
//! their own. Folding regions come from the same grammars.

use crate::path;
use crate::text;
use tree_sitter_highlight::{HighlightConfiguration, HighlightEvent, Highlighter};
use vstd::prelude::*;

verus! {

broadcast use vstd::seq_lib::group_seq_properties;

// ---------------------------------------------------------------------------
// Types
// ---------------------------------------------------------------------------

/// A slot of the theme's syntax palette.
#[derive(Debug, Clone, Copy, PartialEq, Eq, Hash, Structural)]
pub enum SynColor {
    Keyword,
    Str,
    Number,
    Comment,
    Function,
    Constant,
    Field,
    Operator,
    Identifier,
    Text,
}

/// One styled run of text: a byte range of the source and its color.
#[derive(Debug, Clone, Copy, PartialEq, Eq, Structural)]
pub struct Span {
    pub start: usize,
    pub end: usize,
    pub color: SynColor,
}

#[derive(Clone, Copy, PartialEq, Eq, Hash, Debug, Structural)]
pub enum Lang {
    Tsx,
    Ts,
    Js,
    Rust,
    Json,
    Markdown,
    Bash,
    Css,
    Scss,
    Yaml,
    Toml,
    Python,
    Html,
    Go,
    R,
    Latex,
    Env,
    Gitignore,
    PlainText,
}

/// An installable language pack, the unit the user opts into.
///
/// A language is highlighted once its pack is installed; until then its files are plain text.
#[derive(Clone, Copy)]
pub struct Pack {
    /// Stable id, as it is persisted.
    pub id: &'static str,
    /// The label that the install banner shows.
    pub name: &'static str,
}

/// One step of a highlighter's walk over the source.
#[derive(Debug, Clone, Copy, PartialEq, Eq, Structural)]
pub enum HlEvent {
    /// A highlight begins; the number is its place among the recognized capture names.
    Start(usize),
    /// The innermost highlight ends.
    End,
    /// A stretch of the source.
    Source(usize, usize),
}

/// What the highlighter needs to know of a language.
pub struct Recipe {
    pub language: tree_sitter::Language,
    pub highlights: String,
    pub injections: String,
    pub locals: String,
}

/// One node of a syntax tree.
pub struct SyntaxNode {
    pub start_row: usize,
    pub end_row: usize,
    pub start_byte: usize,
    pub kind: String,
    pub child_count: usize,
}

// ---------------------------------------------------------------------------
// Outside types and names
// ---------------------------------------------------------------------------

#[verifier::external_type_specification]
#[verifier::external_body]
pub struct ExLanguage(tree_sitter::Language);

#[verifier::external_type_specification]
#[verifier::external_body]
pub struct ExTree(tree_sitter::Tree);

/// The compiled grammar that ships under the given name.
pub uninterp spec fn bundled_language(name: Seq<char>) -> tree_sitter::Language;

/// The query text that ships under the given name.
pub uninterp spec fn bundled_query(name: Seq<char>) -> Seq<char>;

/// What a highlighter reports of `source`, or nothing where the queries do not fit the
/// language or the language cannot be loaded.
pub uninterp spec fn highlighter_events(
    language: tree_sitter::Language,
    highlights: Seq<char>,
    injections: Seq<char>,
    locals: Seq<char>,
    captures: Seq<Seq<char>>,
    source: Seq<char>,
) -> Option<Seq<HlEvent>>;

/// The nodes of the syntax tree, each before its children.
pub uninterp spec fn tree_nodes(tree: tree_sitter::Tree) -> Seq<NodeModel>;

/// The nodes of the syntax tree of `source`, or nothing where it cannot be parsed.
pub uninterp spec fn syntax_nodes(
    language: tree_sitter::Language,
    source: Seq<char>,
) -> Option<Seq<NodeModel>>;

// ---------------------------------------------------------------------------
// Model
// ---------------------------------------------------------------------------

/// A span over mathematical integers.
pub type SpanModel = (int, int, SynColor);

pub open spec fn spans_view(v: Seq<Span>) -> Seq<SpanModel> {
    Seq::new(v.len(), |i: int| (v[i].start as int, v[i].end as int, v[i].color))
}

/// Each span ends no earlier than it starts and before the next one starts.
pub open spec fn spans_ordered(s: Seq<SpanModel>) -> bool {
    &&& forall|i: int| 0 <= i < s.len() ==> (#[trigger] s[i]).0 <= s[i].1
    &&& forall|i: int, j: int| 0 <= i < j < s.len() ==> (#[trigger] s[i]).1 <= (#[trigger] s[j]).0
}

/// No span is empty.
pub open spec fn spans_nonempty(s: Seq<SpanModel>) -> bool {
    forall|i: int| 0 <= i < s.len() ==> (#[trigger] s[i]).0 < s[i].1
}

/// A node of a syntax tree over mathematical values.
#[verifier::ext_equal]
pub struct NodeModel {
    pub start_row: nat,
    pub end_row: nat,
    pub start_byte: nat,
    pub kind: Seq<char>,
    pub child_count: nat,
}

impl SyntaxNode {
    pub open spec fn model(self) -> NodeModel {
        NodeModel {
            start_row: self.start_row as nat,
            end_row: self.end_row as nat,
            start_byte: self.start_byte as nat,
            kind: self.kind@,
            child_count: self.child_count as nat,
        }
    }
}

/// The capture names that have a color of their own, in the order in which a highlighter
/// refers to them.
pub open spec fn captures() -> Seq<Seq<char>> {
    seq![
        "keyword"@,
        "string"@,
        "string.escape"@,
        "string.special"@,
        "number"@,
        "comment"@,
        "function"@,
        "function.method"@,
        "type"@,
        "constant"@,
        "constant.builtin"@,
        "property"@,
        "attribute"@,
        "tag"@,
        "variable"@,
        "variable.parameter"@,
        "operator"@,
        "punctuation"@,
        "punctuation.delimiter"@,
        "punctuation.special"@,
        "punctuation.bracket"@,
        "text.title"@,
        "text.literal"@,
        "text.reference"@,
        "text.uri"@,
        "embedded"@,
        "charset"@,
        "import"@,
        "keyframes"@,
        "media"@,
        "supports"@,
        "namespace"@,
    ]
}

/// The color of a capture name.
pub open spec fn color_of(name: Seq<char>) -> SynColor {
    if name == "keyword"@ || name == "charset"@ || name == "import"@ || name == "keyframes"@
        || name == "media"@ || name == "supports"@ || name == "namespace"@ {
        SynColor::Keyword
    } else if name == "string"@ || name == "string.escape"@ || name == "string.special"@ || name
        == "text.literal"@ {
        SynColor::Str
    } else if name == "number"@ || name == "constant.builtin"@ {
        SynColor::Number
    } else if name == "comment"@ {
        SynColor::Comment
    } else if name == "function"@ || name == "function.method"@ || name == "type"@ || name
        == "text.title"@ || name == "text.reference"@ || name == "text.uri"@ || name == "tag"@ {
        SynColor::Function
    } else if name == "constant"@ {
        SynColor::Constant
    } else if name == "property"@ || name == "attribute"@ {
        SynColor::Field
    } else if name == "operator"@ || name == "punctuation"@ || name == "punctuation.delimiter"@
        || name == "punctuation.special"@ || name == "punctuation.bracket"@ {
        SynColor::Operator
    } else {
        SynColor::Identifier
    }
}

/// What a walk over highlighter events has come to: the open highlights and the spans so far.
#[verifier::ext_equal]
pub struct HlState {
    pub open: Seq<usize>,
    pub spans: Seq<SpanModel>,
}

/// The spans of a walk: each stretch of source in the color of the innermost open highlight.
pub open spec fn hl_state(events: Seq<HlEvent>) -> HlState
    decreases events.len(),
{
    if events.len() == 0 {
        HlState { open: Seq::empty(), spans: Seq::empty() }
    } else {
        let s = hl_state(events.drop_last());
        match events.last() {
            HlEvent::Start(i) => HlState { open: s.open.push(i), spans: s.spans },
            HlEvent::End => HlState {
                open: if s.open.len() > 0 {
                    s.open.drop_last()
                } else {
                    s.open
                },
                spans: s.spans,
            },
            HlEvent::Source(a, b) => HlState {
                open: s.open,
                spans: s.spans.push(
                    (
                        a as int,
                        b as int,
                        if s.open.len() > 0 {
                            color_of(captures()[s.open.last() as int])
                        } else {
                            SynColor::Text
                        },
                    ),
                ),
            },
        }
    }
}

/// Every highlight refers to one of `n` capture names.
pub open spec fn starts_known(events: Seq<HlEvent>, n: nat) -> bool {
    forall|i: int|
        0 <= i < events.len() ==> ((#[trigger] events[i]) matches HlEvent::Start(k) ==> k < n)
}

/// Where the last stretch of source ends.
pub open spec fn sources_end(events: Seq<HlEvent>) -> int
    decreases events.len(),
{
    if events.len() == 0 {
        0
    } else {
        match events.last() {
            HlEvent::Source(_, b) => b as int,
            _ => sources_end(events.drop_last()),
        }
    }
}

/// The stretches of source are nonempty and follow each other without a gap from the start.
pub open spec fn sources_follow(events: Seq<HlEvent>) -> bool
    decreases events.len(),
{
    events.len() == 0 || (sources_follow(events.drop_last()) && (events.last() matches HlEvent::Source(
        a,
        b,
    ) ==> a == sources_end(events.drop_last()) && a < b))
}

/// The language of the file at `p`: by its name first, then by its extension.
pub open spec fn lang_of_path(p: Seq<char>) -> Lang {
    let name = path::file_name(p);
    let ext = path::extension(p);
    if name is Some && (name->0 == ".gitignore"@ || text::finishes_with(
        name->0,
        ".gitignore"@,
    )) {
        Lang::Gitignore
    } else if name is Some && (name->0 == ".env"@ || text::begins_with(name->0, ".env."@)) {
        Lang::Env
    } else if ext is None {
        Lang::PlainText
    } else {
        lang_of_extension(ext->0)
    }
}

pub open spec fn lang_of_extension(e: Seq<char>) -> Lang {
    if e == "tsx"@ {
        Lang::Tsx
    } else if e == "ts"@ {
        Lang::Ts
    } else if e == "js"@ || e == "jsx"@ || e == "mjs"@ || e == "cjs"@ {
        Lang::Js
    } else if e == "rs"@ {
        Lang::Rust
    } else if e == "json"@ {
        Lang::Json
    } else if e == "md"@ || e == "markdown"@ {
        Lang::Markdown
    } else if e == "sh"@ || e == "bash"@ || e == "zsh"@ {
        Lang::Bash
    } else if e == "css"@ {
        Lang::Css
    } else if e == "scss"@ {
        Lang::Scss
    } else if e == "yml"@ || e == "yaml"@ {
        Lang::Yaml
    } else if e == "toml"@ {
        Lang::Toml
    } else if e == "py"@ || e == "pyi"@ {
        Lang::Python
    } else if e == "html"@ || e == "htm"@ {
        Lang::Html
    } else if e == "go"@ {
        Lang::Go
    } else if e == "r"@ || e == "R"@ {
        Lang::R
    } else if e == "tex"@ || e == "sty"@ || e == "cls"@ || e == "latex"@ {
        Lang::Latex
    } else {
        Lang::PlainText
    }
}

/// The id of the pack that provides highlighting for a language; the built-in line
/// highlighters and plain text have none.
pub open spec fn pack_id(lang: Lang) -> Option<Seq<char>> {
    match lang {
        Lang::Tsx | Lang::Ts => Some("typescript"@),
        Lang::Js => Some("javascript"@),
        Lang::Rust => Some("rust"@),
        Lang::Json => Some("json"@),
        Lang::Markdown => Some("markdown"@),
        Lang::Bash => Some("shell"@),
        Lang::Css => Some("css"@),
        Lang::Scss => Some("scss"@),
        Lang::Yaml => Some("yaml"@),
        Lang::Toml => Some("toml"@),
        Lang::Python => Some("python"@),
        Lang::Html => Some("html"@),
        Lang::Go => Some("go"@),
        Lang::R => Some("r"@),
        Lang::Latex => Some("latex"@),
        Lang::Env | Lang::Gitignore | Lang::PlainText => None,
    }
}

/// The packs that can be installed, in display order: id and name.
pub open spec fn pack_list() -> Seq<(Seq<char>, Seq<char>)> {
    seq![
        ("json"@, "JSON"@),
        ("typescript"@, "TypeScript"@),
        ("javascript"@, "JavaScript"@),
        ("rust"@, "Rust"@),
        ("markdown"@, "Markdown"@),
        ("shell"@, "Shell script"@),
        ("css"@, "CSS"@),
        ("scss"@, "SCSS"@),
        ("yaml"@, "YAML"@),
        ("toml"@, "TOML"@),
        ("python"@, "Python"@),
        ("html"@, "HTML"@),
        ("go"@, "Go"@),
        ("r"@, "R"@),
        ("latex"@, "LaTeX"@),
        ("font"@, "Font preview"@),
    ]
}

/// The name of the first pack at or after `from` with the given id.
pub open spec fn pack_name(id: Seq<char>, from: int) -> Option<Seq<char>>
    decreases pack_list().len() - from,
{
    if from < 0 || from >= pack_list().len() {
        None
    } else if pack_list()[from].0 == id {
        Some(pack_list()[from].1)
    } else {
        pack_name(id, from + 1)
    }
}

/// The highlights query for LaTeX: command names, comments, operators, delimiters and
/// cross-references.
pub const LATEX_HIGHLIGHTS: &'static str = "
(command_name) @function
[(comment) (line_comment) (block_comment)] @comment
(operator) @operator
[(delimiter) (math_delimiter)] @punctuation
[(label_reference) (label_definition) (citation)] @text.reference
(placeholder) @variable.parameter
";

/// A recipe over mathematical values.
#[verifier::ext_equal]
pub struct RecipeModel {
    pub language: tree_sitter::Language,
    pub highlights: Seq<char>,
    pub injections: Seq<char>,
    pub locals: Seq<char>,
}

impl Recipe {
    pub open spec fn model(self) -> RecipeModel {
        RecipeModel {
            language: self.language,
            highlights: self.highlights@,
            injections: self.injections@,
            locals: self.locals@,
        }
    }
}

/// A recipe with a highlights query alone.
pub open spec fn plain_recipe(language: Seq<char>, query: Seq<char>) -> RecipeModel {
    RecipeModel {
        language: bundled_language(language),
        highlights: bundled_query(query),
        injections: Seq::empty(),
        locals: Seq::empty(),
    }
}

/// The recipe of a language, if it has a grammar.
///
/// The TypeScript query holds only what TypeScript adds, so the JavaScript query goes first.
/// SCSS is highlighted as CSS. Of Markdown only the block grammar is used.
pub open spec fn recipe_of(lang: Lang) -> Option<RecipeModel> {
    match lang {
        Lang::Tsx | Lang::Ts => Some(
            RecipeModel {
                language: bundled_language(
                    if lang == Lang::Tsx {
                        "tsx"@
                    } else {
                        "typescript"@
                    },
                ),
                highlights: bundled_query("javascript/highlights"@).push('\n') + bundled_query(
                    "typescript/highlights"@,
                ),
                injections: Seq::empty(),
                locals: bundled_query("typescript/locals"@),
            },
        ),
        Lang::Js => Some(
            RecipeModel {
                language: bundled_language("javascript"@),
                highlights: bundled_query("javascript/highlights"@),
                injections: bundled_query("javascript/injections"@),
                locals: bundled_query("javascript/locals"@),
            },
        ),
        Lang::Rust => Some(
            RecipeModel {
                language: bundled_language("rust"@),
                highlights: bundled_query("rust/highlights"@),
                injections: bundled_query("rust/injections"@),
                locals: Seq::empty(),
            },
        ),
        Lang::Json => Some(plain_recipe("json"@, "json/highlights"@)),
        Lang::Markdown => Some(plain_recipe("markdown"@, "markdown/highlights"@)),
        Lang::Bash => Some(plain_recipe("bash"@, "bash/highlights"@)),
        Lang::Css | Lang::Scss => Some(plain_recipe("css"@, "css/highlights"@)),
        Lang::Yaml => Some(plain_recipe("yaml"@, "yaml/highlights"@)),
        Lang::Toml => Some(plain_recipe("toml"@, "toml/highlights"@)),
        Lang::Python => Some(plain_recipe("python"@, "python/highlights"@)),
        Lang::Html => Some(plain_recipe("html"@, "html/highlights"@)),
        Lang::Go => Some(plain_recipe("go"@, "go/highlights"@)),
        Lang::R => Some(
            RecipeModel {
                language: bundled_language("r"@),
                highlights: bundled_query("r/highlights"@),
                injections: Seq::empty(),
                locals: bundled_query("r/locals"@),
            },
        ),
        Lang::Latex => Some(
            RecipeModel {
                language: bundled_language("latex"@),
                highlights: LATEX_HIGHLIGHTS@,
                injections: Seq::empty(),
                locals: Seq::empty(),
            },
        ),
        Lang::Env | Lang::Gitignore | Lang::PlainText => None,
    }
}

/// Whether the first character of the line that is not white space is `#`.
pub open spec fn is_comment(line: Seq<char>) -> bool {
    text::trim_start(line).len() > 0 && text::trim_start(line)[0] == '#'
}

/// The byte at which line `k` starts.
pub open spec fn line_offset(lines: Seq<Seq<char>>, k: int) -> int
    decreases k,
{
    if k <= 0 {
        0
    } else {
        line_offset(lines, k - 1) + text::blen(lines[k - 1]) + 1
    }
}

/// The spans of one line of a gitignore file that starts at byte `start`.
pub open spec fn gitignore_line(line: Seq<char>, start: int) -> Seq<SpanModel> {
    if is_comment(line) {
        seq![(start, start + text::blen(line), SynColor::Comment)]
    } else {
        Seq::empty()
    }
}

/// The spans of one line of a dotenv file that starts at byte `start`: a comment whole, or
/// else the key, the equals sign and the value.
pub open spec fn env_line(line: Seq<char>, start: int) -> Seq<SpanModel> {
    if is_comment(line) {
        seq![(start, start + text::blen(line), SynColor::Comment)]
    } else {
        match text::first_from(line, '=', 0) {
            None => Seq::empty(),
            Some(eq) => {
                let e = text::blen(line.take(eq)) as int;
                let n = text::blen(line) as int;
                (if e > 0 {
                    seq![(start, start + e, SynColor::Field)]
                } else {
                    Seq::<SpanModel>::empty()
                }) + seq![(start + e, start + e + 1, SynColor::Operator)] + (if n > e + 1 {
                    seq![(start + e + 1, start + n, SynColor::Str)]
                } else {
                    Seq::<SpanModel>::empty()
                })
            },
        }
    }
}

/// The spans of the first `n` lines, each line highlighted by itself.
pub open spec fn line_spans(lines: Seq<Seq<char>>, env: bool, n: int) -> Seq<SpanModel>
    decreases n,
{
    if n <= 0 {
        Seq::empty()
    } else {
        let start = line_offset(lines, n - 1);
        line_spans(lines, env, n - 1) + (if env {
            env_line(lines[n - 1], start)
        } else {
            gitignore_line(lines[n - 1], start)
        })
    }
}

/// The spans of `source` in the given language.
pub open spec fn highlight_spec(source: Seq<char>, lang: Lang) -> Seq<SpanModel> {
    let lines = text::split_on(source, '\n');
    if lang == Lang::Env || lang == Lang::Gitignore {
        line_spans(lines, lang == Lang::Env, lines.len() as int)
    } else {
        match recipe_of(lang) {
            None => Seq::empty(),
            Some(r) => match highlighter_events(
                r.language,
                r.highlights,
                r.injections,
                r.locals,
                captures(),
                source,
            ) {
                None => Seq::empty(),
                Some(events) => hl_state(events).spans,
            },
        }
    }
}

// ---------------------------------------------------------------------------
// Folding model
// ---------------------------------------------------------------------------

/// Whether a node is worth a fold: it has children, and either opens with a bracket or is
/// named like a block.
pub open spec fn foldable_kind(node: NodeModel, bytes: Seq<u8>) -> bool {
    let k = node.kind;
    let opens = node.start_byte < bytes.len() && {
        let b = bytes[node.start_byte as int];
        b == 123 || b == 91 || b == 40 || b == 60
    };
    node.child_count > 0 && (opens || text::occurs_in(k, "block"@) || text::occurs_in(k, "body"@)
        || text::occurs_in(k, "mapping"@) || text::occurs_in(k, "sequence"@) || text::occurs_in(
        k,
        "object"@,
    ) || text::occurs_in(k, "array"@) || text::occurs_in(k, "dictionary"@) || text::occurs_in(
        k,
        "table"@,
    ) || k == "element"@)
}

/// Every node ends on one of the first `lines` lines.
pub open spec fn rows_below(nodes: Seq<NodeModel>, lines: nat) -> bool {
    forall|k: int| 0 <= k < nodes.len() ==> (#[trigger] nodes[k]).end_row < lines
}

/// The node covers more than one line and is worth a fold.
pub open spec fn folds(node: NodeModel, bytes: Seq<u8>) -> bool {
    node.end_row > node.start_row && foldable_kind(node, bytes)
}

/// Start lines go up strictly.
pub open spec fn ascending(r: Seq<(usize, usize)>) -> bool {
    forall|i: int, j: int| 0 <= i < j < r.len() ==> (#[trigger] r[i]).0 < (#[trigger] r[j]).0
}

/// Some region of `r` starts at line `start` and reaches at least to line `end`.
pub open spec fn covers(r: Seq<(usize, usize)>, start: int, end: int) -> bool {
    exists|i: int| 0 <= i < r.len() && (#[trigger] r[i]).0 == start && r[i].1 >= end
}

/// One of the first `n` nodes folds and covers exactly the lines of the region.
pub open spec fn region_of_node(
    nodes: Seq<NodeModel>,
    bytes: Seq<u8>,
    n: int,
    region: (usize, usize),
) -> bool {
    exists|k: int|
        0 <= k < n && folds(#[trigger] nodes[k], bytes) && nodes[k].start_row == region.0
            && nodes[k].end_row == region.1
}

/// `r` holds, per line on which one of the first `n` nodes starts and folds, the largest
/// region that starts there, in line order.
pub open spec fn outermost_regions(
    nodes: Seq<NodeModel>,
    bytes: Seq<u8>,
    n: int,
    r: Seq<(usize, usize)>,
) -> bool {
    &&& ascending(r)
    &&& forall|i: int| 0 <= i < r.len() ==> region_of_node(nodes, bytes, n, #[trigger] r[i])
    &&& forall|k: int|
        0 <= k < n && folds(#[trigger] nodes[k], bytes) ==> covers(
            r,
            nodes[k].start_row as int,
            nodes[k].end_row as int,
        )
}

/// The regions that can be folded in `source`.
pub open spec fn fold_regions_spec(source: Seq<char>, lang: Lang, r: Seq<(usize, usize)>) -> bool {
    match recipe_of(lang) {
        None => r.len() == 0,
        Some(p) => match syntax_nodes(p.language, source) {
            None => r.len() == 0,
            Some(nodes) => outermost_regions(
                nodes,
                vstd::utf8::encode_utf8(source),
                nodes.len() as int,
                r,
            ),
        },
    }
}

// ---------------------------------------------------------------------------
// The grammars
// ---------------------------------------------------------------------------

/// The constants `LANGUAGE_TSX`, `LANGUAGE_TYPESCRIPT`, `HIGHLIGHTS_QUERY` and `LOCALS_QUERY` of
/// `tree-sitter-typescript`, under their names here.
#[verifier::external_body]
fn typescript_parts() -> (r: (tree_sitter::Language, tree_sitter::Language, &'static str, &'static str))
    ensures
        r.0 == bundled_language("tsx"@),
        r.1 == bundled_language("typescript"@),
        r.2@ == bundled_query("typescript/highlights"@),
        r.3@ == bundled_query("typescript/locals"@),
{
    (tree_sitter_typescript::LANGUAGE_TSX.into(), tree_sitter_typescript::LANGUAGE_TYPESCRIPT.into(), tree_sitter_typescript::HIGHLIGHTS_QUERY, tree_sitter_typescript::LOCALS_QUERY)
}

/// The constants `LANGUAGE`, `HIGHLIGHT_QUERY`, `INJECTIONS_QUERY` and `LOCALS_QUERY` of
/// `tree-sitter-javascript`, under their names here.
#[verifier::external_body]
fn javascript_parts() -> (r: (tree_sitter::Language, &'static str, &'static str, &'static str))
    ensures
        r.0 == bundled_language("javascript"@),
        r.1@ == bundled_query("javascript/highlights"@),
        r.2@ == bundled_query("javascript/injections"@),
        r.3@ == bundled_query("javascript/locals"@),
{
    (tree_sitter_javascript::LANGUAGE.into(), tree_sitter_javascript::HIGHLIGHT_QUERY, tree_sitter_javascript::INJECTIONS_QUERY, tree_sitter_javascript::LOCALS_QUERY)
}

/// The constants `LANGUAGE`, `HIGHLIGHTS_QUERY` and `INJECTIONS_QUERY` of `tree-sitter-rust`,
/// under their names here.
#[verifier::external_body]
fn rust_parts() -> (r: (tree_sitter::Language, &'static str, &'static str))
    ensures
        r.0 == bundled_language("rust"@),
        r.1@ == bundled_query("rust/highlights"@),
        r.2@ == bundled_query("rust/injections"@),
{
    (tree_sitter_rust::LANGUAGE.into(), tree_sitter_rust::HIGHLIGHTS_QUERY, tree_sitter_rust::INJECTIONS_QUERY)
}

/// The constants `LANGUAGE`, `HIGHLIGHTS_QUERY` and `LOCALS_QUERY` of `tree-sitter-r`, under
/// their names here.
#[verifier::external_body]
fn r_parts() -> (r: (tree_sitter::Language, &'static str, &'static str))
    ensures
        r.0 == bundled_language("r"@),
        r.1@ == bundled_query("r/highlights"@),
        r.2@ == bundled_query("r/locals"@),
{
    (tree_sitter_r::LANGUAGE.into(), tree_sitter_r::HIGHLIGHTS_QUERY, tree_sitter_r::LOCALS_QUERY)
}

/// The constants `LANGUAGE` and `HIGHLIGHTS_QUERY` of `tree-sitter-json`, under their names here.
#[verifier::external_body]
fn json_parts() -> (r: (tree_sitter::Language, &'static str))
    ensures
        r.0 == bundled_language("json"@),
        r.1@ == bundled_query("json/highlights"@),
{
    (tree_sitter_json::LANGUAGE.into(), tree_sitter_json::HIGHLIGHTS_QUERY)
}

/// The constants `LANGUAGE` and `HIGHLIGHT_QUERY_BLOCK` of `tree-sitter-md`, under their names here.
#[verifier::external_body]
fn markdown_parts() -> (r: (tree_sitter::Language, &'static str))
    ensures
        r.0 == bundled_language("markdown"@),
        r.1@ == bundled_query("markdown/highlights"@),
{
    (tree_sitter_md::LANGUAGE.into(), tree_sitter_md::HIGHLIGHT_QUERY_BLOCK)
}

/// The constants `LANGUAGE` and `HIGHLIGHT_QUERY` of `tree-sitter-bash`, under their names here.
#[verifier::external_body]
fn bash_parts() -> (r: (tree_sitter::Language, &'static str))
    ensures
        r.0 == bundled_language("bash"@),
        r.1@ == bundled_query("bash/highlights"@),
{
    (tree_sitter_bash::LANGUAGE.into(), tree_sitter_bash::HIGHLIGHT_QUERY)
}

/// The constants `LANGUAGE` and `HIGHLIGHTS_QUERY` of `tree-sitter-css`, under their names here.
#[verifier::external_body]
fn css_parts() -> (r: (tree_sitter::Language, &'static str))
    ensures
        r.0 == bundled_language("css"@),
        r.1@ == bundled_query("css/highlights"@),
{
    (tree_sitter_css::LANGUAGE.into(), tree_sitter_css::HIGHLIGHTS_QUERY)
}

/// The constants `LANGUAGE` and `HIGHLIGHTS_QUERY` of `tree-sitter-yaml`, under their names here.
#[verifier::external_body]
fn yaml_parts() -> (r: (tree_sitter::Language, &'static str))
    ensures
        r.0 == bundled_language("yaml"@),
        r.1@ == bundled_query("yaml/highlights"@),
{
    (tree_sitter_yaml::LANGUAGE.into(), tree_sitter_yaml::HIGHLIGHTS_QUERY)
}

/// The constants `LANGUAGE` and `HIGHLIGHTS_QUERY` of `tree-sitter-toml-ng`, under their names here.
#[verifier::external_body]
fn toml_parts() -> (r: (tree_sitter::Language, &'static str))
    ensures
        r.0 == bundled_language("toml"@),
        r.1@ == bundled_query("toml/highlights"@),
{
    (tree_sitter_toml_ng::LANGUAGE.into(), tree_sitter_toml_ng::HIGHLIGHTS_QUERY)
}

/// The constants `LANGUAGE` and `HIGHLIGHTS_QUERY` of `tree-sitter-python`, under their names here.
#[verifier::external_body]
fn python_parts() -> (r: (tree_sitter::Language, &'static str))
    ensures
        r.0 == bundled_language("python"@),
        r.1@ == bundled_query("python/highlights"@),
{
    (tree_sitter_python::LANGUAGE.into(), tree_sitter_python::HIGHLIGHTS_QUERY)
}

/// The constants `LANGUAGE` and `HIGHLIGHTS_QUERY` of `tree-sitter-html`, under their names here.
#[verifier::external_body]
fn html_parts() -> (r: (tree_sitter::Language, &'static str))
    ensures
        r.0 == bundled_language("html"@),
        r.1@ == bundled_query("html/highlights"@),
{
    (tree_sitter_html::LANGUAGE.into(), tree_sitter_html::HIGHLIGHTS_QUERY)
}

/// The constants `LANGUAGE` and `HIGHLIGHTS_QUERY` of `tree-sitter-go`, under their names here.
#[verifier::external_body]
fn go_parts() -> (r: (tree_sitter::Language, &'static str))
    ensures
        r.0 == bundled_language("go"@),
        r.1@ == bundled_query("go/highlights"@),
{
    (tree_sitter_go::LANGUAGE.into(), tree_sitter_go::HIGHLIGHTS_QUERY)
}

/// The constant `LANGUAGE` of `codebook-tree-sitter-latex`, under its name here.
#[verifier::external_body]
fn latex_language() -> (r: tree_sitter::Language)
    ensures
        r == bundled_language("latex"@),
{
    codebook_tree_sitter_latex::LANGUAGE.into()
}

pub open spec fn strs(v: Seq<&'static str>) -> Seq<Seq<char>> {
    Seq::new(v.len(), |i: int| v[i]@)
}

/// `tree_sitter_highlight`: a `HighlightConfiguration` made of the language and its queries,
/// configured with the capture names, and `Highlighter::highlight` on the source with it and
/// without injected languages. An item that is an error is left out.
///
/// Claimed: the result depends on the arguments alone; a highlight refers to one of the given
/// capture names; and the stretches of source follow each other from the start of the source.
#[verifier::external_body]
fn run_highlighter(recipe: Recipe, captures: &Vec<&'static str>, source: &str) -> (r: Option<
    Vec<HlEvent>,
>)
    ensures
        ({
            let m = recipe.model();
            let named = highlighter_events(
                m.language,
                m.highlights,
                m.injections,
                m.locals,
                strs(captures@),
                source@,
            );
            match r {
                Some(v) => named == Some(v@) && starts_known(v@, captures@.len())
                    && sources_follow(v@),
                None => named is None,
            }
        }),
{
    let (h, i, l) = (&recipe.highlights, &recipe.injections, &recipe.locals);
    let mut config = HighlightConfiguration::new(recipe.language, "kyde", h, i, l).ok()?;
    config.configure(captures);
    let mut highlighter = Highlighter::new();
    let events = highlighter.highlight(&config, source.as_bytes(), None, |_| None).ok()?;
    let convert = |event: HighlightEvent| match event {
        HighlightEvent::HighlightStart(h) => HlEvent::Start(h.0),
        HighlightEvent::HighlightEnd => HlEvent::End,
        HighlightEvent::Source { start, end } => HlEvent::Source(start, end),
    };
    Some(events.flatten().map(convert).collect())
}

/// `tree_sitter::Parser`: `set_language` and `parse` without an older tree.
///
/// Claimed: the nodes of the tree, or that there is none, depend on the arguments alone; and no
/// node ends on a row that the source does not have.
#[verifier::external_body]
fn parse_tree(language: &tree_sitter::Language, source: &str) -> (r: Option<tree_sitter::Tree>)
    ensures
        match r {
            Some(t) => syntax_nodes(*language, source@) == Some(tree_nodes(t)) && rows_below(
                tree_nodes(t),
                text::split_on(source@, '\n').len(),
            ),
            None => syntax_nodes(*language, source@) is None,
        },
{
    let mut parser = tree_sitter::Parser::new();
    parser.set_language(language).ok()?;
    parser.parse(source, None)
}

/// `tree_sitter::Node::descendant_count` of the root: how many nodes the tree has.
#[verifier::external_body]
fn node_count(tree: &tree_sitter::Tree) -> (n: usize)
    ensures
        n == tree_nodes(*tree).len(),
{
    tree.root_node().descendant_count()
}

/// `tree_sitter::TreeCursor::goto_descendant` from the root: node `i` of the tree.
#[verifier::external_body]
fn node_at(tree: &tree_sitter::Tree, i: usize) -> (r: SyntaxNode)
    requires
        i < tree_nodes(*tree).len(),
    ensures
        r.model() == tree_nodes(*tree)[i as int],
{
    let mut cursor = tree.walk();
    cursor.goto_descendant(i);
    let node = cursor.node();
    SyntaxNode {
        start_row: node.start_position().row,
        end_row: node.end_position().row,
        start_byte: node.start_byte(),
        kind: node.kind().to_string(),
        child_count: node.child_count(),
    }
}

// ---------------------------------------------------------------------------
// Languages
// ---------------------------------------------------------------------------

/// The capture names that have a color of their own.
pub fn capture_names() -> (r: Vec<&'static str>)
    ensures
        strs(r@) == captures(),
{
    let r: Vec<&'static str> = vec![
        "keyword",
        "string",
        "string.escape",
        "string.special",
        "number",
        "comment",
        "function",
        "function.method",
        "type",
        "constant",
        "constant.builtin",
        "property",
        "attribute",
        "tag",
        "variable",
        "variable.parameter",
        "operator",
        "punctuation",
        "punctuation.delimiter",
        "punctuation.special",
        "punctuation.bracket",
        "text.title",
        "text.literal",
        "text.reference",
        "text.uri",
        "embedded",
        "charset",
        "import",
        "keyframes",
        "media",
        "supports",
        "namespace",
    ];
    proof {
        assert(strs(r@) =~= captures());
    }
    r
}

/// The color of a capture name.
pub fn capture_color(name: &str) -> (r: SynColor)
    ensures
        r == color_of(name@),
{
    if text::str_eq(name, "keyword") || text::str_eq(name, "charset") || text::str_eq(
        name,
        "import",
    ) || text::str_eq(name, "keyframes") || text::str_eq(name, "media") || text::str_eq(
        name,
        "supports",
    ) || text::str_eq(name, "namespace") {
        SynColor::Keyword
    } else if text::str_eq(name, "string") || text::str_eq(name, "string.escape") || text::str_eq(
        name,
        "string.special",
    ) || text::str_eq(name, "text.literal") {
        SynColor::Str
    } else if text::str_eq(name, "number") || text::str_eq(name, "constant.builtin") {
        SynColor::Number
    } else if text::str_eq(name, "comment") {
        SynColor::Comment
    } else if text::str_eq(name, "function") || text::str_eq(name, "function.method")
        || text::str_eq(name, "type") || text::str_eq(name, "text.title") || text::str_eq(
        name,
        "text.reference",
    ) || text::str_eq(name, "text.uri") || text::str_eq(name, "tag") {
        SynColor::Function
    } else if text::str_eq(name, "constant") {
        SynColor::Constant
    } else if text::str_eq(name, "property") || text::str_eq(name, "attribute") {
        SynColor::Field
    } else if text::str_eq(name, "operator") || text::str_eq(name, "punctuation")
        || text::str_eq(name, "punctuation.delimiter") || text::str_eq(name, "punctuation.special")
        || text::str_eq(name, "punctuation.bracket") {
        SynColor::Operator
    } else {
        SynColor::Identifier
    }
}

/// The packs that can be installed, in display order.
pub fn packs() -> (r: Vec<Pack>)
    ensures
        r@.len() == pack_list().len(),
        forall|i: int|
            0 <= i < r@.len() ==> ((#[trigger] r@[i]).id@, r@[i].name@) == pack_list()[i],
{
    vec![
        Pack { id: "json", name: "JSON" },
        Pack { id: "typescript", name: "TypeScript" },
        Pack { id: "javascript", name: "JavaScript" },
        Pack { id: "rust", name: "Rust" },
        Pack { id: "markdown", name: "Markdown" },
        Pack { id: "shell", name: "Shell script" },
        Pack { id: "css", name: "CSS" },
        Pack { id: "scss", name: "SCSS" },
        Pack { id: "yaml", name: "YAML" },
        Pack { id: "toml", name: "TOML" },
        Pack { id: "python", name: "Python" },
        Pack { id: "html", name: "HTML" },
        Pack { id: "go", name: "Go" },
        Pack { id: "r", name: "R" },
        Pack { id: "latex", name: "LaTeX" },
        Pack { id: "font", name: "Font preview" },
    ]
}

/// The pack with the given id.
pub fn pack(id: &str) -> (r: Option<Pack>)
    ensures
        match r {
            Some(p) => p.id@ == id@ && pack_name(id@, 0) == Some(p.name@),
            None => pack_name(id@, 0) is None,
        },
{
    let list = packs();
    let mut i: usize = 0;
    while i < list.len()
        invariant
            i <= list.len(),
            list@.len() == pack_list().len(),
            forall|k: int|
                0 <= k < list@.len() ==> ((#[trigger] list@[k]).id@, list@[k].name@)
                    == pack_list()[k],
            pack_name(id@, i as int) == pack_name(id@, 0),
        decreases list.len() - i,
    {
        let p = list[i];
        proof {
            assert((list@[i as int].id@, list@[i as int].name@) == pack_list()[i as int]);
        }
        if text::str_eq(p.id, id) {
            return Some(p);
        }
        i += 1;
    }
    None
}

/// The language that a file extension stands for.
fn lang_for_extension(e: &str) -> (r: Lang)
    ensures
        r == lang_of_extension(e@),
{
    if text::str_eq(e, "tsx") {
        Lang::Tsx
    } else if text::str_eq(e, "ts") {
        Lang::Ts
    } else if text::str_eq(e, "js") || text::str_eq(e, "jsx") || text::str_eq(e, "mjs") || text::str_eq(e, "cjs") {
        Lang::Js
    } else if text::str_eq(e, "rs") {
        Lang::Rust
    } else if text::str_eq(e, "json") {
        Lang::Json
    } else if text::str_eq(e, "md") || text::str_eq(e, "markdown") {
        Lang::Markdown
    } else if text::str_eq(e, "sh") || text::str_eq(e, "bash") || text::str_eq(e, "zsh") {
        Lang::Bash
    } else if text::str_eq(e, "css") {
        Lang::Css
    } else if text::str_eq(e, "scss") {
        Lang::Scss
    } else if text::str_eq(e, "yml") || text::str_eq(e, "yaml") {
        Lang::Yaml
    } else if text::str_eq(e, "toml") {
        Lang::Toml
    } else if text::str_eq(e, "py") || text::str_eq(e, "pyi") {
        Lang::Python
    } else if text::str_eq(e, "html") || text::str_eq(e, "htm") {
        Lang::Html
    } else if text::str_eq(e, "go") {
        Lang::Go
    } else if text::str_eq(e, "r") || text::str_eq(e, "R") {
        Lang::R
    } else if text::str_eq(e, "tex") || text::str_eq(e, "sty") || text::str_eq(e, "cls") || text::str_eq(e, "latex") {
        Lang::Latex
    } else {
        Lang::PlainText
    }
}

impl Lang {
    /// The language of the file at `path`.
    pub fn from_path(path: &str) -> (r: Self)
        ensures
            r == lang_of_path(path@),
    {
        if let Some(name) = path::file_name_of(path) {
            let n = name.as_str();
            if text::str_eq(n, ".gitignore") || text::str_ends_with(n, ".gitignore") {
                return Lang::Gitignore;
            }
            if text::str_eq(n, ".env") || text::str_starts_with(n, ".env.") {
                return Lang::Env;
            }
        }
        match path::extension_of(path) {
            Some(e) => lang_for_extension(e.as_str()),
            None => Lang::PlainText,
        }
    }

    /// The installable pack that provides highlighting for this language, if any.
    pub fn pack(self) -> (r: Option<Pack>)
        ensures
            r is Some <==> pack_id(self) is Some,
            r matches Some(p) ==> pack_id(self) == Some(p.id@) && pack_name(p.id@, 0) == Some(
                p.name@,
            ),
    {
        let id: &str = match self {
            Lang::Tsx | Lang::Ts => "typescript",
            Lang::Js => "javascript",
            Lang::Rust => "rust",
            Lang::Json => "json",
            Lang::Markdown => "markdown",
            Lang::Bash => "shell",
            Lang::Css => "css",
            Lang::Scss => "scss",
            Lang::Yaml => "yaml",
            Lang::Toml => "toml",
            Lang::Python => "python",
            Lang::Html => "html",
            Lang::Go => "go",
            Lang::R => "r",
            Lang::Latex => "latex",
            Lang::Env | Lang::Gitignore | Lang::PlainText => {
                return None;
            },
        };
        proof {
            lemma_pack_known(self);
        }
        pack(id)
    }

    /// The recipe for highlighting this language, if it has a grammar.
    pub fn config(self) -> (r: Option<Recipe>)
        ensures
            match r {
                Some(p) => recipe_of(self) == Some(p.model()),
                None => recipe_of(self) is None,
            },
    {
        match self {
            Lang::Tsx | Lang::Ts => {
                let (tsx, ts, highlights, locals) = typescript_parts();
                let (_, base, _, _) = javascript_parts();
                let language = if self == Lang::Tsx {
                    tsx
                } else {
                    ts
                };
                let mut all = text::chars_of(base);
                all.push('\n');
                text::push_all(&mut all, highlights);
                Some(
                    Recipe {
                        language,
                        highlights: text::string_from_chars(&all),
                        injections: String::new(),
                        locals: locals.to_owned(),
                    },
                )
            },
            Lang::Js => {
                let (language, highlights, injections, locals) = javascript_parts();
                Some(
                    Recipe {
                        language,
                        highlights: highlights.to_owned(),
                        injections: injections.to_owned(),
                        locals: locals.to_owned(),
                    },
                )
            },
            Lang::Rust => {
                let (language, highlights, injections) = rust_parts();
                Some(
                    Recipe {
                        language,
                        highlights: highlights.to_owned(),
                        injections: injections.to_owned(),
                        locals: String::new(),
                    },
                )
            },
            Lang::R => {
                let (language, highlights, locals) = r_parts();
                Some(
                    Recipe {
                        language,
                        highlights: highlights.to_owned(),
                        injections: String::new(),
                        locals: locals.to_owned(),
                    },
                )
            },
            Lang::Json => Some(simple_recipe(json_parts())),
            Lang::Markdown => Some(simple_recipe(markdown_parts())),
            Lang::Bash => Some(simple_recipe(bash_parts())),
            Lang::Css | Lang::Scss => Some(simple_recipe(css_parts())),
            Lang::Yaml => Some(simple_recipe(yaml_parts())),
            Lang::Toml => Some(simple_recipe(toml_parts())),
            Lang::Python => Some(simple_recipe(python_parts())),
            Lang::Html => Some(simple_recipe(html_parts())),
            Lang::Go => Some(simple_recipe(go_parts())),
            Lang::Latex => Some(simple_recipe((latex_language(), LATEX_HIGHLIGHTS))),
            Lang::Env | Lang::Gitignore | Lang::PlainText => None,
        }
    }

    /// The grammar of this language, if it has one.
    pub fn grammar(self) -> (r: Option<tree_sitter::Language>)
        ensures
            match r {
                Some(g) => recipe_of(self) is Some && recipe_of(self)->0.language == g,
                None => recipe_of(self) is None,
            },
    {
        match self {
            Lang::Tsx => Some(typescript_parts().0),
            Lang::Ts => Some(typescript_parts().1),
            Lang::Js => Some(javascript_parts().0),
            Lang::Rust => Some(rust_parts().0),
            Lang::Json => Some(json_parts().0),
            Lang::Markdown => Some(markdown_parts().0),
            Lang::Bash => Some(bash_parts().0),
            Lang::Css | Lang::Scss => Some(css_parts().0),
            Lang::Yaml => Some(yaml_parts().0),
            Lang::Toml => Some(toml_parts().0),
            Lang::Python => Some(python_parts().0),
            Lang::Html => Some(html_parts().0),
            Lang::Go => Some(go_parts().0),
            Lang::R => Some(r_parts().0),
            Lang::Latex => Some(latex_language()),
            Lang::Env | Lang::Gitignore | Lang::PlainText => None,
        }
    }
}

/// Every pack that a language names is in the list.
proof fn lemma_pack_known(lang: Lang)
    ensures
        pack_id(lang) matches Some(id) ==> pack_name(id, 0) is Some,
{
    if pack_id(lang) is Some {
        let id = pack_id(lang)->0;
        assert(exists|k: int| 0 <= k < pack_list().len() && (#[trigger] pack_list()[k]).0 == id) by {
            let l = pack_list();
            assert(l[0].0 == "json"@ && l[1].0 == "typescript"@ && l[2].0 == "javascript"@
                && l[3].0 == "rust"@ && l[4].0 == "markdown"@ && l[5].0 == "shell"@ && l[6].0
                == "css"@ && l[7].0 == "scss"@ && l[8].0 == "yaml"@ && l[9].0 == "toml"@
                && l[10].0 == "python"@ && l[11].0 == "html"@ && l[12].0 == "go"@ && l[13].0
                == "r"@ && l[14].0 == "latex"@);
        }
        let k = choose|k: int| 0 <= k < pack_list().len() && (#[trigger] pack_list()[k]).0 == id;
        lemma_pack_found(id, 0, k);
    }
}

proof fn lemma_pack_found(id: Seq<char>, from: int, k: int)
    requires
        0 <= from <= k < pack_list().len(),
        pack_list()[k].0 == id,
    ensures
        pack_name(id, from) is Some,
    decreases k - from,
{
    if pack_list()[from].0 != id {
        lemma_pack_found(id, from + 1, k);
    }
}

/// A recipe with a highlights query alone.
fn simple_recipe(parts: (tree_sitter::Language, &'static str)) -> (r: Recipe)
    ensures
        r.language == parts.0,
        r.highlights@ == parts.1@,
        r.injections@ == Seq::<char>::empty(),
        r.locals@ == Seq::<char>::empty(),
{
    Recipe {
        language: parts.0,
        highlights: parts.1.to_owned(),
        injections: String::new(),
        locals: String::new(),
    }
}

// ---------------------------------------------------------------------------
// Highlighting
// ---------------------------------------------------------------------------

/// The spans that a highlighter's events amount to.
pub fn spans_of_events(events: &Vec<HlEvent>) -> (r: Vec<Span>)
    requires
        starts_known(events@, captures().len()),
    ensures
        spans_view(r@) == hl_state(events@).spans,
        sources_follow(events@) ==> spans_ordered(spans_view(r@)) && spans_nonempty(
            spans_view(r@),
        ),
{
    let names = capture_names();
    let mut spans: Vec<Span> = Vec::new();
    let mut stack: Vec<usize> = Vec::new();
    let mut i: usize = 0;
    proof {
        assert(spans_view(spans@) == Seq::<SpanModel>::empty());
        assert(names@.len() == strs(names@).len());
    }
    while i < events.len()
        invariant
            i <= events.len(),
            strs(names@) == captures(),
            names@.len() == captures().len(),
            starts_known(events@, captures().len()),
            spans_view(spans@) == hl_state(events@.take(i as int)).spans,
            stack@ == hl_state(events@.take(i as int)).open,
            forall|k: int| 0 <= k < stack@.len() ==> (#[trigger] stack@[k]) < names@.len(),
        decreases events.len() - i,
    {
        proof {
            assert(events@.take(i + 1).drop_last() == events@.take(i as int));
            assert(events@.take(i + 1).last() == events@[i as int]);
        }
        let ghost before = spans_view(spans@);
        match events[i] {
            HlEvent::Start(h) => {
                stack.push(h);
            },
            HlEvent::End => {
                let _ = stack.pop();
            },
            HlEvent::Source(start, end) => {
                let color = if stack.len() > 0 {
                    let idx: usize = stack[stack.len() - 1];
                    proof {
                        assert(strs(names@)[idx as int] == names@[idx as int]@);
                    }
                    capture_color(names[idx])
                } else {
                    SynColor::Text
                };
                spans.push(Span { start, end, color });
                proof {
                    assert(spans_view(spans@) == before.push((start as int, end as int, color)));
                }
            },
        }
        i += 1;
    }
    proof {
        assert(events@.take(events@.len() as int) == events@);
        if sources_follow(events@) {
            lemma_events_ordered(events@);
        }
    }
    spans
}

/// Stretches of source that follow each other give ordered spans.
proof fn lemma_events_ordered(events: Seq<HlEvent>)
    requires
        sources_follow(events),
    ensures
        spans_ordered(hl_state(events).spans),
        spans_nonempty(hl_state(events).spans),
        forall|i: int|
            0 <= i < hl_state(events).spans.len() ==> (#[trigger] hl_state(events).spans[i]).1
                <= sources_end(events),
    decreases events.len(),
{
    if events.len() > 0 {
        lemma_events_ordered(events.drop_last());
        let p = hl_state(events.drop_last()).spans;
        let s = hl_state(events).spans;
        assert forall|i: int, j: int| 0 <= i < j < s.len() implies (#[trigger] s[i]).1 <= (
        #[trigger] s[j]).0 by {
            assert(s[i] == p[i]);
        }
    }
}

/// Whether the first character of the line that is not white space is `#`.
fn comment_line(line: &str) -> (r: bool)
    ensures
        r == is_comment(line@),
{
    let chars = text::chars_of(line);
    let mut i: usize = 0;
    proof {
        assert(chars@.skip(0) == chars@);
    }
    while i < chars.len() && text::is_whitespace(chars[i])
        invariant
            i <= chars.len(),
            text::trim_start(chars@.skip(i as int)) == text::trim_start(chars@),
        decreases chars.len() - i,
    {
        proof {
            assert(chars@.skip(i as int).drop_first() == chars@.skip(i + 1));
        }
        i += 1;
    }
    proof {
        let rest = chars@.skip(i as int);
        assert(text::trim_start(rest) == rest);
        if i < chars.len() {
            assert(rest[0] == chars@[i as int]);
        }
    }
    i < chars.len() && chars[i] == '#'
}

/// A line lies within the text.
proof fn lemma_line_in_text(lines: Seq<Seq<char>>, k: int)
    requires
        0 <= k < lines.len(),
    ensures
        0 <= line_offset(lines, k),
        line_offset(lines, k) + text::blen(lines[k]) <= text::blen(text::join_with(lines, '\n')),
    decreases lines.len(),
{
    lemma_offset_nonneg(lines, k);
    let d = lines.drop_last();
    if lines.len() == 1 {
        assert(text::join_with(lines, '\n') == lines[0]);
    } else {
        let head = text::join_with(d, '\n');
        text::lemma_encode_push(head, '\n');
        text::lemma_char_len('\n');
        text::lemma_encode_concat(head.push('\n'), lines.last());
        if k < lines.len() - 1 {
            lemma_line_in_text(d, k);
            lemma_offset_same(lines, d, k);
        } else {
            lemma_line_in_text(d, k - 1);
            lemma_offset_same(lines, d, k - 1);
        }
    }
}

proof fn lemma_offset_nonneg(lines: Seq<Seq<char>>, k: int)
    ensures
        0 <= line_offset(lines, k),
    decreases k,
{
    if k > 0 {
        lemma_offset_nonneg(lines, k - 1);
    }
}

proof fn lemma_offset_same(a: Seq<Seq<char>>, b: Seq<Seq<char>>, k: int)
    requires
        k <= a.len(),
        k <= b.len(),
        forall|i: int| 0 <= i < k ==> a[i] == b[i],
    ensures
        line_offset(a, k) == line_offset(b, k),
    decreases k,
{
    if k > 0 {
        lemma_offset_same(a, b, k - 1);
    }
}

/// The spans of a file whose lines are highlighted one by one: a dotenv file or a gitignore
/// file.
fn highlight_lines(source: &str, env: bool) -> (r: Vec<Span>)
    ensures
        ({
            let lines = text::split_on(source@, '\n');
            spans_view(r@) == line_spans(lines, env, lines.len() as int)
        }),
        spans_ordered(spans_view(r@)),
        spans_nonempty(spans_view(r@)),
{
    let lines = text::split_str(source, '\n');
    let ghost ls = text::split_on(source@, '\n');
    let total: usize = source.as_bytes().len();
    let mut spans: Vec<Span> = Vec::new();
    let mut start: usize = 0;
    let mut k: usize = 0;
    proof {
        text::lemma_split_pieces(source@, '\n');
        text::lemma_join_split(source@, '\n');
        assert(spans_view(spans@) == Seq::<SpanModel>::empty());
    }
    while k < lines.len()
        invariant
            k <= lines.len(),
            ls == text::texts(lines@),
            text::join_with(ls, '\n') == source@,
            total == text::blen(source@),
            k < lines.len() ==> start == line_offset(ls, k as int),
            spans_view(spans@) == line_spans(ls, env, k as int),
        decreases lines.len() - k,
    {
        let line = lines[k].as_str();
        proof {
            assert(line@ == ls[k as int]);
            lemma_line_in_text(ls, k as int);
            if k + 1 < ls.len() {
                lemma_line_in_text(ls, k + 1);
            }
        }
        let len: usize = line.as_bytes().len();
        let ghost before = spans_view(spans@);
        if comment_line(line) {
            spans.push(Span { start, end: start + len, color: SynColor::Comment });
            proof {
                assert(spans_view(spans@) == before + seq![
                    (start as int, start + len, SynColor::Comment),
                ]);
            }
        } else if env {
            env_spans(line, start, &mut spans);
        } else {
            proof {
                assert(before + Seq::<SpanModel>::empty() == before);
            }
        }
        if k + 1 < lines.len() {
            start = start + len + 1;
        }
        k += 1;
    }
    proof {
        lemma_line_spans_ordered(ls, env, ls.len() as int);
    }
    spans
}

/// Adds the spans of a dotenv line that is no comment.
fn env_spans(line: &str, start: usize, spans: &mut Vec<Span>)
    requires
        start + text::blen(line@) <= usize::MAX,
        !is_comment(line@),
    ensures
        spans_view(final(spans)@) == spans_view(old(spans)@) + env_line(line@, start as int),
{
    let chars = text::chars_of(line);
    let ghost before = spans_view(spans@);
    match text::find_char(&chars, '=', 0) {
        None => {
            proof {
                assert(before + Seq::<SpanModel>::empty() == before);
            }
        },
        Some(eq) => {
            let len: usize = line.as_bytes().len();
            let key = text::substring(&chars, 0, eq);
            let e: usize = key.as_str().as_bytes().len();
            proof {
                assert(line@.take(eq as int) == chars@.subrange(0, eq as int));
                assert(line@ == line@.take(eq as int).push('=') + line@.skip(eq + 1));
                text::lemma_encode_push(line@.take(eq as int), '=');
                text::lemma_char_len('=');
                text::lemma_encode_concat(line@.take(eq as int).push('='), line@.skip(eq + 1));
            }
            if e > 0 {
                spans.push(Span { start, end: start + e, color: SynColor::Field });
            }
            spans.push(Span { start: start + e, end: start + e + 1, color: SynColor::Operator });
            if len > e + 1 {
                spans.push(Span { start: start + e + 1, end: start + len, color: SynColor::Str });
            }
            proof {
                assert(spans_view(spans@) =~= before + env_line(line@, start as int));
            }
        },
    }
}

/// The spans of lines are ordered, and those of the first lines end before the next line.
proof fn lemma_line_spans_ordered(lines: Seq<Seq<char>>, env: bool, n: int)
    requires
        0 <= n <= lines.len(),
    ensures
        spans_ordered(line_spans(lines, env, n)),
        spans_nonempty(line_spans(lines, env, n)),
        forall|i: int|
            0 <= i < line_spans(lines, env, n).len() ==> (#[trigger] line_spans(
                lines,
                env,
                n,
            )[i]).1 < line_offset(lines, n),
    decreases n,
{
    if n > 0 {
        lemma_line_spans_ordered(lines, env, n - 1);
        let p = line_spans(lines, env, n - 1);
        let start = line_offset(lines, n - 1);
        let line = lines[n - 1];
        let q = if env {
            env_line(line, start)
        } else {
            gitignore_line(line, start)
        };
        let s = line_spans(lines, env, n);
        assert(s == p + q);
        if env && !is_comment(line) && text::first_from(line, '=', 0) is Some {
            lemma_first_from(line, '=', 0);
            let eq = text::first_from(line, '=', 0)->0;
            assert(line == line.take(eq).push('=') + line.skip(eq + 1));
            text::lemma_encode_push(line.take(eq), '=');
            text::lemma_char_len('=');
            text::lemma_encode_concat(line.take(eq).push('='), line.skip(eq + 1));
        }
        text::lemma_blen_bounds(line);
        if is_comment(line) {
            lemma_trim_start_len(line);
        }
        assert forall|i: int| 0 <= i < q.len() implies start <= (#[trigger] q[i]).0 < q[i].1
            <= start + text::blen(line) by {}
        assert forall|i: int, j: int| 0 <= i < j < q.len() implies (#[trigger] q[i]).1 <= (
        #[trigger] q[j]).0 by {}
        assert forall|i: int| 0 <= i < s.len() implies (#[trigger] s[i]).0 < s[i].1 && s[i].1
            < line_offset(lines, n) by {
            if i < p.len() {
                assert(s[i] == p[i]);
            } else {
                assert(s[i] == q[i - p.len()]);
            }
        }
        assert forall|i: int, j: int| 0 <= i < j < s.len() implies (#[trigger] s[i]).1 <= (
        #[trigger] s[j]).0 by {
            if j < p.len() {
                assert(s[i] == p[i] && s[j] == p[j]);
            } else if i < p.len() {
                assert(s[i] == p[i] && s[j] == q[j - p.len()]);
            } else {
                assert(s[i] == q[i - p.len()] && s[j] == q[j - p.len()]);
            }
        }
    }
}

/// Trimming makes a text no longer.
proof fn lemma_trim_start_len(s: Seq<char>)
    ensures
        text::trim_start(s).len() <= s.len(),
    decreases s.len(),
{
    if s.len() > 0 && text::is_white_space(s[0]) {
        lemma_trim_start_len(s.drop_first());
    }
}

/// What `first_from` finds is there.
proof fn lemma_first_from(s: Seq<char>, c: char, from: int)
    ensures
        text::first_from(s, c, from) matches Some(i) ==> from <= i < s.len() && 0 <= i && s[i] == c,
    decreases s.len() - from,
{
    if 0 <= from < s.len() && s[from] != c {
        lemma_first_from(s, c, from + 1);
    }
}

/// Highlights `source` in the given language into ordered, non-overlapping spans. What lies
/// between spans has the default color.
pub fn highlight(source: &str, lang: Lang) -> (r: Vec<Span>)
    ensures
        spans_view(r@) == highlight_spec(source@, lang),
        spans_ordered(spans_view(r@)),
        spans_nonempty(spans_view(r@)),
{
    if lang == Lang::Env {
        return highlight_lines(source, true);
    }
    if lang == Lang::Gitignore {
        return highlight_lines(source, false);
    }
    let none: Vec<Span> = Vec::new();
    proof {
        assert(spans_view(none@) == Seq::<SpanModel>::empty());
    }
    let recipe = match lang.config() {
        Some(recipe) => recipe,
        None => {
            return none;
        },
    };
    let names = capture_names();
    proof {
        assert(names@.len() == strs(names@).len());
    }
    match run_highlighter(recipe, &names, source) {
        Some(events) => spans_of_events(&events),
        None => none,
    }
}

// ---------------------------------------------------------------------------
// Folding
// ---------------------------------------------------------------------------

/// Whether a node is worth a fold.
pub fn is_foldable(node: &SyntaxNode, source: &[u8]) -> (r: bool)
    ensures
        r == foldable_kind(node.model(), source@),
{
    if node.child_count == 0 {
        return false;
    }
    let opens = node.start_byte < source.len() && {
        let b: u8 = source[node.start_byte];
        b == 123 || b == 91 || b == 40 || b == 60
    };
    let kind = node.kind.as_str();
    opens || text::str_contains(kind, "block") || text::str_contains(kind, "body")
        || text::str_contains(kind, "mapping") || text::str_contains(kind, "sequence")
        || text::str_contains(kind, "object") || text::str_contains(kind, "array")
        || text::str_contains(kind, "dictionary") || text::str_contains(kind, "table")
        || text::str_eq(kind, "element")
}

/// `b` covers all that `a` covers and the region `x`, and holds nothing but `x` and what `a`
/// holds.
pub open spec fn grows_by(a: Seq<(usize, usize)>, b: Seq<(usize, usize)>, x: (usize, usize)) -> bool {
    &&& covers(b, x.0 as int, x.1 as int)
    &&& forall|s: int, e: int| #[trigger] covers(a, s, e) ==> covers(b, s, e)
    &&& forall|i: int| 0 <= i < b.len() ==> (#[trigger] b[i]) == x || a.contains(b[i])
}

proof fn lemma_widen(a: Seq<(usize, usize)>, i: int, x: (usize, usize))
    requires
        ascending(a),
        0 <= i < a.len(),
        a[i].0 == x.0,
        a[i].1 < x.1,
    ensures
        ascending(a.update(i, x)),
        grows_by(a, a.update(i, x), x),
{
    let b = a.update(i, x);
    assert(b[i] == x);
    assert forall|s: int, e: int| #[trigger] covers(a, s, e) implies covers(b, s, e) by {
        let k = choose|k: int| 0 <= k < a.len() && (#[trigger] a[k]).0 == s && a[k].1 >= e;
        assert(b[k].0 == s && b[k].1 >= e);
    }
    assert forall|k: int| 0 <= k < b.len() implies (#[trigger] b[k]) == x || a.contains(b[k]) by {
        if k != i {
            assert(b[k] == a[k]);
        }
    }
}

proof fn lemma_insert(a: Seq<(usize, usize)>, i: int, x: (usize, usize))
    requires
        ascending(a),
        0 <= i <= a.len(),
        i > 0 ==> a[i - 1].0 < x.0,
        forall|j: int| i <= j < a.len() ==> (#[trigger] a[j]).0 > x.0,
    ensures
        ascending(a.insert(i, x)),
        grows_by(a, a.insert(i, x), x),
{
    let b = a.insert(i, x);
    assert(b[i] == x);
    assert forall|j: int, k: int| 0 <= j < k < b.len() implies (#[trigger] b[j]).0 < (
    #[trigger] b[k]).0 by {
        if j < i {
            assert(b[j] == a[j]);
            assert(j < i - 1 ==> a[j].0 < a[i - 1].0);
        } else if j > i {
            assert(b[j] == a[j - 1]);
        }
        if k < i {
            assert(b[k] == a[k]);
        } else if k > i {
            assert(b[k] == a[k - 1]);
        }
    }
    assert forall|s: int, e: int| #[trigger] covers(a, s, e) implies covers(b, s, e) by {
        let k = choose|k: int| 0 <= k < a.len() && (#[trigger] a[k]).0 == s && a[k].1 >= e;
        if k < i {
            assert(b[k] == a[k]);
        } else {
            assert(b[k + 1] == a[k]);
        }
    }
    assert forall|k: int| 0 <= k < b.len() implies (#[trigger] b[k]) == x || a.contains(b[k]) by {
        if k < i {
            assert(b[k] == a[k]);
        } else if k > i {
            assert(b[k] == a[k - 1]);
        }
    }
}

/// Adds a region to `out`, which keeps the largest region per start line, in line order.
fn add_region(out: &mut Vec<(usize, usize)>, start: usize, end: usize)
    requires
        ascending(old(out)@),
    ensures
        ascending(final(out)@),
        grows_by(old(out)@, final(out)@, (start, end)),
{
    let ghost before = out@;
    let mut i: usize = out.len();
    while i > 0 && out[i - 1].0 > start
        invariant
            i <= out.len(),
            out@ == before,
            forall|j: int| i <= j < out@.len() ==> (#[trigger] out@[j]).0 > start,
        decreases i,
    {
        i -= 1;
    }
    if i > 0 && out[i - 1].0 == start {
        if out[i - 1].1 < end {
            proof {
                lemma_widen(before, i - 1, (start, end));
            }
            out.set(i - 1, (start, end));
        } else {
            proof {
                assert(before[i - 1].0 == start);
                assert(covers(before, start as int, end as int));
            }
        }
    } else {
        proof {
            lemma_insert(before, i as int, (start, end));
        }
        out.insert(i, (start, end));
    }
}

/// The regions that can be folded in `source`, as 0-based lines: folding `start` hides
/// `start + 1` to `end`. There is one region per start line, the largest, and none in a source of
/// one line.
pub fn fold_regions(source: &str, lang: Lang) -> (r: Vec<(usize, usize)>)
    ensures
        fold_regions_spec(source@, lang, r@),
        forall|i: int|
            0 <= i < r@.len() ==> (#[trigger] r@[i]).0 < r@[i].1 < text::split_on(
                source@,
                '\n',
            ).len(),
        !source@.contains('\n') ==> r@.len() == 0,
{
    let grammar = match lang.grammar() {
        Some(g) => g,
        None => {
            return Vec::new();
        },
    };
    let tree = match parse_tree(&grammar, source) {
        Some(t) => t,
        None => {
            return Vec::new();
        },
    };
    let nodes = all_nodes(&tree);
    let r = regions_of_nodes(&nodes, source.as_bytes());
    proof {
        let ms = tree_nodes(tree);
        let bytes = vstd::utf8::encode_utf8(source@);
        assert forall|i: int| 0 <= i < r@.len() implies (#[trigger] r@[i]).1 < text::split_on(
            source@,
            '\n',
        ).len() by {
            assert(region_of_node(ms, bytes, ms.len() as int, r@[i]));
        }
        if !source@.contains('\n') {
            text::lemma_split_without(source@, '\n');
            if r@.len() > 0 {
                assert(r@[0].0 < r@[0].1);
            }
        }
    }
    r
}

pub open spec fn node_models(v: Seq<SyntaxNode>) -> Seq<NodeModel> {
    Seq::new(v.len(), |i: int| v[i].model())
}

/// The nodes of a syntax tree, each before its children.
fn all_nodes(tree: &tree_sitter::Tree) -> (r: Vec<SyntaxNode>)
    ensures
        node_models(r@) == tree_nodes(*tree),
{
    let n: usize = node_count(tree);
    let mut nodes: Vec<SyntaxNode> = Vec::new();
    let mut i: usize = 0;
    while i < n
        invariant
            i <= n,
            n == tree_nodes(*tree).len(),
            node_models(nodes@) == tree_nodes(*tree).take(i as int),
        decreases n - i,
    {
        let ghost before = node_models(nodes@);
        let node = node_at(tree, i);
        let ghost m = node.model();
        nodes.push(node);
        proof {
            assert(node_models(nodes@) == before.push(m));
            assert(tree_nodes(*tree).take(i + 1) == before.push(m));
        }
        i += 1;
    }
    proof {
        assert(tree_nodes(*tree).take(n as int) == tree_nodes(*tree));
    }
    nodes
}

/// The largest region per start line among the nodes that fold, in line order.
pub fn regions_of_nodes(nodes: &Vec<SyntaxNode>, source: &[u8]) -> (r: Vec<(usize, usize)>)
    ensures
        outermost_regions(node_models(nodes@), source@, nodes@.len() as int, r@),
        forall|i: int| 0 <= i < r@.len() ==> (#[trigger] r@[i]).0 < r@[i].1,
{
    let mut out: Vec<(usize, usize)> = Vec::new();
    let ghost ms = node_models(nodes@);
    let mut i: usize = 0;
    while i < nodes.len()
        invariant
            i <= nodes.len(),
            ms == node_models(nodes@),
            outermost_regions(ms, source@, i as int, out@),
        decreases nodes.len() - i,
    {
        proof {
            lemma_more_nodes(ms, source@, i as int, out@);
        }
        let node = &nodes[i];
        if node.end_row > node.start_row && is_foldable(node, source) {
            let ghost before = out@;
            add_region(&mut out, node.start_row, node.end_row);
            proof {
                lemma_next_region(
                    ms,
                    source@,
                    i as int,
                    before,
                    out@,
                    (node.start_row, node.end_row),
                );
            }
        }
        i += 1;
    }
    proof {
        assert forall|j: int| 0 <= j < out@.len() implies (#[trigger] out@[j]).0 < out@[j].1 by {
            assert(region_of_node(ms, source@, nodes@.len() as int, out@[j]));
        }
    }
    out
}

/// A region of the first nodes is a region of one node more.
proof fn lemma_more_nodes(nodes: Seq<NodeModel>, bytes: Seq<u8>, n: int, r: Seq<(usize, usize)>)
    requires
        outermost_regions(nodes, bytes, n, r),
    ensures
        forall|i: int| 0 <= i < r.len() ==> region_of_node(nodes, bytes, n + 1, #[trigger] r[i]),
        !folds(nodes[n], bytes) ==> outermost_regions(nodes, bytes, n + 1, r),
{
    assert forall|i: int| 0 <= i < r.len() implies region_of_node(
        nodes,
        bytes,
        n + 1,
        #[trigger] r[i],
    ) by {
        assert(region_of_node(nodes, bytes, n, r[i]));
        let k = choose|k: int|
            0 <= k < n && folds(#[trigger] nodes[k], bytes) && nodes[k].start_row == r[i].0
                && nodes[k].end_row == r[i].1;
        assert(folds(nodes[k], bytes));
    }
}

/// One foldable node more.
proof fn lemma_next_region(
    nodes: Seq<NodeModel>,
    bytes: Seq<u8>,
    n: int,
    a: Seq<(usize, usize)>,
    b: Seq<(usize, usize)>,
    x: (usize, usize),
)
    requires
        0 <= n < nodes.len(),
        folds(nodes[n], bytes),
        nodes[n].start_row == x.0,
        nodes[n].end_row == x.1,
        outermost_regions(nodes, bytes, n, a),
        ascending(b),
        grows_by(a, b, x),
    ensures
        outermost_regions(nodes, bytes, n + 1, b),
{
    lemma_more_nodes(nodes, bytes, n, a);
    assert(region_of_node(nodes, bytes, n + 1, x)) by {
        assert(folds(nodes[n], bytes));
    }
    assert forall|i: int| 0 <= i < b.len() implies region_of_node(
        nodes,
        bytes,
        n + 1,
        #[trigger] b[i],
    ) by {
        if b[i] != x {
            let j = choose|j: int| 0 <= j < a.len() && a[j] == b[i];
            assert(region_of_node(nodes, bytes, n + 1, a[j]));
        }
    }
    assert forall|k: int| 0 <= k < n + 1 && folds(#[trigger] nodes[k], bytes) implies covers(
        b,
        nodes[k].start_row as int,
        nodes[k].end_row as int,
    ) by {
        if k < n {
            assert(covers(a, nodes[k].start_row as int, nodes[k].end_row as int));
        }
    }
}

// ---------------------------------------------------------------------------
// The tables, read from their results
// ---------------------------------------------------------------------------

/// Which captures have which slot of the palette, slot by slot: no name but these has it.
pub proof fn lemma_capture_slots(name: Seq<char>)
    ensures
        color_of(name) == SynColor::Keyword <==> (name == "keyword"@ || name == "charset"@ || name == "import"@ || name == "keyframes"@ || name == "media"@ || name == "supports"@ || name == "namespace"@),
        color_of(name) == SynColor::Str <==> (name == "string"@ || name == "string.escape"@ || name == "string.special"@ || name == "text.literal"@),
        color_of(name) == SynColor::Number <==> (name == "number"@ || name == "constant.builtin"@),
        color_of(name) == SynColor::Comment <==> (name == "comment"@),
        color_of(name) == SynColor::Function <==> (name == "function"@ || name == "function.method"@ || name == "type"@ || name == "text.title"@ || name == "text.reference"@ || name == "text.uri"@ || name == "tag"@),
        color_of(name) == SynColor::Constant <==> (name == "constant"@),
        color_of(name) == SynColor::Field <==> (name == "property"@ || name == "attribute"@),
        color_of(name) == SynColor::Operator <==> (name == "operator"@ || name == "punctuation"@ || name == "punctuation.delimiter"@ || name == "punctuation.special"@ || name == "punctuation.bracket"@),
        color_of(name) != SynColor::Text,
{
    reveal_strlit("keyword");
    assert("keyword"@.len() == 7 && "keyword"@[0] == 'k' && "keyword"@[1] == 'e' && "keyword"@[2] == 'y' && "keyword"@[3] == 'w' && "keyword"@[4] == 'o' && "keyword"@[5] == 'r' && "keyword"@[6] == 'd');
    reveal_strlit("charset");
    assert("charset"@.len() == 7 && "charset"@[0] == 'c' && "charset"@[1] == 'h' && "charset"@[2] == 'a' && "charset"@[3] == 'r' && "charset"@[4] == 's' && "charset"@[5] == 'e' && "charset"@[6] == 't');
    reveal_strlit("import");
    assert("import"@.len() == 6 && "import"@[0] == 'i' && "import"@[1] == 'm' && "import"@[2] == 'p' && "import"@[3] == 'o' && "import"@[4] == 'r' && "import"@[5] == 't');
    reveal_strlit("keyframes");
    assert("keyframes"@.len() == 9 && "keyframes"@[0] == 'k' && "keyframes"@[1] == 'e' && "keyframes"@[2] == 'y' && "keyframes"@[3] == 'f' && "keyframes"@[4] == 'r' && "keyframes"@[5] == 'a' && "keyframes"@[6] == 'm' && "keyframes"@[7] == 'e' && "keyframes"@[8] == 's');
    reveal_strlit("media");
    assert("media"@.len() == 5 && "media"@[0] == 'm' && "media"@[1] == 'e' && "media"@[2] == 'd' && "media"@[3] == 'i' && "media"@[4] == 'a');
    reveal_strlit("supports");
    assert("supports"@.len() == 8 && "supports"@[0] == 's' && "supports"@[1] == 'u' && "supports"@[2] == 'p' && "supports"@[3] == 'p' && "supports"@[4] == 'o' && "supports"@[5] == 'r' && "supports"@[6] == 't' && "supports"@[7] == 's');
    reveal_strlit("namespace");
    assert("namespace"@.len() == 9 && "namespace"@[0] == 'n' && "namespace"@[1] == 'a' && "namespace"@[2] == 'm' && "namespace"@[3] == 'e' && "namespace"@[4] == 's' && "namespace"@[5] == 'p' && "namespace"@[6] == 'a' && "namespace"@[7] == 'c' && "namespace"@[8] == 'e');
    reveal_strlit("string");
    assert("string"@.len() == 6 && "string"@[0] == 's' && "string"@[1] == 't' && "string"@[2] == 'r' && "string"@[3] == 'i' && "string"@[4] == 'n' && "string"@[5] == 'g');
    reveal_strlit("string.escape");
    assert("string.escape"@.len() == 13 && "string.escape"@[0] == 's' && "string.escape"@[1] == 't' && "string.escape"@[2] == 'r' && "string.escape"@[3] == 'i' && "string.escape"@[4] == 'n' && "string.escape"@[5] == 'g' && "string.escape"@[6] == '.' && "string.escape"@[7] == 'e' && "string.escape"@[8] == 's' && "string.escape"@[9] == 'c' && "string.escape"@[10] == 'a' && "string.escape"@[11] == 'p' && "string.escape"@[12] == 'e');
    reveal_strlit("string.special");
    assert("string.special"@.len() == 14 && "string.special"@[0] == 's' && "string.special"@[1] == 't' && "string.special"@[2] == 'r' && "string.special"@[3] == 'i' && "string.special"@[4] == 'n' && "string.special"@[5] == 'g' && "string.special"@[6] == '.' && "string.special"@[7] == 's' && "string.special"@[8] == 'p' && "string.special"@[9] == 'e' && "string.special"@[10] == 'c' && "string.special"@[11] == 'i' && "string.special"@[12] == 'a' && "string.special"@[13] == 'l');
    reveal_strlit("text.literal");
    assert("text.literal"@.len() == 12 && "text.literal"@[0] == 't' && "text.literal"@[1] == 'e' && "text.literal"@[2] == 'x' && "text.literal"@[3] == 't' && "text.literal"@[4] == '.' && "text.literal"@[5] == 'l' && "text.literal"@[6] == 'i' && "text.literal"@[7] == 't' && "text.literal"@[8] == 'e' && "text.literal"@[9] == 'r' && "text.literal"@[10] == 'a' && "text.literal"@[11] == 'l');
    reveal_strlit("number");
    assert("number"@.len() == 6 && "number"@[0] == 'n' && "number"@[1] == 'u' && "number"@[2] == 'm' && "number"@[3] == 'b' && "number"@[4] == 'e' && "number"@[5] == 'r');
    reveal_strlit("constant.builtin");
    assert("constant.builtin"@.len() == 16 && "constant.builtin"@[0] == 'c' && "constant.builtin"@[1] == 'o' && "constant.builtin"@[2] == 'n' && "constant.builtin"@[3] == 's' && "constant.builtin"@[4] == 't' && "constant.builtin"@[5] == 'a' && "constant.builtin"@[6] == 'n' && "constant.builtin"@[7] == 't' && "constant.builtin"@[8] == '.' && "constant.builtin"@[9] == 'b' && "constant.builtin"@[10] == 'u' && "constant.builtin"@[11] == 'i' && "constant.builtin"@[12] == 'l' && "constant.builtin"@[13] == 't' && "constant.builtin"@[14] == 'i' && "constant.builtin"@[15] == 'n');
    reveal_strlit("comment");
    assert("comment"@.len() == 7 && "comment"@[0] == 'c' && "comment"@[1] == 'o' && "comment"@[2] == 'm' && "comment"@[3] == 'm' && "comment"@[4] == 'e' && "comment"@[5] == 'n' && "comment"@[6] == 't');
    reveal_strlit("function");
    assert("function"@.len() == 8 && "function"@[0] == 'f' && "function"@[1] == 'u' && "function"@[2] == 'n' && "function"@[3] == 'c' && "function"@[4] == 't' && "function"@[5] == 'i' && "function"@[6] == 'o' && "function"@[7] == 'n');
    reveal_strlit("function.method");
    assert("function.method"@.len() == 15 && "function.method"@[0] == 'f' && "function.method"@[1] == 'u' && "function.method"@[2] == 'n' && "function.method"@[3] == 'c' && "function.method"@[4] == 't' && "function.method"@[5] == 'i' && "function.method"@[6] == 'o' && "function.method"@[7] == 'n' && "function.method"@[8] == '.' && "function.method"@[9] == 'm' && "function.method"@[10] == 'e' && "function.method"@[11] == 't' && "function.method"@[12] == 'h' && "function.method"@[13] == 'o' && "function.method"@[14] == 'd');
    reveal_strlit("type");
    assert("type"@.len() == 4 && "type"@[0] == 't' && "type"@[1] == 'y' && "type"@[2] == 'p' && "type"@[3] == 'e');
    reveal_strlit("text.title");
    assert("text.title"@.len() == 10 && "text.title"@[0] == 't' && "text.title"@[1] == 'e' && "text.title"@[2] == 'x' && "text.title"@[3] == 't' && "text.title"@[4] == '.' && "text.title"@[5] == 't' && "text.title"@[6] == 'i' && "text.title"@[7] == 't' && "text.title"@[8] == 'l' && "text.title"@[9] == 'e');
    reveal_strlit("text.reference");
    assert("text.reference"@.len() == 14 && "text.reference"@[0] == 't' && "text.reference"@[1] == 'e' && "text.reference"@[2] == 'x' && "text.reference"@[3] == 't' && "text.reference"@[4] == '.' && "text.reference"@[5] == 'r' && "text.reference"@[6] == 'e' && "text.reference"@[7] == 'f' && "text.reference"@[8] == 'e' && "text.reference"@[9] == 'r' && "text.reference"@[10] == 'e' && "text.reference"@[11] == 'n' && "text.reference"@[12] == 'c' && "text.reference"@[13] == 'e');
    reveal_strlit("text.uri");
    assert("text.uri"@.len() == 8 && "text.uri"@[0] == 't' && "text.uri"@[1] == 'e' && "text.uri"@[2] == 'x' && "text.uri"@[3] == 't' && "text.uri"@[4] == '.' && "text.uri"@[5] == 'u' && "text.uri"@[6] == 'r' && "text.uri"@[7] == 'i');
    reveal_strlit("tag");
    assert("tag"@.len() == 3 && "tag"@[0] == 't' && "tag"@[1] == 'a' && "tag"@[2] == 'g');
    reveal_strlit("constant");
    assert("constant"@.len() == 8 && "constant"@[0] == 'c' && "constant"@[1] == 'o' && "constant"@[2] == 'n' && "constant"@[3] == 's' && "constant"@[4] == 't' && "constant"@[5] == 'a' && "constant"@[6] == 'n' && "constant"@[7] == 't');
    reveal_strlit("property");
    assert("property"@.len() == 8 && "property"@[0] == 'p' && "property"@[1] == 'r' && "property"@[2] == 'o' && "property"@[3] == 'p' && "property"@[4] == 'e' && "property"@[5] == 'r' && "property"@[6] == 't' && "property"@[7] == 'y');
    reveal_strlit("attribute");
    assert("attribute"@.len() == 9 && "attribute"@[0] == 'a' && "attribute"@[1] == 't' && "attribute"@[2] == 't' && "attribute"@[3] == 'r' && "attribute"@[4] == 'i' && "attribute"@[5] == 'b' && "attribute"@[6] == 'u' && "attribute"@[7] == 't' && "attribute"@[8] == 'e');
    reveal_strlit("operator");
    assert("operator"@.len() == 8 && "operator"@[0] == 'o' && "operator"@[1] == 'p' && "operator"@[2] == 'e' && "operator"@[3] == 'r' && "operator"@[4] == 'a' && "operator"@[5] == 't' && "operator"@[6] == 'o' && "operator"@[7] == 'r');
    reveal_strlit("punctuation");
    assert("punctuation"@.len() == 11 && "punctuation"@[0] == 'p' && "punctuation"@[1] == 'u' && "punctuation"@[2] == 'n' && "punctuation"@[3] == 'c' && "punctuation"@[4] == 't' && "punctuation"@[5] == 'u' && "punctuation"@[6] == 'a' && "punctuation"@[7] == 't' && "punctuation"@[8] == 'i' && "punctuation"@[9] == 'o' && "punctuation"@[10] == 'n');
    reveal_strlit("punctuation.delimiter");
    assert("punctuation.delimiter"@.len() == 21 && "punctuation.delimiter"@[0] == 'p' && "punctuation.delimiter"@[1] == 'u' && "punctuation.delimiter"@[2] == 'n' && "punctuation.delimiter"@[3] == 'c' && "punctuation.delimiter"@[4] == 't' && "punctuation.delimiter"@[5] == 'u' && "punctuation.delimiter"@[6] == 'a' && "punctuation.delimiter"@[7] == 't' && "punctuation.delimiter"@[8] == 'i' && "punctuation.delimiter"@[9] == 'o' && "punctuation.delimiter"@[10] == 'n' && "punctuation.delimiter"@[11] == '.' && "punctuation.delimiter"@[12] == 'd' && "punctuation.delimiter"@[13] == 'e' && "punctuation.delimiter"@[14] == 'l' && "punctuation.delimiter"@[15] == 'i' && "punctuation.delimiter"@[16] == 'm' && "punctuation.delimiter"@[17] == 'i' && "punctuation.delimiter"@[18] == 't' && "punctuation.delimiter"@[19] == 'e' && "punctuation.delimiter"@[20] == 'r');
    reveal_strlit("punctuation.special");
    assert("punctuation.special"@.len() == 19 && "punctuation.special"@[0] == 'p' && "punctuation.special"@[1] == 'u' && "punctuation.special"@[2] == 'n' && "punctuation.special"@[3] == 'c' && "punctuation.special"@[4] == 't' && "punctuation.special"@[5] == 'u' && "punctuation.special"@[6] == 'a' && "punctuation.special"@[7] == 't' && "punctuation.special"@[8] == 'i' && "punctuation.special"@[9] == 'o' && "punctuation.special"@[10] == 'n' && "punctuation.special"@[11] == '.' && "punctuation.special"@[12] == 's' && "punctuation.special"@[13] == 'p' && "punctuation.special"@[14] == 'e' && "punctuation.special"@[15] == 'c' && "punctuation.special"@[16] == 'i' && "punctuation.special"@[17] == 'a' && "punctuation.special"@[18] == 'l');
    reveal_strlit("punctuation.bracket");
    assert("punctuation.bracket"@.len() == 19 && "punctuation.bracket"@[0] == 'p' && "punctuation.bracket"@[1] == 'u' && "punctuation.bracket"@[2] == 'n' && "punctuation.bracket"@[3] == 'c' && "punctuation.bracket"@[4] == 't' && "punctuation.bracket"@[5] == 'u' && "punctuation.bracket"@[6] == 'a' && "punctuation.bracket"@[7] == 't' && "punctuation.bracket"@[8] == 'i' && "punctuation.bracket"@[9] == 'o' && "punctuation.bracket"@[10] == 'n' && "punctuation.bracket"@[11] == '.' && "punctuation.bracket"@[12] == 'b' && "punctuation.bracket"@[13] == 'r' && "punctuation.bracket"@[14] == 'a' && "punctuation.bracket"@[15] == 'c' && "punctuation.bracket"@[16] == 'k' && "punctuation.bracket"@[17] == 'e' && "punctuation.bracket"@[18] == 't');
}

/// A highlighter is told of every name that has a color other than that of an identifier,.
pub proof fn lemma_captures_told(name: Seq<char>)
    ensures
        color_of(name) != SynColor::Identifier ==> captures().contains(name),
{
    lemma_capture_slots(name);
    let c = captures();
    assert(c[0] == "keyword"@);
    assert(c[1] == "string"@);
    assert(c[2] == "string.escape"@);
    assert(c[3] == "string.special"@);
    assert(c[4] == "number"@);
    assert(c[5] == "comment"@);
    assert(c[6] == "function"@);
    assert(c[7] == "function.method"@);
    assert(c[8] == "type"@);
    assert(c[9] == "constant"@);
    assert(c[10] == "constant.builtin"@);
    assert(c[11] == "property"@);
    assert(c[12] == "attribute"@);
    assert(c[13] == "tag"@);
    assert(c[14] == "variable"@);
    assert(c[15] == "variable.parameter"@);
    assert(c[16] == "operator"@);
    assert(c[17] == "punctuation"@);
    assert(c[18] == "punctuation.delimiter"@);
    assert(c[19] == "punctuation.special"@);
    assert(c[20] == "punctuation.bracket"@);
    assert(c[21] == "text.title"@);
    assert(c[22] == "text.literal"@);
    assert(c[23] == "text.reference"@);
    assert(c[24] == "text.uri"@);
    assert(c[25] == "embedded"@);
    assert(c[26] == "charset"@);
    assert(c[27] == "import"@);
    assert(c[28] == "keyframes"@);
    assert(c[29] == "media"@);
    assert(c[30] == "supports"@);
    assert(c[31] == "namespace"@);
}

/// A stretch of source has the color of the innermost highlight around it, and that of plain
/// text where there is none; a highlight counts from its start to its end.
pub proof fn lemma_innermost_color(
    events: Seq<HlEvent>,
    i: usize,
    j: usize,
    a: usize,
    b: usize,
    c: usize,
    d: usize,
)
    ensures
        ({
            let r = hl_state(
                events.push(HlEvent::Start(i)).push(HlEvent::Source(a, b)).push(
                    HlEvent::Start(j),
                ).push(HlEvent::Source(b, c)).push(HlEvent::End).push(HlEvent::Source(c, d)).push(
                    HlEvent::End,
                ),
            );
            &&& r.open == hl_state(events).open
            &&& r.spans == hl_state(events).spans + seq![
                (a as int, b as int, color_of(captures()[i as int])),
                (b as int, c as int, color_of(captures()[j as int])),
                (c as int, d as int, color_of(captures()[i as int])),
            ]
        }),
        hl_state(events).open.len() == 0 ==> hl_state(events.push(HlEvent::Source(a, b))).spans
            == hl_state(events).spans.push((a as int, b as int, SynColor::Text)),
        hl_state(Seq::empty()).open.len() == 0,
        hl_state(Seq::empty()).spans.len() == 0,
{
    let s = hl_state(events);
    let e1 = events.push(HlEvent::Start(i));
    let e2 = e1.push(HlEvent::Source(a, b));
    let e3 = e2.push(HlEvent::Start(j));
    let e4 = e3.push(HlEvent::Source(b, c));
    let e5 = e4.push(HlEvent::End);
    let e6 = e5.push(HlEvent::Source(c, d));
    let e7 = e6.push(HlEvent::End);
    lemma_hl_push(events, HlEvent::Start(i));
    lemma_hl_push(e1, HlEvent::Source(a, b));
    lemma_hl_push(e2, HlEvent::Start(j));
    lemma_hl_push(e3, HlEvent::Source(b, c));
    lemma_hl_push(e4, HlEvent::End);
    lemma_hl_push(e5, HlEvent::Source(c, d));
    lemma_hl_push(e6, HlEvent::End);
    lemma_hl_push(events, HlEvent::Source(a, b));
    assert(s.open.push(i).push(j).drop_last() =~= s.open.push(i));
    assert(s.open.push(i).drop_last() =~= s.open);
    let x = (a as int, b as int, color_of(captures()[i as int]));
    let y = (b as int, c as int, color_of(captures()[j as int]));
    let z = (c as int, d as int, color_of(captures()[i as int]));
    assert(hl_state(e7).spans == s.spans.push(x).push(y).push(z));
    assert(s.spans.push(x).push(y).push(z) =~= s.spans + seq![x, y, z]);
}

proof fn lemma_hl_push(events: Seq<HlEvent>, e: HlEvent)
    ensures
        hl_state(events.push(e)) == (match e {
            HlEvent::Start(i) => HlState {
                open: hl_state(events).open.push(i),
                spans: hl_state(events).spans,
            },
            HlEvent::End => HlState {
                open: if hl_state(events).open.len() > 0 {
                    hl_state(events).open.drop_last()
                } else {
                    hl_state(events).open
                },
                spans: hl_state(events).spans,
            },
            HlEvent::Source(a, b) => HlState {
                open: hl_state(events).open,
                spans: hl_state(events).spans.push(
                    (
                        a as int,
                        b as int,
                        if hl_state(events).open.len() > 0 {
                            color_of(captures()[hl_state(events).open.last() as int])
                        } else {
                            SynColor::Text
                        },
                    ),
                ),
            },
        }),
{
    assert(events.push(e).drop_last() =~= events);
}

/// Which extensions belong to which language, language by language.
pub proof fn lemma_extensions(e: Seq<char>)
    ensures
        lang_of_extension(e) == Lang::Tsx <==> (e == "tsx"@),
        lang_of_extension(e) == Lang::Ts <==> (e == "ts"@),
        lang_of_extension(e) == Lang::Js <==> (e == "js"@ || e == "jsx"@ || e == "mjs"@ || e == "cjs"@),
        lang_of_extension(e) == Lang::Rust <==> (e == "rs"@),
        lang_of_extension(e) == Lang::Json <==> (e == "json"@),
        lang_of_extension(e) == Lang::Markdown <==> (e == "md"@ || e == "markdown"@),
        lang_of_extension(e) == Lang::Bash <==> (e == "sh"@ || e == "bash"@ || e == "zsh"@),
        lang_of_extension(e) == Lang::Css <==> (e == "css"@),
        lang_of_extension(e) == Lang::Scss <==> (e == "scss"@),
        lang_of_extension(e) == Lang::Yaml <==> (e == "yml"@ || e == "yaml"@),
        lang_of_extension(e) == Lang::Toml <==> (e == "toml"@),
        lang_of_extension(e) == Lang::Python <==> (e == "py"@ || e == "pyi"@),
        lang_of_extension(e) == Lang::Html <==> (e == "html"@ || e == "htm"@),
        lang_of_extension(e) == Lang::Go <==> (e == "go"@),
        lang_of_extension(e) == Lang::R <==> (e == "r"@ || e == "R"@),
        lang_of_extension(e) == Lang::Latex <==> (e == "tex"@ || e == "sty"@ || e == "cls"@ || e == "latex"@),
        lang_of_extension(e) != Lang::Env,
        lang_of_extension(e) != Lang::Gitignore,
{
    reveal_strlit("tsx");
    assert("tsx"@.len() == 3 && "tsx"@[0] == 't' && "tsx"@[1] == 's' && "tsx"@[2] == 'x');
    reveal_strlit("ts");
    assert("ts"@.len() == 2 && "ts"@[0] == 't' && "ts"@[1] == 's');
    reveal_strlit("js");
    assert("js"@.len() == 2 && "js"@[0] == 'j' && "js"@[1] == 's');
    reveal_strlit("jsx");
    assert("jsx"@.len() == 3 && "jsx"@[0] == 'j' && "jsx"@[1] == 's' && "jsx"@[2] == 'x');
    reveal_strlit("mjs");
    assert("mjs"@.len() == 3 && "mjs"@[0] == 'm' && "mjs"@[1] == 'j' && "mjs"@[2] == 's');
    reveal_strlit("cjs");
    assert("cjs"@.len() == 3 && "cjs"@[0] == 'c' && "cjs"@[1] == 'j' && "cjs"@[2] == 's');
    reveal_strlit("rs");
    assert("rs"@.len() == 2 && "rs"@[0] == 'r' && "rs"@[1] == 's');
    reveal_strlit("json");
    assert("json"@.len() == 4 && "json"@[0] == 'j' && "json"@[1] == 's' && "json"@[2] == 'o' && "json"@[3] == 'n');
    reveal_strlit("md");
    assert("md"@.len() == 2 && "md"@[0] == 'm' && "md"@[1] == 'd');
    reveal_strlit("markdown");
    assert("markdown"@.len() == 8 && "markdown"@[0] == 'm' && "markdown"@[1] == 'a' && "markdown"@[2] == 'r' && "markdown"@[3] == 'k' && "markdown"@[4] == 'd' && "markdown"@[5] == 'o' && "markdown"@[6] == 'w' && "markdown"@[7] == 'n');
    reveal_strlit("sh");
    assert("sh"@.len() == 2 && "sh"@[0] == 's' && "sh"@[1] == 'h');
    reveal_strlit("bash");
    assert("bash"@.len() == 4 && "bash"@[0] == 'b' && "bash"@[1] == 'a' && "bash"@[2] == 's' && "bash"@[3] == 'h');
    reveal_strlit("zsh");
    assert("zsh"@.len() == 3 && "zsh"@[0] == 'z' && "zsh"@[1] == 's' && "zsh"@[2] == 'h');
    reveal_strlit("css");
    assert("css"@.len() == 3 && "css"@[0] == 'c' && "css"@[1] == 's' && "css"@[2] == 's');
    reveal_strlit("scss");
    assert("scss"@.len() == 4 && "scss"@[0] == 's' && "scss"@[1] == 'c' && "scss"@[2] == 's' && "scss"@[3] == 's');
    reveal_strlit("yml");
    assert("yml"@.len() == 3 && "yml"@[0] == 'y' && "yml"@[1] == 'm' && "yml"@[2] == 'l');
    reveal_strlit("yaml");
    assert("yaml"@.len() == 4 && "yaml"@[0] == 'y' && "yaml"@[1] == 'a' && "yaml"@[2] == 'm' && "yaml"@[3] == 'l');
    reveal_strlit("toml");
    assert("toml"@.len() == 4 && "toml"@[0] == 't' && "toml"@[1] == 'o' && "toml"@[2] == 'm' && "toml"@[3] == 'l');
    reveal_strlit("py");
    assert("py"@.len() == 2 && "py"@[0] == 'p' && "py"@[1] == 'y');
    reveal_strlit("pyi");
    assert("pyi"@.len() == 3 && "pyi"@[0] == 'p' && "pyi"@[1] == 'y' && "pyi"@[2] == 'i');
    reveal_strlit("html");
    assert("html"@.len() == 4 && "html"@[0] == 'h' && "html"@[1] == 't' && "html"@[2] == 'm' && "html"@[3] == 'l');
    reveal_strlit("htm");
    assert("htm"@.len() == 3 && "htm"@[0] == 'h' && "htm"@[1] == 't' && "htm"@[2] == 'm');
    reveal_strlit("go");
    assert("go"@.len() == 2 && "go"@[0] == 'g' && "go"@[1] == 'o');
    reveal_strlit("r");
    assert("r"@.len() == 1 && "r"@[0] == 'r');
    reveal_strlit("R");
    assert("R"@.len() == 1 && "R"@[0] == 'R');
    reveal_strlit("tex");
    assert("tex"@.len() == 3 && "tex"@[0] == 't' && "tex"@[1] == 'e' && "tex"@[2] == 'x');
    reveal_strlit("sty");
    assert("sty"@.len() == 3 && "sty"@[0] == 's' && "sty"@[1] == 't' && "sty"@[2] == 'y');
    reveal_strlit("cls");
    assert("cls"@.len() == 3 && "cls"@[0] == 'c' && "cls"@[1] == 'l' && "cls"@[2] == 's');
    reveal_strlit("latex");
    assert("latex"@.len() == 5 && "latex"@[0] == 'l' && "latex"@[1] == 'a' && "latex"@[2] == 't' && "latex"@[3] == 'e' && "latex"@[4] == 'x');
}

/// Which languages a pack is for, pack by pack; a language that has a grammar has a pack and the
/// other way round.
pub proof fn lemma_pack_languages(lang: Lang)
    ensures
        pack_id(lang) == Some("typescript"@) <==> (lang == Lang::Tsx || lang == Lang::Ts),
        pack_id(lang) == Some("javascript"@) <==> (lang == Lang::Js),
        pack_id(lang) == Some("rust"@) <==> (lang == Lang::Rust),
        pack_id(lang) == Some("json"@) <==> (lang == Lang::Json),
        pack_id(lang) == Some("markdown"@) <==> (lang == Lang::Markdown),
        pack_id(lang) == Some("shell"@) <==> (lang == Lang::Bash),
        pack_id(lang) == Some("css"@) <==> (lang == Lang::Css),
        pack_id(lang) == Some("scss"@) <==> (lang == Lang::Scss),
        pack_id(lang) == Some("yaml"@) <==> (lang == Lang::Yaml),
        pack_id(lang) == Some("toml"@) <==> (lang == Lang::Toml),
        pack_id(lang) == Some("python"@) <==> (lang == Lang::Python),
        pack_id(lang) == Some("html"@) <==> (lang == Lang::Html),
        pack_id(lang) == Some("go"@) <==> (lang == Lang::Go),
        pack_id(lang) == Some("r"@) <==> (lang == Lang::R),
        pack_id(lang) == Some("latex"@) <==> (lang == Lang::Latex),
        pack_id(lang) is None <==> lang == Lang::Env || lang == Lang::Gitignore || lang
            == Lang::PlainText,
        pack_id(lang) is None <==> recipe_of(lang) is None,
{
    reveal_strlit("typescript");
    assert("typescript"@.len() == 10 && "typescript"@[0] == 't' && "typescript"@[1] == 'y' && "typescript"@[2] == 'p' && "typescript"@[3] == 'e' && "typescript"@[4] == 's' && "typescript"@[5] == 'c' && "typescript"@[6] == 'r' && "typescript"@[7] == 'i' && "typescript"@[8] == 'p' && "typescript"@[9] == 't');
    reveal_strlit("javascript");
    assert("javascript"@.len() == 10 && "javascript"@[0] == 'j' && "javascript"@[1] == 'a' && "javascript"@[2] == 'v' && "javascript"@[3] == 'a' && "javascript"@[4] == 's' && "javascript"@[5] == 'c' && "javascript"@[6] == 'r' && "javascript"@[7] == 'i' && "javascript"@[8] == 'p' && "javascript"@[9] == 't');
    reveal_strlit("rust");
    assert("rust"@.len() == 4 && "rust"@[0] == 'r' && "rust"@[1] == 'u' && "rust"@[2] == 's' && "rust"@[3] == 't');
    reveal_strlit("json");
    assert("json"@.len() == 4 && "json"@[0] == 'j' && "json"@[1] == 's' && "json"@[2] == 'o' && "json"@[3] == 'n');
    reveal_strlit("markdown");
    assert("markdown"@.len() == 8 && "markdown"@[0] == 'm' && "markdown"@[1] == 'a' && "markdown"@[2] == 'r' && "markdown"@[3] == 'k' && "markdown"@[4] == 'd' && "markdown"@[5] == 'o' && "markdown"@[6] == 'w' && "markdown"@[7] == 'n');
    reveal_strlit("shell");
    assert("shell"@.len() == 5 && "shell"@[0] == 's' && "shell"@[1] == 'h' && "shell"@[2] == 'e' && "shell"@[3] == 'l' && "shell"@[4] == 'l');
    reveal_strlit("css");
    assert("css"@.len() == 3 && "css"@[0] == 'c' && "css"@[1] == 's' && "css"@[2] == 's');
    reveal_strlit("scss");
    assert("scss"@.len() == 4 && "scss"@[0] == 's' && "scss"@[1] == 'c' && "scss"@[2] == 's' && "scss"@[3] == 's');
    reveal_strlit("yaml");
    assert("yaml"@.len() == 4 && "yaml"@[0] == 'y' && "yaml"@[1] == 'a' && "yaml"@[2] == 'm' && "yaml"@[3] == 'l');
    reveal_strlit("toml");
    assert("toml"@.len() == 4 && "toml"@[0] == 't' && "toml"@[1] == 'o' && "toml"@[2] == 'm' && "toml"@[3] == 'l');
    reveal_strlit("python");
    assert("python"@.len() == 6 && "python"@[0] == 'p' && "python"@[1] == 'y' && "python"@[2] == 't' && "python"@[3] == 'h' && "python"@[4] == 'o' && "python"@[5] == 'n');
    reveal_strlit("html");
    assert("html"@.len() == 4 && "html"@[0] == 'h' && "html"@[1] == 't' && "html"@[2] == 'm' && "html"@[3] == 'l');
    reveal_strlit("go");
    assert("go"@.len() == 2 && "go"@[0] == 'g' && "go"@[1] == 'o');
    reveal_strlit("r");
    assert("r"@.len() == 1 && "r"@[0] == 'r');
    reveal_strlit("latex");
    assert("latex"@.len() == 5 && "latex"@[0] == 'l' && "latex"@[1] == 'a' && "latex"@[2] == 't' && "latex"@[3] == 'e' && "latex"@[4] == 'x');
}

/// A file goes by its name alone: one in another directory has the same language.
pub proof fn lemma_lang_by_name(p: Seq<char>, q: Seq<char>)
    requires
        path::file_name(p) == path::file_name(q),
    ensures
        lang_of_path(p) == lang_of_path(q),
{
}

/// A comment line is one span over the whole line, in a dotenv file and in a gitignore file; a
/// line of a gitignore file that is no comment has no color.
pub proof fn lemma_comment_lines(white: Seq<char>, rest: Seq<char>, start: int)
    requires
        text::blank(white),
    ensures
        ({
            let line = white + seq!['#'] + rest;
            let all = seq![(start, start + text::blen(line), SynColor::Comment)];
            gitignore_line(line, start) == all && env_line(line, start) == all
        }),
{
    let tail = seq!['#'] + rest;
    assert(white + seq!['#'] + rest =~= white + tail);
    lemma_trim_start_blank(white, tail);
}

proof fn lemma_trim_start_blank(white: Seq<char>, tail: Seq<char>)
    requires
        text::blank(white),
        tail.len() > 0,
        !text::is_white_space(tail[0]),
    ensures
        text::trim_start(white + tail) == tail,
    decreases white.len(),
{
    if white.len() == 0 {
        assert(white + tail =~= tail);
    } else {
        assert((white + tail).drop_first() =~= white.drop_first() + tail);
        assert forall|i: int| 0 <= i < white.drop_first().len() implies text::is_white_space(
            #[trigger] white.drop_first()[i],
        ) by {
            assert(white.drop_first()[i] == white[i + 1]);
        }
        lemma_trim_start_blank(white.drop_first(), tail);
        assert(text::is_white_space(white[0]));
    }
}

proof fn lemma_trim_start_front(key: Seq<char>, tail: Seq<char>)
    requires
        !text::blank(key),
    ensures
        is_comment(key + tail) == is_comment(key),
        text::trim_start(key + tail) == text::trim_start(key) + tail,
        text::trim_start(key).len() > 0,
    decreases key.len(),
{
    if key.len() > 0 && text::is_white_space(key[0]) {
        assert((key + tail).drop_first() =~= key.drop_first() + tail);
        let d = key.drop_first();
        if text::blank(d) {
            assert forall|i: int| 0 <= i < key.len() implies text::is_white_space(
                #[trigger] key[i],
            ) by {
                if i > 0 {
                    assert(text::is_white_space(d[i - 1]));
                }
            }
        }
        lemma_trim_start_front(d, tail);
    }
}

proof fn lemma_blen_nonempty(s: Seq<char>)
    requires
        s.len() > 0,
    ensures
        text::blen(s) > 0,
{
    text::lemma_encode_push(s.drop_last(), s.last());
    assert(s.drop_last().push(s.last()) =~= s);
    crate::buffer::lemma_leading_byte(s.last());
}

/// An assignment of a dotenv file: the key as a field, the first equals sign as an operator and
/// all that comes behind it as a string, side by side over the whole line.
pub proof fn lemma_assignment(key: Seq<char>, value: Seq<char>, start: int)
    requires
        key.len() > 0,
        value.len() > 0,
        !key.contains('='),
        !is_comment(key),
        !text::blank(key),
    ensures
        ({
            let line = key + seq!['='] + value;
            let e = text::blen(key);
            env_line(line, start) == seq![
                (start, start + e, SynColor::Field),
                (start + e, start + e + 1, SynColor::Operator),
                (start + e + 1, start + text::blen(line), SynColor::Str),
            ] && gitignore_line(line, start) == Seq::<SpanModel>::empty()
        }),
{
    let line = key + seq!['='] + value;
    lemma_trim_start_front(key, seq!['='] + value);
    assert(line =~= key + (seq!['='] + value));
    text::lemma_first_from(line, '=', 0);
    let n = key.len() as int;
    assert(line[n] == '=');
    assert forall|k: int| 0 <= k < n implies line[k] != '=' by {
        assert(line[k] == key[k]);
        assert(key.contains(key[k]));
    }
    assert(text::first_from(line, '=', 0) == Some(n));
    assert(line.take(n) =~= key);
    text::lemma_encode_concat(key, seq!['='] + value);
    text::lemma_encode_concat(seq!['='], value);
    lemma_blen_nonempty(key);
    lemma_blen_nonempty(value);
    text::lemma_encode_push(Seq::<char>::empty(), '=');
    assert(Seq::<char>::empty().push('=') =~= seq!['=']);
}

/// Which grammar and which query color a language; only some have queries for what is nested in
/// them or for local names.
pub proof fn lemma_recipes()
    ensures
        recipe_of(Lang::Json) matches Some(r) && r.language == bundled_language("json"@) && r.highlights
            == bundled_query("json/highlights"@) && r.injections.len() == 0 && r.locals.len() == 0,
        recipe_of(Lang::Markdown) matches Some(r) && r.language == bundled_language("markdown"@) && r.highlights
            == bundled_query("markdown/highlights"@) && r.injections.len() == 0 && r.locals.len() == 0,
        recipe_of(Lang::Bash) matches Some(r) && r.language == bundled_language("bash"@) && r.highlights
            == bundled_query("bash/highlights"@) && r.injections.len() == 0 && r.locals.len() == 0,
        recipe_of(Lang::Css) matches Some(r) && r.language == bundled_language("css"@) && r.highlights
            == bundled_query("css/highlights"@) && r.injections.len() == 0 && r.locals.len() == 0,
        recipe_of(Lang::Scss) matches Some(r) && r.language == bundled_language("css"@) && r.highlights
            == bundled_query("css/highlights"@) && r.injections.len() == 0 && r.locals.len() == 0,
        recipe_of(Lang::Yaml) matches Some(r) && r.language == bundled_language("yaml"@) && r.highlights
            == bundled_query("yaml/highlights"@) && r.injections.len() == 0 && r.locals.len() == 0,
        recipe_of(Lang::Toml) matches Some(r) && r.language == bundled_language("toml"@) && r.highlights
            == bundled_query("toml/highlights"@) && r.injections.len() == 0 && r.locals.len() == 0,
        recipe_of(Lang::Python) matches Some(r) && r.language == bundled_language("python"@) && r.highlights
            == bundled_query("python/highlights"@) && r.injections.len() == 0 && r.locals.len() == 0,
        recipe_of(Lang::Html) matches Some(r) && r.language == bundled_language("html"@) && r.highlights
            == bundled_query("html/highlights"@) && r.injections.len() == 0 && r.locals.len() == 0,
        recipe_of(Lang::Go) matches Some(r) && r.language == bundled_language("go"@) && r.highlights
            == bundled_query("go/highlights"@) && r.injections.len() == 0 && r.locals.len() == 0,
        recipe_of(Lang::Rust) matches Some(r) && r.language == bundled_language("rust"@)
            && r.highlights == bundled_query("rust/highlights"@) && r.injections == bundled_query(
            "rust/injections"@,
        ) && r.locals.len() == 0,
        recipe_of(Lang::Js) matches Some(r) && r.language == bundled_language("javascript"@)
            && r.highlights == bundled_query("javascript/highlights"@) && r.injections
            == bundled_query("javascript/injections"@) && r.locals == bundled_query(
            "javascript/locals"@,
        ),
        recipe_of(Lang::R) matches Some(r) && r.language == bundled_language("r"@) && r.highlights
            == bundled_query("r/highlights"@) && r.locals == bundled_query("r/locals"@)
            && r.injections.len() == 0,
        recipe_of(Lang::Latex) matches Some(r) && r.language == bundled_language("latex"@)
            && r.highlights == LATEX_HIGHLIGHTS@,
        recipe_of(Lang::Ts) matches Some(r) && r.language == bundled_language("typescript"@)
            && r.locals == bundled_query("typescript/locals"@) && r.injections.len() == 0,
        recipe_of(Lang::Tsx) matches Some(r) && r.language == bundled_language("tsx"@) && r.highlights
            == recipe_of(Lang::Ts)->0.highlights && r.locals == recipe_of(Lang::Ts)->0.locals,
        text::begins_with(
            recipe_of(Lang::Ts)->0.highlights,
            bundled_query("javascript/highlights"@),
        ),
        text::finishes_with(
            recipe_of(Lang::Ts)->0.highlights,
            bundled_query("typescript/highlights"@),
        ),
{
    let a = bundled_query("javascript/highlights"@);
    let b = bundled_query("typescript/highlights"@);
    let s = a.push('\n') + b;
    assert(s.subrange(0, a.len() as int) =~= a);
    assert(s.subrange(s.len() - b.len(), s.len() as int) =~= b);
}

/// The packs that can be installed are these, each under its own name, and every language that
/// has a pack has one of them.
pub proof fn lemma_packs_offered(lang: Lang)
    ensures
        pack_list().len() == 16,
        pack_list()[0] == ("json"@, "JSON"@),
        pack_list()[1] == ("typescript"@, "TypeScript"@),
        pack_list()[2] == ("javascript"@, "JavaScript"@),
        pack_list()[3] == ("rust"@, "Rust"@),
        pack_list()[4] == ("markdown"@, "Markdown"@),
        pack_list()[5] == ("shell"@, "Shell script"@),
        pack_list()[6] == ("css"@, "CSS"@),
        pack_list()[7] == ("scss"@, "SCSS"@),
        pack_list()[8] == ("yaml"@, "YAML"@),
        pack_list()[9] == ("toml"@, "TOML"@),
        pack_list()[10] == ("python"@, "Python"@),
        pack_list()[11] == ("html"@, "HTML"@),
        pack_list()[12] == ("go"@, "Go"@),
        pack_list()[13] == ("r"@, "R"@),
        pack_list()[14] == ("latex"@, "LaTeX"@),
        pack_list()[15] == ("font"@, "Font preview"@),
        pack_id(lang) matches Some(id) ==> exists|k: int|
            0 <= k < pack_list().len() && (#[trigger] pack_list()[k]).0 == id,
{
    let l = pack_list();
    assert(l[0].0 == "json"@);
    assert(l[1].0 == "typescript"@);
    assert(l[2].0 == "javascript"@);
    assert(l[3].0 == "rust"@);
    assert(l[4].0 == "markdown"@);
    assert(l[5].0 == "shell"@);
    assert(l[6].0 == "css"@);
    assert(l[7].0 == "scss"@);
    assert(l[8].0 == "yaml"@);
    assert(l[9].0 == "toml"@);
    assert(l[10].0 == "python"@);
    assert(l[11].0 == "html"@);
    assert(l[12].0 == "go"@);
    assert(l[13].0 == "r"@);
    assert(l[14].0 == "latex"@);
    assert(l[15].0 == "font"@);
}

/// A text in one of the two plain formats is colored line by line, each line where it stands;
/// plain text has no colors.
pub proof fn lemma_lines_colored(a: Seq<char>, b: Seq<char>)
    requires
        !a.contains('\n'),
        !b.contains('\n'),
    ensures
        highlight_spec(a, Lang::Env) == env_line(a, 0),
        highlight_spec(a, Lang::Gitignore) == gitignore_line(a, 0),
        highlight_spec(a.push('\n') + b, Lang::Env) == env_line(a, 0) + env_line(
            b,
            text::blen(a) as int + 1,
        ),
        highlight_spec(a.push('\n') + b, Lang::Gitignore) == gitignore_line(a, 0) + gitignore_line(
            b,
            text::blen(a) as int + 1,
        ),
        highlight_spec(a, Lang::PlainText).len() == 0,
{
    text::lemma_split_without(a, '\n');
    text::lemma_split_without(b, '\n');
    text::lemma_split_at(a, b, '\n');
    let none = Seq::<SpanModel>::empty();
    let one = seq![a];
    let two = seq![a] + seq![b];
    reveal_with_fuel(line_spans, 3);
    reveal_with_fuel(line_offset, 3);
    assert(none + env_line(a, 0) =~= env_line(a, 0));
    assert(none + gitignore_line(a, 0) =~= gitignore_line(a, 0));
    assert(two[0] == a && two[1] == b);
}

/// A node is worth a fold if it has something in it and opens with a bracket, or is a block by
/// its name.
pub proof fn lemma_foldable(node: NodeModel, bytes: Seq<u8>, pre: Seq<char>, post: Seq<char>)
    ensures
        node.child_count == 0 ==> !foldable_kind(node, bytes),
        node.child_count > 0 && node.start_byte < bytes.len() && (bytes[node.start_byte as int]
            == '{' as u8 || bytes[node.start_byte as int] == '[' as u8
            || bytes[node.start_byte as int] == '(' as u8 || bytes[node.start_byte as int]
            == '<' as u8) ==> foldable_kind(node, bytes),
        node.child_count > 0 && (node.kind == pre + "block"@ + post || node.kind == pre + "body"@
            + post || node.kind == pre + "mapping"@ + post || node.kind == pre + "sequence"@ + post
            || node.kind == pre + "object"@ + post || node.kind == pre + "array"@ + post
            || node.kind == pre + "dictionary"@ + post || node.kind == pre + "table"@ + post
            || node.kind == "element"@) ==> foldable_kind(node, bytes),
        node.end_row <= node.start_row ==> !folds(node, bytes),
        node.end_row > node.start_row ==> folds(node, bytes) == foldable_kind(node, bytes),
{
    lemma_within(pre, "block"@, post);
    lemma_within(pre, "body"@, post);
    lemma_within(pre, "mapping"@, post);
    lemma_within(pre, "sequence"@, post);
    lemma_within(pre, "object"@, post);
    lemma_within(pre, "array"@, post);
    lemma_within(pre, "dictionary"@, post);
    lemma_within(pre, "table"@, post);
}

proof fn lemma_within(pre: Seq<char>, w: Seq<char>, post: Seq<char>)
    ensures
        text::occurs_in(pre + w + post, w),
{
    let s = pre + w + post;
    assert(s.subrange(pre.len() as int, pre.len() as int + w.len()) =~= w);
    assert(text::occurs_at(s, w, pre.len() as int));
}

/// Of the nodes that fold on one line the one that reaches furthest is the region there: at every
/// such line there is a region, it ends where some node that starts there ends, and no node that
/// starts there ends behind it.
pub proof fn lemma_regions_largest(
    nodes: Seq<NodeModel>,
    bytes: Seq<u8>,
    r: Seq<(usize, usize)>,
    i: int,
    k: int,
)
    requires
        outermost_regions(nodes, bytes, nodes.len() as int, r),
        0 <= i < r.len(),
        0 <= k < nodes.len(),
        folds(nodes[k], bytes),
    ensures
        r[i].0 < r[i].1,
        exists|j: int| 0 <= j < r.len() && (#[trigger] r[j]).0 == nodes[k].start_row,
        r[i].0 == nodes[k].start_row ==> nodes[k].end_row <= r[i].1,
        exists|m: int|
            0 <= m < nodes.len() && folds(#[trigger] nodes[m], bytes) && nodes[m].start_row
                == r[i].0 && nodes[m].end_row == r[i].1,
{
    assert(region_of_node(nodes, bytes, nodes.len() as int, r[i]));
    assert(covers(r, nodes[k].start_row as int, nodes[k].end_row as int));
    let j = choose|j: int|
        0 <= j < r.len() && (#[trigger] r[j]).0 == nodes[k].start_row && r[j].1
            >= nodes[k].end_row;
    if r[i].0 == nodes[k].start_row {
        if i < j {
            assert(r[i].0 < r[j].0);
        } else if j < i {
            assert(r[j].0 < r[i].0);
        }
    }
}

/// An assignment without a key, and one without a value: what is not there has no span.
pub proof fn lemma_bare_assignment(key: Seq<char>, value: Seq<char>, start: int)
    requires
        key.len() > 0,
        value.len() > 0,
        !key.contains('='),
        !is_comment(key),
        !text::blank(key),
    ensures
        env_line(seq!['='] + value, start) == seq![
            (start, start + 1, SynColor::Operator),
            (start + 1, start + 1 + text::blen(value), SynColor::Str),
        ],
        env_line(key.push('='), start) == seq![
            (start, start + text::blen(key), SynColor::Field),
            (start + text::blen(key), start + text::blen(key) + 1, SynColor::Operator),
        ],
        env_line(key, start) == Seq::<SpanModel>::empty(),
{
    let e = Seq::<char>::empty();
    text::lemma_encode_push(e, '=');
    assert(e.push('=') =~= seq!['=']);
    text::lemma_char_len('=');
    let a = seq!['='] + value;
    assert(a[0] == '=');
    text::lemma_ascii_white_space('=');
    assert(text::trim_start(a) == a);
    text::lemma_first_from(a, '=', 0);
    assert(text::first_from(a, '=', 0) == Some(0int));
    assert(a.take(0) =~= e);
    assert(text::blen(e) == 0);
    text::lemma_encode_concat(seq!['='], value);
    lemma_blen_nonempty(value);
    let b = key.push('=');
    let n = key.len() as int;
    lemma_trim_start_front(key, seq!['=']);
    assert(key + seq!['='] =~= b);
    text::lemma_first_from(b, '=', 0);
    assert(b[n] == '=');
    assert forall|k: int| 0 <= k < n implies b[k] != '=' && key[k] != '=' by {
        assert(b[k] == key[k]);
        assert(key.contains(key[k]));
    }
    assert(text::first_from(b, '=', 0) == Some(n));
    assert(b.take(n) =~= key);
    text::lemma_encode_push(key, '=');
    lemma_blen_nonempty(key);
    text::lemma_first_from(key, '=', 0);
}

} // verus!
