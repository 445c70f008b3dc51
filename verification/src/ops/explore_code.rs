//! Symbol extraction: the language is told by the file's extension, the
//! source is parsed by tree-sitter, and the declarations of each language
//! are collected from the syntax tree in document order.
use vstd::prelude::*;
use vstd::slice::slice_subrange;
use vstd::utf8::*;
use crate::protocol::{
    DetailValue, DetailView, EngineError, ErrorCode, ExploreCodeArgs, ExploreCodeResult, ExploredSymbol,
    SymbolLocation, detailed_error, details_view, plain_error,
};
use crate::paths::{extension, extension_of};
use crate::text::{bytes_contain, contains_bytes, decimal, decimal_string, push_str, str_eq, str_from_utf8};

verus! {

// ---------------------------------------------------------------------------
// Telling the language by the extension
// ---------------------------------------------------------------------------

/// The languages symbols are extracted from.
#[derive(Debug, Clone, Copy, PartialEq, Eq, Structural)]
pub enum LanguageKind {
    TypeScript,
    Tsx,
    JavaScript,
    Rust,
    Java,
}

/// The language of an extension, if it is one symbols are extracted from.
pub open spec fn language_of_extension(ext: Seq<char>) -> Option<LanguageKind> {
    if ext == "ts"@ {
        Some(LanguageKind::TypeScript)
    } else if ext == "tsx"@ {
        Some(LanguageKind::Tsx)
    } else if ext == "js"@ || ext == "jsx"@ {
        Some(LanguageKind::JavaScript)
    } else if ext == "rs"@ {
        Some(LanguageKind::Rust)
    } else if ext == "java"@ {
        Some(LanguageKind::Java)
    } else {
        None
    }
}

/// The name a language is reported under.
pub open spec fn language_name_spec(lang: LanguageKind) -> Seq<char> {
    match lang {
        LanguageKind::TypeScript => "ts"@,
        LanguageKind::Tsx => "tsx"@,
        LanguageKind::JavaScript => "js"@,
        LanguageKind::Rust => "rust"@,
        LanguageKind::Java => "java"@,
    }
}

/// The name a language is reported under.
pub fn language_name(lang: LanguageKind) -> (r: String)
    ensures
        r@ == language_name_spec(lang),
{
    match lang {
        LanguageKind::TypeScript => "ts".to_owned(),
        LanguageKind::Tsx => "tsx".to_owned(),
        LanguageKind::JavaScript => "js".to_owned(),
        LanguageKind::Rust => "rust".to_owned(),
        LanguageKind::Java => "java".to_owned(),
    }
}

/// Tells the language of a file by its extension; any other extension is
/// refused.
pub fn detect_language(file_path: &str) -> (r: Result<LanguageKind, EngineError>)
    requires
        file_path@.len() < i64::MAX,
    ensures
        match language_of_extension(extension_of(file_path@)) {
            Some(lang) => r == Ok::<LanguageKind, EngineError>(lang),
            None => r matches Err(e) && e@ == detailed_error(
                ErrorCode::InvalidArgument,
                "Unsupported file type"@,
                seq![("extension"@, DetailView::Str(extension_of(file_path@)))],
            ),
        },
{
    let ext = extension(file_path);
    let e = ext.as_str();
    if crate::text::str_eq(e, "ts") {
        Ok(LanguageKind::TypeScript)
    } else if crate::text::str_eq(e, "tsx") {
        Ok(LanguageKind::Tsx)
    } else if crate::text::str_eq(e, "js") || crate::text::str_eq(e, "jsx") {
        Ok(LanguageKind::JavaScript)
    } else if crate::text::str_eq(e, "rs") {
        Ok(LanguageKind::Rust)
    } else if crate::text::str_eq(e, "java") {
        Ok(LanguageKind::Java)
    } else {
        let mut d: Vec<(String, DetailValue)> = Vec::new();
        d.push(("extension".to_owned(), DetailValue::Str(ext.clone())));
        proof {
            assert(details_view(d@) =~= seq![("extension"@, DetailView::Str(extension_of(file_path@)))]);
        }
        Err(EngineError::new(ErrorCode::InvalidArgument, "Unsupported file type".to_owned()).with_details(d))
    }
}

// ---------------------------------------------------------------------------
// The syntax tree
// ---------------------------------------------------------------------------

/// A node of a syntax tree, with what symbol extraction reads of it: its
/// kind, its byte range and rows in the source, the byte range of its child
/// under the field `name` (if it has one), and its children in order.
pub struct SyntaxNode {
    pub kind: String,
    pub start_byte: usize,
    pub end_byte: usize,
    pub start_row: usize,
    pub end_row: usize,
    pub name_range: Option<(usize, usize)>,
    pub children: Vec<SyntaxNode>,
}

/// Every byte range in the tree lies within a source of `len` bytes, in
/// order.
pub open spec fn wf_node(n: SyntaxNode, len: nat) -> bool
    decreases n,
{
    &&& n.start_byte <= n.end_byte <= len
    &&& (n.name_range matches Some((a, b)) ==> a <= b <= len)
    &&& wf_nodes(n.children@, len)
}

/// Every tree of the sequence is well formed.
pub open spec fn wf_nodes(s: Seq<SyntaxNode>, len: nat) -> bool
    decreases s,
{
    if s.len() == 0 {
        true
    } else {
        wf_nodes(s.drop_last(), len) && wf_node(s.last(), len)
    }
}

/// Each tree of a well-formed sequence is well formed.
pub proof fn lemma_wf_nodes_index(s: Seq<SyntaxNode>, len: nat, i: int)
    requires
        wf_nodes(s, len),
        0 <= i < s.len(),
    ensures
        wf_node(s[i], len),
    decreases s.len(),
{
    if i < s.len() - 1 {
        lemma_wf_nodes_index(s.drop_last(), len, i);
        assert(s.drop_last()[i] == s[i]);
    }
}

/// Checks that every byte range in the tree lies within the source.
pub fn check_tree(n: &SyntaxNode, len: usize) -> (r: bool)
    ensures
        r == wf_node(*n, len as nat),
    decreases n,
{
    if !(n.start_byte <= n.end_byte && n.end_byte <= len) {
        return false;
    }
    match n.name_range {
        Some((a, b)) => {
            if !(a <= b && b <= len) {
                return false;
            }
        },
        None => {},
    }
    let mut i: usize = 0;
    while i < n.children.len()
        invariant
            i <= n.children@.len(),
            wf_nodes(n.children@.take(i as int), len as nat),
        decreases n.children@.len() - i,
    {
        proof {
            assert(n.children@.take(i as int + 1).drop_last() =~= n.children@.take(i as int));
        }
        if !check_tree(&n.children[i], len) {
            proof {
                if wf_nodes(n.children@, len as nat) {
                    lemma_wf_nodes_index(n.children@, len as nat, i as int);
                }
            }
            return false;
        }
        i = i + 1;
    }
    proof {
        assert(n.children@.take(i as int) =~= n.children@);
    }
    true
}

// ---------------------------------------------------------------------------
// What is read of a node
// ---------------------------------------------------------------------------

/// The source text of a byte range, if it is valid UTF-8.
pub open spec fn text_of(src: Seq<u8>, a: nat, b: nat) -> Option<Seq<char>> {
    if a <= b <= src.len() && valid_utf8(src.subrange(a as int, b as int)) {
        Some(decode_utf8(src.subrange(a as int, b as int)))
    } else {
        None
    }
}

/// The source text of a byte range, if it is valid UTF-8.
fn text_at(src: &[u8], a: usize, b: usize) -> (r: Option<String>)
    requires
        a <= b <= src@.len(),
    ensures
        match text_of(src@, a as nat, b as nat) {
            Some(t) => r matches Some(s) && s@ == t,
            None => r is None,
        },
{
    let piece = slice_subrange(src, a, b);
    match str_from_utf8(piece) {
        Some(s) => Some(s.to_owned()),
        None => None,
    }
}

/// The text of a node's `name` child, or the fallback when it has none or
/// its text is not valid UTF-8.
pub open spec fn name_or(src: Seq<u8>, n: SyntaxNode, fallback: Seq<char>) -> Seq<char> {
    match n.name_range {
        Some((a, b)) => match text_of(src, a as nat, b as nat) {
            Some(t) => t,
            None => fallback,
        },
        None => fallback,
    }
}

/// The 1-based line of a 0-based row, as a `u32` (the row is truncated to 32
/// bits and the increment wraps).
pub open spec fn line_of(row: usize) -> u32 {
    if (row as u32) == u32::MAX { 0 } else { ((row as u32) + 1) as u32 }
}

pub open spec fn location_of(n: SyntaxNode) -> SymbolLocation {
    SymbolLocation { start_line: line_of(n.start_row), end_line: line_of(n.end_row) }
}

fn line_at(row: usize) -> (r: u32)
    ensures
        r == line_of(row),
{
    let r = row as u32;
    if r == u32::MAX { 0 } else { r + 1 }
}

/// Some child of the node has the given kind.
pub open spec fn has_child_kind(n: SyntaxNode, k: Seq<char>) -> bool {
    exists|i: int| 0 <= i < n.children@.len() && (#[trigger] n.children@[i]).kind@ == k
}

fn has_child_of_kind(n: &SyntaxNode, k: &str) -> (r: bool)
    ensures
        r == has_child_kind(*n, k@),
{
    let mut i: usize = 0;
    while i < n.children.len()
        invariant
            i <= n.children@.len(),
            forall|j: int| 0 <= j < i ==> (#[trigger] n.children@[j]).kind@ != k@,
        decreases n.children@.len() - i,
    {
        if str_eq(n.children[i].kind.as_str(), k) {
            return true;
        }
        i = i + 1;
    }
    false
}

/// The byte range of the first of the nodes that has the given kind and
/// whose text is valid UTF-8.
pub open spec fn first_text_range(src: Seq<u8>, cs: Seq<SyntaxNode>, k: Seq<char>) -> Option<(nat, nat)>
    decreases cs.len(),
{
    if cs.len() == 0 {
        None
    } else if cs[0].kind@ == k && text_of(src, cs[0].start_byte as nat, cs[0].end_byte as nat) is Some {
        Some((cs[0].start_byte as nat, cs[0].end_byte as nat))
    } else {
        first_text_range(src, cs.drop_first(), k)
    }
}

proof fn lemma_first_text_range(src: Seq<u8>, cs: Seq<SyntaxNode>, k: Seq<char>)
    ensures
        first_text_range(src, cs, k) matches Some((a, b)) ==> text_of(src, a, b) is Some,
    decreases cs.len(),
{
    if cs.len() > 0 {
        lemma_first_text_range(src, cs.drop_first(), k);
    }
}

fn first_text_range_of(src: &[u8], n: &SyntaxNode, k: &str) -> (r: Option<(usize, usize)>)
    requires
        wf_node(*n, src@.len()),
    ensures
        r is Some <==> first_text_range(src@, n.children@, k@) is Some,
        r matches Some((a, b)) ==> first_text_range(src@, n.children@, k@) == Some((a as nat, b as nat))
            && a <= b <= src@.len() && text_of(src@, a as nat, b as nat) is Some,
{
    proof {
        lemma_first_text_range(src@, n.children@, k@);
    }
    let mut i: usize = 0;
    proof {
        assert(n.children@.skip(0) =~= n.children@);
    }
    while i < n.children.len()
        invariant
            i <= n.children@.len(),
            wf_node(*n, src@.len()),
            first_text_range(src@, n.children@.skip(i as int), k@) == first_text_range(src@, n.children@, k@),
        decreases n.children@.len() - i,
    {
        let c = &n.children[i];
        proof {
            lemma_wf_nodes_index(n.children@, src@.len(), i as int);
            assert(n.children@.skip(i as int)[0] == n.children@[i as int]);
            assert(n.children@.skip(i as int).drop_first() =~= n.children@.skip(i as int + 1));
        }
        if str_eq(c.kind.as_str(), k) {
            if text_at(src, c.start_byte, c.end_byte).is_some() {
                return Some((c.start_byte, c.end_byte));
            }
        }
        i = i + 1;
    }
    None
}

/// A Rust item is exported when its first visibility modifier (with valid
/// text) is exactly `pub`.
pub open spec fn rust_exported(src: Seq<u8>, n: SyntaxNode) -> bool {
    match first_text_range(src, n.children@, "visibility_modifier"@) {
        Some((a, b)) => decode_utf8(src.subrange(a as int, b as int)) == "pub"@,
        None => false,
    }
}

/// The bytes of `public`.
pub open spec fn public_bytes() -> Seq<u8> {
    seq![112u8, 117u8, 98u8, 108u8, 105u8, 99u8]
}

/// A Java declaration is exported when its first modifiers (with valid
/// text) contain `public`.
pub open spec fn java_exported(src: Seq<u8>, n: SyntaxNode) -> bool {
    match first_text_range(src, n.children@, "modifiers"@) {
        Some((a, b)) => contains_bytes(src.subrange(a as int, b as int), public_bytes()),
        None => false,
    }
}

fn is_rust_exported(src: &[u8], n: &SyntaxNode) -> (r: bool)
    requires
        wf_node(*n, src@.len()),
    ensures
        r == rust_exported(src@, *n),
{
    match first_text_range_of(src, n, "visibility_modifier") {
        Some((a, b)) => match text_at(src, a, b) {
            Some(t) => str_eq(t.as_str(), "pub"),
            None => false,
        },
        None => false,
    }
}

fn is_java_exported(src: &[u8], n: &SyntaxNode) -> (r: bool)
    requires
        wf_node(*n, src@.len()),
    ensures
        r == java_exported(src@, *n),
{
    match first_text_range_of(src, n, "modifiers") {
        Some((a, b)) => {
            let mut public: Vec<u8> = Vec::new();
            public.push(112u8);
            public.push(117u8);
            public.push(98u8);
            public.push(108u8);
            public.push(105u8);
            public.push(99u8);
            proof {
                assert(public@ =~= public_bytes());
            }
            bytes_contain(slice_subrange(src, a, b), public.as_slice())
        },
        None => false,
    }
}

// ---------------------------------------------------------------------------
// The symbols of each language
// ---------------------------------------------------------------------------

/// The mathematical content of an [`ExploredSymbol`].
pub struct SymbolView {
    pub name: Seq<char>,
    pub kind: Seq<char>,
    pub exported: bool,
    pub signature: Option<Seq<char>>,
    pub location: SymbolLocation,
}

pub open spec fn symbol_view(s: ExploredSymbol) -> SymbolView {
    SymbolView {
        name: s.name@,
        kind: s.kind@,
        exported: s.exported,
        signature: match s.signature {
            Some(t) => Some(t@),
            None => None,
        },
        location: s.location,
    }
}

pub open spec fn symbols_view(s: Seq<ExploredSymbol>) -> Seq<SymbolView> {
    s.map_values(|e: ExploredSymbol| symbol_view(e))
}

/// A symbol found at a node, with no signature.
pub open spec fn symbol_at(name: Seq<char>, kind: Seq<char>, exported: bool, n: SyntaxNode) -> SymbolView {
    SymbolView { name, kind, exported, signature: None, location: location_of(n) }
}

/// The symbol a declaration node gives, unless only exported symbols are
/// asked for and it is not exported.
pub open spec fn single(
    src: Seq<u8>,
    filter: bool,
    n: SyntaxNode,
    exported: bool,
    kind: Seq<char>,
    fallback: Seq<char>,
) -> Seq<SymbolView> {
    if filter && !exported {
        Seq::empty()
    } else {
        seq![symbol_at(name_or(src, n, fallback), kind, exported, n)]
    }
}

/// The symbols of the `variable_declarator` children of a declaration that
/// have a `name` with valid text.
pub open spec fn declarators(src: Seq<u8>, cs: Seq<SyntaxNode>, exported: bool, kind: Seq<char>) -> Seq<SymbolView>
    decreases cs.len(),
{
    if cs.len() == 0 {
        Seq::empty()
    } else {
        let c = cs.last();
        declarators(src, cs.drop_last(), exported, kind) + match c.name_range {
            Some((a, b)) => if c.kind@ == "variable_declarator"@ && text_of(src, a as nat, b as nat) is Some {
                seq![symbol_at(text_of(src, a as nat, b as nat)->Some_0, kind, exported, c)]
            } else {
                Seq::empty()
            },
            None => Seq::empty(),
        }
    }
}

/// A TypeScript node is exported when it has an `export` child or its parent
/// is an `export_statement` (`ctx`); members of an exported declaration are
/// not exported by it.
pub open spec fn ts_exported(n: SyntaxNode, ctx: bool) -> bool {
    ctx || has_child_kind(n, "export"@)
}

/// Whether the children of a node stand directly in an export statement.
pub open spec fn ts_child_ctx(n: SyntaxNode) -> bool {
    n.kind@ == "export_statement"@
}

/// The symbols a TypeScript (or JavaScript) node gives by itself.
pub open spec fn ts_own(src: Seq<u8>, filter: bool, n: SyntaxNode, ctx: bool) -> Seq<SymbolView> {
    let k = n.kind@;
    let exported = ts_exported(n, ctx);
    if k == "function_declaration"@ || k == "method_definition"@ || k == "arrow_function"@ {
        single(src, filter, n, exported, "function"@, "<anonymous>"@)
    } else if k == "class_declaration"@ {
        single(src, filter, n, exported, "class"@, "<anonymous>"@)
    } else if k == "interface_declaration"@ {
        single(src, filter, n, exported, "interface"@, "<unnamed>"@)
    } else if k == "type_alias_declaration"@ {
        single(src, filter, n, exported, "type"@, "<unnamed>"@)
    } else if k == "enum_declaration"@ {
        single(src, filter, n, exported, "enum"@, "<unnamed>"@)
    } else if k == "lexical_declaration"@ || k == "variable_declaration"@ {
        if filter && !exported {
            Seq::empty()
        } else {
            declarators(src, n.children@, exported, "const"@)
        }
    } else {
        Seq::empty()
    }
}

/// The symbols a Rust node gives by itself.
pub open spec fn rust_own(src: Seq<u8>, filter: bool, n: SyntaxNode) -> Seq<SymbolView> {
    let k = n.kind@;
    let exported = rust_exported(src, n);
    if k == "function_item"@ {
        single(src, filter, n, exported, "function"@, "<unnamed>"@)
    } else if k == "struct_item"@ {
        single(src, filter, n, exported, "struct"@, "<unnamed>"@)
    } else if k == "enum_item"@ {
        single(src, filter, n, exported, "enum"@, "<unnamed>"@)
    } else if k == "trait_item"@ {
        single(src, filter, n, exported, "trait"@, "<unnamed>"@)
    } else if k == "mod_item"@ {
        single(src, filter, n, exported, "module"@, "<unnamed>"@)
    } else if k == "const_item"@ || k == "static_item"@ {
        single(src, filter, n, exported, "const"@, "<unnamed>"@)
    } else {
        Seq::empty()
    }
}

/// The symbols a Java node gives by itself.
pub open spec fn java_own(src: Seq<u8>, filter: bool, n: SyntaxNode) -> Seq<SymbolView> {
    let k = n.kind@;
    let exported = java_exported(src, n);
    if k == "class_declaration"@ {
        single(src, filter, n, exported, "class"@, "<unnamed>"@)
    } else if k == "interface_declaration"@ {
        single(src, filter, n, exported, "interface"@, "<unnamed>"@)
    } else if k == "enum_declaration"@ {
        single(src, filter, n, exported, "enum"@, "<unnamed>"@)
    } else if k == "method_declaration"@ {
        single(src, filter, n, exported, "method"@, "<unnamed>"@)
    } else if k == "field_declaration"@ {
        if filter && !exported {
            Seq::empty()
        } else {
            declarators(src, n.children@, exported, "field"@)
        }
    } else {
        Seq::empty()
    }
}

pub open spec fn is_ts_family(lang: LanguageKind) -> bool {
    lang == LanguageKind::TypeScript || lang == LanguageKind::Tsx || lang == LanguageKind::JavaScript
}

/// The symbols a node gives by itself in the given language.
pub open spec fn own_symbols(lang: LanguageKind, src: Seq<u8>, filter: bool, n: SyntaxNode, ctx: bool) -> Seq<SymbolView> {
    if is_ts_family(lang) {
        ts_own(src, filter, n, ctx)
    } else if lang == LanguageKind::Rust {
        rust_own(src, filter, n)
    } else {
        java_own(src, filter, n)
    }
}

/// The symbols of a subtree in document order: the node's own, then those of
/// its children in turn.
pub open spec fn subtree_symbols(lang: LanguageKind, src: Seq<u8>, filter: bool, n: SyntaxNode, ctx: bool) -> Seq<SymbolView>
    decreases n,
{
    own_symbols(lang, src, filter, n, ctx) + forest_symbols(lang, src, filter, n.children@, ts_child_ctx(n))
}

/// The symbols of a sequence of subtrees, in order.
pub open spec fn forest_symbols(lang: LanguageKind, src: Seq<u8>, filter: bool, s: Seq<SyntaxNode>, ctx: bool) -> Seq<SymbolView>
    decreases s,
{
    if s.len() == 0 {
        Seq::empty()
    } else {
        forest_symbols(lang, src, filter, s.drop_last(), ctx) + subtree_symbols(lang, src, filter, s.last(), ctx)
    }
}

/// The symbols of a tree: those of the subtrees below its root.
pub open spec fn tree_symbols(lang: LanguageKind, src: Seq<u8>, filter: bool, root: SyntaxNode) -> Seq<SymbolView> {
    forest_symbols(lang, src, filter, root.children@, ts_child_ctx(root))
}

/// Every symbol of a list is exported.
pub open spec fn all_exported(s: Seq<SymbolView>) -> bool {
    forall|i: int| 0 <= i < s.len() ==> (#[trigger] s[i]).exported
}

proof fn lemma_declarators_exported(src: Seq<u8>, cs: Seq<SyntaxNode>, kind: Seq<char>)
    ensures
        all_exported(declarators(src, cs, true, kind)),
    decreases cs.len(),
{
    if cs.len() > 0 {
        lemma_declarators_exported(src, cs.drop_last(), kind);
        let d = declarators(src, cs, true, kind);
        let a = declarators(src, cs.drop_last(), true, kind);
        assert forall|i: int| 0 <= i < d.len() implies (#[trigger] d[i]).exported by {
            if i < a.len() {
                assert(d[i] == a[i]);
            }
        }
    }
}

proof fn lemma_own_exported(lang: LanguageKind, src: Seq<u8>, n: SyntaxNode, ctx: bool)
    ensures
        all_exported(own_symbols(lang, src, true, n, ctx)),
{
    lemma_declarators_exported(src, n.children@, "const"@);
    lemma_declarators_exported(src, n.children@, "field"@);
}

proof fn lemma_subtree_exported(lang: LanguageKind, src: Seq<u8>, n: SyntaxNode, ctx: bool)
    ensures
        all_exported(subtree_symbols(lang, src, true, n, ctx)),
    decreases n,
{
    lemma_own_exported(lang, src, n, ctx);
    lemma_forest_exported(lang, src, n.children@, ts_child_ctx(n));
    let a = own_symbols(lang, src, true, n, ctx);
    let b = forest_symbols(lang, src, true, n.children@, ts_child_ctx(n));
    assert forall|i: int| 0 <= i < (a + b).len() implies (#[trigger] (a + b)[i]).exported by {
        if i < a.len() {
            assert((a + b)[i] == a[i]);
        } else {
            assert((a + b)[i] == b[i - a.len()]);
        }
    }
}

proof fn lemma_forest_exported(lang: LanguageKind, src: Seq<u8>, s: Seq<SyntaxNode>, ctx: bool)
    ensures
        all_exported(forest_symbols(lang, src, true, s, ctx)),
    decreases s,
{
    if s.len() > 0 {
        lemma_forest_exported(lang, src, s.drop_last(), ctx);
        lemma_subtree_exported(lang, src, s.last(), ctx);
        let a = forest_symbols(lang, src, true, s.drop_last(), ctx);
        let b = subtree_symbols(lang, src, true, s.last(), ctx);
        assert forall|i: int| 0 <= i < (a + b).len() implies (#[trigger] (a + b)[i]).exported by {
            if i < a.len() {
                assert((a + b)[i] == a[i]);
            } else {
                assert((a + b)[i] == b[i - a.len()]);
            }
        }
    }
}

/// When only exported symbols are asked for, every symbol found is
/// exported.
pub proof fn lemma_filtered_symbols_exported(lang: LanguageKind, src: Seq<u8>, root: SyntaxNode)
    ensures
        all_exported(tree_symbols(lang, src, true, root)),
{
    lemma_forest_exported(lang, src, root.children@, ts_child_ctx(root));
}

/// The symbol of a declaration node: named by its `name` child (or the
/// fallback), of the given kind, with no signature, at the node's rows; kept
/// unless only exported symbols are asked for and it is not exported.
pub open spec fn declared(
    src: Seq<u8>,
    filter: bool,
    n: SyntaxNode,
    exported: bool,
    kind: Seq<char>,
    fallback: Seq<char>,
) -> Seq<SymbolView> {
    if filter && !exported {
        Seq::empty()
    } else {
        seq![SymbolView {
            name: name_or(src, n, fallback),
            kind,
            exported,
            signature: None,
            location: SymbolLocation { start_line: line_of(n.start_row), end_line: line_of(n.end_row) },
        }]
    }
}

/// The symbols found below a node, its children taken in order; a child of
/// an `export_statement` stands in an export.
pub open spec fn symbols_below(lang: LanguageKind, src: Seq<u8>, filter: bool, n: SyntaxNode) -> Seq<SymbolView> {
    forest_symbols(lang, src, filter, n.children@, n.kind@ == "export_statement"@)
}

/// In Rust, each declaration gives one symbol before those found below it:
/// a `function_item` a `function`, a `struct_item` a `struct`, an
/// `enum_item` an `enum`, a `trait_item` a `trait`, a `mod_item` a
/// `module`, a `const_item` or `static_item` a `const`; each named by its
/// `name` child (`<unnamed>` without one), exported when its visibility is
/// `pub`, and left out when only exported symbols are asked for and it is
/// not exported. Any other node gives only what is found below it.
pub proof fn lemma_rust_declarations(src: Seq<u8>, filter: bool, n: SyntaxNode, ctx: bool)
    ensures
        ({
            let k = n.kind@;
            let e = rust_exported(src, n);
            let all = subtree_symbols(LanguageKind::Rust, src, filter, n, ctx);
            let below = symbols_below(LanguageKind::Rust, src, filter, n);
            &&& k == "function_item"@ ==> all == declared(src, filter, n, e, "function"@, "<unnamed>"@) + below
            &&& k == "struct_item"@ ==> all == declared(src, filter, n, e, "struct"@, "<unnamed>"@) + below
            &&& k == "enum_item"@ ==> all == declared(src, filter, n, e, "enum"@, "<unnamed>"@) + below
            &&& k == "trait_item"@ ==> all == declared(src, filter, n, e, "trait"@, "<unnamed>"@) + below
            &&& k == "mod_item"@ ==> all == declared(src, filter, n, e, "module"@, "<unnamed>"@) + below
            &&& (k == "const_item"@ || k == "static_item"@) ==> all == declared(src, filter, n, e, "const"@, "<unnamed>"@) + below
            &&& !(k == "function_item"@ || k == "struct_item"@ || k == "enum_item"@ || k == "trait_item"@
                || k == "mod_item"@ || k == "const_item"@ || k == "static_item"@) ==> all == below
        }),
{
    reveal_strlit("function_item");
    reveal_strlit("struct_item");
    reveal_strlit("enum_item");
    reveal_strlit("trait_item");
    reveal_strlit("mod_item");
    reveal_strlit("const_item");
    reveal_strlit("static_item");
    assert("function_item"@.len() == 13);
    assert("struct_item"@.len() == 11);
    assert("enum_item"@.len() == 9);
    assert("trait_item"@.len() == 10);
    assert("mod_item"@.len() == 8);
    assert("const_item"@.len() == 10);
    assert("static_item"@.len() == 11);
    assert("struct_item"@[2] != "static_item"@[2]);
    assert("trait_item"@[0] != "const_item"@[0]);
    assert(Seq::<SymbolView>::empty() + symbols_below(LanguageKind::Rust, src, filter, n)
        =~= symbols_below(LanguageKind::Rust, src, filter, n));
}

/// In Java, each declaration gives one symbol before those found below it:
/// a `class_declaration` a `class`, an `interface_declaration` an
/// `interface`, an `enum_declaration` an `enum`, a `method_declaration` a
/// `method`, each named by its `name` child (`<unnamed>` without one),
/// exported when its modifiers hold `public`, and left out when only
/// exported symbols are asked for and it is not exported. Any other node but
/// a field declaration gives only what is found below it.
pub proof fn lemma_java_declarations(src: Seq<u8>, filter: bool, n: SyntaxNode, ctx: bool)
    ensures
        ({
            let k = n.kind@;
            let e = java_exported(src, n);
            let all = subtree_symbols(LanguageKind::Java, src, filter, n, ctx);
            let below = symbols_below(LanguageKind::Java, src, filter, n);
            &&& k == "class_declaration"@ ==> all == declared(src, filter, n, e, "class"@, "<unnamed>"@) + below
            &&& k == "interface_declaration"@ ==> all == declared(src, filter, n, e, "interface"@, "<unnamed>"@) + below
            &&& k == "enum_declaration"@ ==> all == declared(src, filter, n, e, "enum"@, "<unnamed>"@) + below
            &&& k == "method_declaration"@ ==> all == declared(src, filter, n, e, "method"@, "<unnamed>"@) + below
            &&& k == "field_declaration"@ && filter && !e ==> all == below
            &&& !(k == "class_declaration"@ || k == "interface_declaration"@ || k == "enum_declaration"@
                || k == "method_declaration"@ || k == "field_declaration"@) ==> all == below
        }),
{
    reveal_strlit("class_declaration");
    reveal_strlit("interface_declaration");
    reveal_strlit("enum_declaration");
    reveal_strlit("method_declaration");
    reveal_strlit("field_declaration");
    assert("class_declaration"@.len() == 17);
    assert("interface_declaration"@.len() == 21);
    assert("enum_declaration"@.len() == 16);
    assert("method_declaration"@.len() == 18);
    assert("field_declaration"@.len() == 17);
    assert("class_declaration"@[0] != "field_declaration"@[0]);
    assert(Seq::<SymbolView>::empty() + symbols_below(LanguageKind::Java, src, filter, n)
        =~= symbols_below(LanguageKind::Java, src, filter, n));
}

/// In TypeScript (and TSX and JavaScript), each declaration gives one symbol
/// before those found below it: a `function_declaration`,
/// `method_definition` or `arrow_function` a `function` (`<anonymous>`
/// without a name), a `class_declaration` a `class` (`<anonymous>`), an
/// `interface_declaration` an `interface`, a `type_alias_declaration` a
/// `type`, an `enum_declaration` an `enum` (`<unnamed>`); a declaration is
/// exported when it has an `export` child or stands directly in an export
/// statement (`ctx`), and is left out when only exported symbols are asked
/// for and it is not exported. Any other node but a variable declaration
/// gives only what is found below it.
pub proof fn lemma_ts_declarations(lang: LanguageKind, src: Seq<u8>, filter: bool, n: SyntaxNode, ctx: bool)
    requires
        lang == LanguageKind::TypeScript || lang == LanguageKind::Tsx || lang == LanguageKind::JavaScript,
    ensures
        ({
            let k = n.kind@;
            let e = ctx || has_child_kind(n, "export"@);
            let all = subtree_symbols(lang, src, filter, n, ctx);
            let below = symbols_below(lang, src, filter, n);
            &&& (k == "function_declaration"@ || k == "method_definition"@ || k == "arrow_function"@)
                ==> all == declared(src, filter, n, e, "function"@, "<anonymous>"@) + below
            &&& k == "class_declaration"@ ==> all == declared(src, filter, n, e, "class"@, "<anonymous>"@) + below
            &&& k == "interface_declaration"@ ==> all == declared(src, filter, n, e, "interface"@, "<unnamed>"@) + below
            &&& k == "type_alias_declaration"@ ==> all == declared(src, filter, n, e, "type"@, "<unnamed>"@) + below
            &&& k == "enum_declaration"@ ==> all == declared(src, filter, n, e, "enum"@, "<unnamed>"@) + below
            &&& (k == "lexical_declaration"@ || k == "variable_declaration"@) && filter && !e ==> all == below
            &&& !(k == "function_declaration"@ || k == "method_definition"@ || k == "arrow_function"@
                || k == "class_declaration"@ || k == "interface_declaration"@ || k == "type_alias_declaration"@
                || k == "enum_declaration"@ || k == "lexical_declaration"@ || k == "variable_declaration"@) ==> all == below
        }),
{
    reveal_strlit("function_declaration");
    reveal_strlit("method_definition");
    reveal_strlit("arrow_function");
    reveal_strlit("class_declaration");
    reveal_strlit("interface_declaration");
    reveal_strlit("type_alias_declaration");
    reveal_strlit("enum_declaration");
    reveal_strlit("lexical_declaration");
    reveal_strlit("variable_declaration");
    assert("function_declaration"@.len() == 20);
    assert("method_definition"@.len() == 17);
    assert("arrow_function"@.len() == 14);
    assert("class_declaration"@.len() == 17);
    assert("interface_declaration"@.len() == 21);
    assert("type_alias_declaration"@.len() == 22);
    assert("enum_declaration"@.len() == 16);
    assert("lexical_declaration"@.len() == 19);
    assert("variable_declaration"@.len() == 20);
    assert("function_declaration"@[0] != "variable_declaration"@[0]);
    assert("method_definition"@[0] != "class_declaration"@[0]);
    assert(Seq::<SymbolView>::empty() + symbols_below(lang, src, filter, n) =~= symbols_below(lang, src, filter, n));
}

/// The symbols of a tree are those found below its root.
pub proof fn lemma_tree_symbols_below_root(lang: LanguageKind, src: Seq<u8>, filter: bool, root: SyntaxNode)
    ensures
        tree_symbols(lang, src, filter, root) == symbols_below(lang, src, filter, root),
{
}

// ---------------------------------------------------------------------------
// Collecting the symbols
// ---------------------------------------------------------------------------

fn push_symbol(out: &mut Vec<ExploredSymbol>, name: String, kind: &str, exported: bool, n: &SyntaxNode)
    ensures
        symbols_view(final(out)@) == symbols_view(old(out)@).push(symbol_at(name@, kind@, exported, *n)),
{
    let location = SymbolLocation { start_line: line_at(n.start_row), end_line: line_at(n.end_row) };
    let ghost before = out@;
    out.push(ExploredSymbol { name, kind: kind.to_owned(), exported, signature: None, location });
    proof {
        assert(symbols_view(out@) =~= symbols_view(before).push(symbol_at(name@, kind@, exported, *n)));
    }
}

/// The text of the node's `name` child, or the fallback.
fn node_name(src: &[u8], n: &SyntaxNode, fallback: &str) -> (r: String)
    requires
        wf_node(*n, src@.len()),
    ensures
        r@ == name_or(src@, *n, fallback@),
{
    match n.name_range {
        Some((a, b)) => match text_at(src, a, b) {
            Some(t) => t,
            None => fallback.to_owned(),
        },
        None => fallback.to_owned(),
    }
}

fn push_single(
    out: &mut Vec<ExploredSymbol>,
    src: &[u8],
    filter: bool,
    n: &SyntaxNode,
    exported: bool,
    kind: &str,
    fallback: &str,
)
    requires
        wf_node(*n, src@.len()),
    ensures
        symbols_view(final(out)@) == symbols_view(old(out)@) + single(src@, filter, *n, exported, kind@, fallback@),
{
    if filter && !exported {
        proof {
            assert(symbols_view(out@) =~= symbols_view(out@) + Seq::<SymbolView>::empty());
        }
        return;
    }
    let name = node_name(src, n, fallback);
    push_symbol(out, name, kind, exported, n);
    proof {
        assert(symbols_view(out@) =~= symbols_view(old(out)@) + single(src@, filter, *n, exported, kind@, fallback@));
    }
}

fn push_declarators(out: &mut Vec<ExploredSymbol>, src: &[u8], n: &SyntaxNode, exported: bool, kind: &str)
    requires
        wf_node(*n, src@.len()),
    ensures
        symbols_view(final(out)@) == symbols_view(old(out)@) + declarators(src@, n.children@, exported, kind@),
{
    let ghost start = symbols_view(out@);
    let mut i: usize = 0;
    proof {
        assert(n.children@.take(0) =~= Seq::<SyntaxNode>::empty());
        assert(start =~= start + declarators(src@, n.children@.take(0), exported, kind@));
    }
    while i < n.children.len()
        invariant
            i <= n.children@.len(),
            wf_node(*n, src@.len()),
            symbols_view(out@) == start + declarators(src@, n.children@.take(i as int), exported, kind@),
        decreases n.children@.len() - i,
    {
        let c = &n.children[i];
        proof {
            lemma_wf_nodes_index(n.children@, src@.len(), i as int);
            assert(n.children@.take(i as int + 1).drop_last() =~= n.children@.take(i as int));
            assert(n.children@.take(i as int + 1).last() == n.children@[i as int]);
        }
        let ghost before = symbols_view(out@);
        match c.name_range {
            Some((a, b)) => {
                if str_eq(c.kind.as_str(), "variable_declarator") {
                    match text_at(src, a, b) {
                        Some(name) => {
                            push_symbol(out, name, kind, exported, c);
                        },
                        None => {},
                    }
                }
            },
            None => {},
        }
        proof {
            assert(symbols_view(out@) =~= start + declarators(src@, n.children@.take(i as int + 1), exported, kind@));
        }
        i = i + 1;
    }
    proof {
        assert(n.children@.take(i as int) =~= n.children@);
    }
}

fn push_ts_own(out: &mut Vec<ExploredSymbol>, src: &[u8], filter: bool, n: &SyntaxNode, ctx: bool)
    requires
        wf_node(*n, src@.len()),
    ensures
        symbols_view(final(out)@) == symbols_view(old(out)@) + ts_own(src@, filter, *n, ctx),
{
    let exported = ctx || has_child_of_kind(n, "export");
    let k = n.kind.as_str();
    if str_eq(k, "function_declaration") || str_eq(k, "method_definition") || str_eq(k, "arrow_function") {
        push_single(out, src, filter, n, exported, "function", "<anonymous>");
    } else if str_eq(k, "class_declaration") {
        push_single(out, src, filter, n, exported, "class", "<anonymous>");
    } else if str_eq(k, "interface_declaration") {
        push_single(out, src, filter, n, exported, "interface", "<unnamed>");
    } else if str_eq(k, "type_alias_declaration") {
        push_single(out, src, filter, n, exported, "type", "<unnamed>");
    } else if str_eq(k, "enum_declaration") {
        push_single(out, src, filter, n, exported, "enum", "<unnamed>");
    } else if str_eq(k, "lexical_declaration") || str_eq(k, "variable_declaration") {
        if !(filter && !exported) {
            push_declarators(out, src, n, exported, "const");
        } else {
            proof {
                assert(symbols_view(out@) =~= symbols_view(out@) + Seq::<SymbolView>::empty());
            }
        }
    } else {
        proof {
            assert(symbols_view(out@) =~= symbols_view(out@) + Seq::<SymbolView>::empty());
        }
    }
}

fn push_rust_own(out: &mut Vec<ExploredSymbol>, src: &[u8], filter: bool, n: &SyntaxNode)
    requires
        wf_node(*n, src@.len()),
    ensures
        symbols_view(final(out)@) == symbols_view(old(out)@) + rust_own(src@, filter, *n),
{
    let exported = is_rust_exported(src, n);
    let k = n.kind.as_str();
    if str_eq(k, "function_item") {
        push_single(out, src, filter, n, exported, "function", "<unnamed>");
    } else if str_eq(k, "struct_item") {
        push_single(out, src, filter, n, exported, "struct", "<unnamed>");
    } else if str_eq(k, "enum_item") {
        push_single(out, src, filter, n, exported, "enum", "<unnamed>");
    } else if str_eq(k, "trait_item") {
        push_single(out, src, filter, n, exported, "trait", "<unnamed>");
    } else if str_eq(k, "mod_item") {
        push_single(out, src, filter, n, exported, "module", "<unnamed>");
    } else if str_eq(k, "const_item") || str_eq(k, "static_item") {
        push_single(out, src, filter, n, exported, "const", "<unnamed>");
    } else {
        proof {
            assert(symbols_view(out@) =~= symbols_view(out@) + Seq::<SymbolView>::empty());
        }
    }
}

fn push_java_own(out: &mut Vec<ExploredSymbol>, src: &[u8], filter: bool, n: &SyntaxNode)
    requires
        wf_node(*n, src@.len()),
    ensures
        symbols_view(final(out)@) == symbols_view(old(out)@) + java_own(src@, filter, *n),
{
    let exported = is_java_exported(src, n);
    let k = n.kind.as_str();
    if str_eq(k, "class_declaration") {
        push_single(out, src, filter, n, exported, "class", "<unnamed>");
    } else if str_eq(k, "interface_declaration") {
        push_single(out, src, filter, n, exported, "interface", "<unnamed>");
    } else if str_eq(k, "enum_declaration") {
        push_single(out, src, filter, n, exported, "enum", "<unnamed>");
    } else if str_eq(k, "method_declaration") {
        push_single(out, src, filter, n, exported, "method", "<unnamed>");
    } else if str_eq(k, "field_declaration") {
        if !(filter && !exported) {
            push_declarators(out, src, n, exported, "field");
        } else {
            proof {
                assert(symbols_view(out@) =~= symbols_view(out@) + Seq::<SymbolView>::empty());
            }
        }
    } else {
        proof {
            assert(symbols_view(out@) =~= symbols_view(out@) + Seq::<SymbolView>::empty());
        }
    }
}

/// Appends the symbols of a subtree, in document order.
fn push_subtree(out: &mut Vec<ExploredSymbol>, lang: LanguageKind, src: &[u8], filter: bool, n: &SyntaxNode, ctx: bool)
    requires
        wf_node(*n, src@.len()),
    ensures
        symbols_view(final(out)@) == symbols_view(old(out)@) + subtree_symbols(lang, src@, filter, *n, ctx),
    decreases n,
{
    match lang {
        LanguageKind::TypeScript | LanguageKind::Tsx | LanguageKind::JavaScript => push_ts_own(out, src, filter, n, ctx),
        LanguageKind::Rust => push_rust_own(out, src, filter, n),
        LanguageKind::Java => push_java_own(out, src, filter, n),
    }
    let inner = str_eq(n.kind.as_str(), "export_statement");
    let ghost start = symbols_view(old(out)@) + own_symbols(lang, src@, filter, *n, ctx);
    proof {
        assert(n.children@.take(0) =~= Seq::<SyntaxNode>::empty());
        assert(symbols_view(out@) =~= start + forest_symbols(lang, src@, filter, n.children@.take(0), inner));
    }
    let mut i: usize = 0;
    while i < n.children.len()
        invariant
            i <= n.children@.len(),
            wf_node(*n, src@.len()),
            symbols_view(out@) == start + forest_symbols(lang, src@, filter, n.children@.take(i as int), inner),
        decreases n.children@.len() - i,
    {
        proof {
            lemma_wf_nodes_index(n.children@, src@.len(), i as int);
            assert(n.children@.take(i as int + 1).drop_last() =~= n.children@.take(i as int));
            assert(n.children@.take(i as int + 1).last() == n.children@[i as int]);
        }
        push_subtree(out, lang, src, filter, &n.children[i], inner);
        proof {
            assert(symbols_view(out@) =~= start + forest_symbols(lang, src@, filter, n.children@.take(i as int + 1), inner));
        }
        i = i + 1;
    }
    proof {
        assert(n.children@.take(i as int) =~= n.children@);
    }
}

/// The symbols of a well-formed syntax tree of `src`, in document order;
/// with `filter`, only the exported ones.
pub fn extract_symbols(lang: LanguageKind, root: &SyntaxNode, src: &[u8], filter: bool) -> (r: Vec<ExploredSymbol>)
    requires
        wf_node(*root, src@.len()),
    ensures
        symbols_view(r@) == tree_symbols(lang, src@, filter, *root),
{
    let mut out: Vec<ExploredSymbol> = Vec::new();
    let ctx = str_eq(root.kind.as_str(), "export_statement");
    let ghost start = symbols_view(out@);
    proof {
        assert(start =~= Seq::<SymbolView>::empty());
        assert(root.children@.take(0) =~= Seq::<SyntaxNode>::empty());
    }
    let mut i: usize = 0;
    while i < root.children.len()
        invariant
            i <= root.children@.len(),
            wf_node(*root, src@.len()),
            ctx == ts_child_ctx(*root),
            symbols_view(out@) == forest_symbols(lang, src@, filter, root.children@.take(i as int), ctx),
        decreases root.children@.len() - i,
    {
        proof {
            lemma_wf_nodes_index(root.children@, src@.len(), i as int);
            assert(root.children@.take(i as int + 1).drop_last() =~= root.children@.take(i as int));
            assert(root.children@.take(i as int + 1).last() == root.children@[i as int]);
        }
        push_subtree(&mut out, lang, src, filter, &root.children[i], ctx);
        i = i + 1;
    }
    proof {
        assert(root.children@.take(i as int) =~= root.children@);
    }
    out
}

// ---------------------------------------------------------------------------
// Parsing with tree-sitter
// ---------------------------------------------------------------------------

#[verifier::external_type_specification]
#[verifier::external_body]
pub struct ExTsNode<'tree>(tree_sitter::Node<'tree>);

/// The tree-sitter grammars the library parses with.
#[derive(Debug, Clone, Copy, PartialEq, Eq, Structural)]
pub enum Grammar {
    TypeScript,
    Tsx,
    Rust,
    Java,
}

/// The grammar a language is parsed with: JavaScript with the TypeScript
/// grammar, which accepts it.
pub open spec fn grammar_of(lang: LanguageKind) -> Grammar {
    match lang {
        LanguageKind::TypeScript | LanguageKind::JavaScript => Grammar::TypeScript,
        LanguageKind::Tsx => Grammar::Tsx,
        LanguageKind::Rust => Grammar::Rust,
        LanguageKind::Java => Grammar::Java,
    }
}

/// What parsing a source text with a grammar gives: the message of the
/// refusal of the grammar by the parser, or the syntax tree (none when the
/// parser gives none).
pub uninterp spec fn tree_sitter_parse(grammar: Grammar, source: Seq<char>) -> Result<Option<SyntaxNode>, Seq<char>>;

/// A tree-sitter node with everything below it, as a [`SyntaxNode`]: its
/// kind, byte range, rows, the byte range of `child_by_field_name("name")`,
/// and its children. Nothing is claimed of the result.
#[verifier::external_body]
fn syntax_node(node: tree_sitter::Node) -> SyntaxNode {
    SyntaxNode {
        kind: node.kind().to_owned(),
        start_byte: node.start_byte(),
        end_byte: node.end_byte(),
        start_row: node.start_position().row,
        end_row: node.end_position().row,
        name_range: node.child_by_field_name("name").map(|c| (c.start_byte(), c.end_byte())),
        children: node.children(&mut node.walk()).map(syntax_node).collect(),
    }
}

/// `tree_sitter::Parser::set_language` with the TypeScript grammar of `tree_sitter_typescript`, then
/// `Parser::parse` of the source. The result is claimed to be a function of
/// the grammar and the source alone, named [`tree_sitter_parse`]: the
/// refusal of the grammar (its message), or the tree the parser gives,
/// converted by [`syntax_node`].
#[verifier::external_body]
fn parse_typescript(source: &str) -> (r: Result<Option<SyntaxNode>, String>)
    ensures
        match r {
            Ok(t) => tree_sitter_parse(Grammar::TypeScript, source@) == Ok::<Option<SyntaxNode>, Seq<char>>(t),
            Err(m) => tree_sitter_parse(Grammar::TypeScript, source@) == Err::<Option<SyntaxNode>, Seq<char>>(m@),
        },
{
    let mut parser = tree_sitter::Parser::new();
    parser.set_language(tree_sitter_typescript::language_typescript()).map_err(|e| e.to_string())?;
    Ok(parser.parse(source, None).map(|t| syntax_node(t.root_node())))
}

/// `tree_sitter::Parser::set_language` with the TSX grammar of `tree_sitter_typescript`, then
/// `Parser::parse` of the source. The result is claimed to be a function of
/// the grammar and the source alone, named [`tree_sitter_parse`]: the
/// refusal of the grammar (its message), or the tree the parser gives,
/// converted by [`syntax_node`].
#[verifier::external_body]
fn parse_tsx(source: &str) -> (r: Result<Option<SyntaxNode>, String>)
    ensures
        match r {
            Ok(t) => tree_sitter_parse(Grammar::Tsx, source@) == Ok::<Option<SyntaxNode>, Seq<char>>(t),
            Err(m) => tree_sitter_parse(Grammar::Tsx, source@) == Err::<Option<SyntaxNode>, Seq<char>>(m@),
        },
{
    let mut parser = tree_sitter::Parser::new();
    parser.set_language(tree_sitter_typescript::language_tsx()).map_err(|e| e.to_string())?;
    Ok(parser.parse(source, None).map(|t| syntax_node(t.root_node())))
}

/// `tree_sitter::Parser::set_language` with the grammar of `tree_sitter_rust`, then
/// `Parser::parse` of the source. The result is claimed to be a function of
/// the grammar and the source alone, named [`tree_sitter_parse`]: the
/// refusal of the grammar (its message), or the tree the parser gives,
/// converted by [`syntax_node`].
#[verifier::external_body]
fn parse_rust(source: &str) -> (r: Result<Option<SyntaxNode>, String>)
    ensures
        match r {
            Ok(t) => tree_sitter_parse(Grammar::Rust, source@) == Ok::<Option<SyntaxNode>, Seq<char>>(t),
            Err(m) => tree_sitter_parse(Grammar::Rust, source@) == Err::<Option<SyntaxNode>, Seq<char>>(m@),
        },
{
    let mut parser = tree_sitter::Parser::new();
    parser.set_language(tree_sitter_rust::language()).map_err(|e| e.to_string())?;
    Ok(parser.parse(source, None).map(|t| syntax_node(t.root_node())))
}

/// `tree_sitter::Parser::set_language` with the grammar of `tree_sitter_java`, then
/// `Parser::parse` of the source. The result is claimed to be a function of
/// the grammar and the source alone, named [`tree_sitter_parse`]: the
/// refusal of the grammar (its message), or the tree the parser gives,
/// converted by [`syntax_node`].
#[verifier::external_body]
fn parse_java(source: &str) -> (r: Result<Option<SyntaxNode>, String>)
    ensures
        match r {
            Ok(t) => tree_sitter_parse(Grammar::Java, source@) == Ok::<Option<SyntaxNode>, Seq<char>>(t),
            Err(m) => tree_sitter_parse(Grammar::Java, source@) == Err::<Option<SyntaxNode>, Seq<char>>(m@),
        },
{
    let mut parser = tree_sitter::Parser::new();
    parser.set_language(tree_sitter_java::language()).map_err(|e| e.to_string())?;
    Ok(parser.parse(source, None).map(|t| syntax_node(t.root_node())))
}

/// Parses a source text with the grammar of its language.
fn parse_syntax(lang: LanguageKind, source: &str) -> (r: Result<Option<SyntaxNode>, String>)
    ensures
        match r {
            Ok(t) => tree_sitter_parse(grammar_of(lang), source@) == Ok::<Option<SyntaxNode>, Seq<char>>(t),
            Err(m) => tree_sitter_parse(grammar_of(lang), source@) == Err::<Option<SyntaxNode>, Seq<char>>(m@),
        },
{
    match lang {
        LanguageKind::TypeScript | LanguageKind::JavaScript => parse_typescript(source),
        LanguageKind::Tsx => parse_tsx(source),
        LanguageKind::Rust => parse_rust(source),
        LanguageKind::Java => parse_java(source),
    }
}

// ---------------------------------------------------------------------------
// The result
// ---------------------------------------------------------------------------

/// The note on a symbol list cut to `max` symbols.
pub open spec fn truncation_note(max: nat) -> Seq<char> {
    "Symbol list truncated to "@ + decimal(max) + " symbols"@
}

/// The result made of the symbols found: at most `max_symbols` of them, with
/// a note when some were left out.
pub fn summarize(args: &ExploreCodeArgs, lang: LanguageKind, symbols: Vec<ExploredSymbol>) -> (r: ExploreCodeResult)
    ensures
        r.file_path@ == args.file_path@,
        r.language@ == language_name_spec(lang),
        symbols_view(r.symbols@) == symbols_view(symbols@).take(
            if symbols@.len() > args.max_symbols { args.max_symbols as int } else { symbols@.len() as int },
        ),
        symbols@.len() > args.max_symbols ==> (r.notes matches Some(ns) && ns@.len() == 1
            && ns@[0]@ == truncation_note(args.max_symbols as nat)),
        symbols@.len() <= args.max_symbols ==> r.notes is None,
{
    let mut symbols = symbols;
    let ghost all = symbols@;
    let truncated = symbols.len() > args.max_symbols;
    symbols.truncate(args.max_symbols);
    proof {
        if truncated {
            assert(symbols_view(symbols@) =~= symbols_view(all).take(args.max_symbols as int));
        } else {
            assert(symbols_view(symbols@) =~= symbols_view(all).take(all.len() as int));
        }
    }
    let notes = if truncated {
        let mut note = "Symbol list truncated to ".to_owned();
        push_str(&mut note, decimal_string(args.max_symbols as u128).as_str());
        push_str(&mut note, " symbols");
        let mut ns: Vec<String> = Vec::new();
        ns.push(note);
        Some(ns)
    } else {
        None
    };
    ExploreCodeResult { file_path: args.file_path.clone(), language: language_name(lang), symbols, notes }
}

/// Explores a source text whose syntax tree is given.
pub fn explore_tree(args: &ExploreCodeArgs, lang: LanguageKind, root: &SyntaxNode, source: &str) -> (r: ExploreCodeResult)
    requires
        wf_node(*root, encode_utf8(source@).len()),
    ensures
        r.file_path@ == args.file_path@,
        r.language@ == language_name_spec(lang),
        ({
            let all = tree_symbols(lang, encode_utf8(source@), args.exported, *root);
            &&& symbols_view(r.symbols@) == all.take(
                if all.len() > args.max_symbols { args.max_symbols as int } else { all.len() as int },
            )
            &&& all.len() > args.max_symbols ==> (r.notes matches Some(ns) && ns@.len() == 1
                && ns@[0]@ == truncation_note(args.max_symbols as nat))
            &&& all.len() <= args.max_symbols ==> r.notes is None
        }),
{
    let symbols = extract_symbols(lang, root, source.as_bytes(), args.exported);
    summarize(args, lang, symbols)
}

/// Explores a source text in a given language: parses it and collects its
/// symbols. A refused grammar and a missing tree are parse failures; so is a
/// tree with a byte range outside the source, which tree-sitter does not
/// give.
pub fn explore(args: &ExploreCodeArgs, lang: LanguageKind, source: &str) -> (r: Result<ExploreCodeResult, EngineError>)
    ensures
        match tree_sitter_parse(grammar_of(lang), source@) {
            Err(m) => r matches Err(e) && e@ == detailed_error(
                ErrorCode::ParseFailed,
                "Failed to set language"@,
                seq![("error"@, DetailView::Str(m))],
            ),
            Ok(None) => r matches Err(e) && e@ == plain_error(ErrorCode::ParseFailed, "Failed to parse file"@),
            Ok(Some(root)) => if wf_node(root, encode_utf8(source@).len()) {
                r matches Ok(res) && ({
                    let all = tree_symbols(lang, encode_utf8(source@), args.exported, root);
                    &&& res.file_path@ == args.file_path@
                    &&& res.language@ == language_name_spec(lang)
                    &&& symbols_view(res.symbols@) == all.take(
                        if all.len() > args.max_symbols { args.max_symbols as int } else { all.len() as int },
                    )
                    &&& all.len() > args.max_symbols ==> (res.notes matches Some(ns) && ns@.len() == 1
                        && ns@[0]@ == truncation_note(args.max_symbols as nat))
                    &&& all.len() <= args.max_symbols ==> res.notes is None
                })
            } else {
                r matches Err(e) && e@ == plain_error(ErrorCode::ParseFailed, "Failed to parse file"@)
            },
        },
{
    match parse_syntax(lang, source) {
        Err(m) => {
            let mut d: Vec<(String, DetailValue)> = Vec::new();
            d.push(("error".to_owned(), DetailValue::Str(m.clone())));
            proof {
                assert(details_view(d@) =~= seq![("error"@, DetailView::Str(m@))]);
            }
            Err(EngineError::new(ErrorCode::ParseFailed, "Failed to set language".to_owned()).with_details(d))
        },
        Ok(None) => Err(EngineError::new(ErrorCode::ParseFailed, "Failed to parse file".to_owned())),
        Ok(Some(root)) => {
            if !check_tree(&root, source.as_bytes().len()) {
                return Err(EngineError::new(ErrorCode::ParseFailed, "Failed to parse file".to_owned()));
            }
            Ok(explore_tree(args, lang, &root, source))
        },
    }
}

/// Explores a file's text: its language is told by the extension of the
/// requested path, then it is parsed and its symbols collected.
pub fn run(args: &ExploreCodeArgs, source: &str) -> (r: Result<ExploreCodeResult, EngineError>)
    requires
        args.file_path@.len() < i64::MAX,
    ensures
        language_of_extension(extension_of(args.file_path@)) is None ==> (r matches Err(e) && e@ == detailed_error(
            ErrorCode::InvalidArgument,
            "Unsupported file type"@,
            seq![("extension"@, DetailView::Str(extension_of(args.file_path@)))],
        )),
        language_of_extension(extension_of(args.file_path@)) matches Some(lang) ==> (match tree_sitter_parse(grammar_of(lang), source@) {
            Err(m) => r matches Err(e) && e@ == detailed_error(
                ErrorCode::ParseFailed,
                "Failed to set language"@,
                seq![("error"@, DetailView::Str(m))],
            ),
            Ok(None) => r matches Err(e) && e@ == plain_error(ErrorCode::ParseFailed, "Failed to parse file"@),
            Ok(Some(root)) => if wf_node(root, encode_utf8(source@).len()) {
                r matches Ok(res) && ({
                    let all = tree_symbols(lang, encode_utf8(source@), args.exported, root);
                    &&& res.file_path@ == args.file_path@
                    &&& res.language@ == language_name_spec(lang)
                    &&& symbols_view(res.symbols@) == all.take(
                        if all.len() > args.max_symbols { args.max_symbols as int } else { all.len() as int },
                    )
                    &&& all.len() > args.max_symbols ==> (res.notes matches Some(ns) && ns@.len() == 1
                        && ns@[0]@ == truncation_note(args.max_symbols as nat))
                    &&& all.len() <= args.max_symbols ==> res.notes is None
                })
            } else {
                r matches Err(e) && e@ == plain_error(ErrorCode::ParseFailed, "Failed to parse file"@)
            },
        }),
{
    let lang = detect_language(args.file_path.as_str())?;
    explore(args, lang, source)
}

} // verus!
