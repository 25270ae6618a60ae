//! The languages that can be analysed, and their parsers.

use vstd::prelude::*;

use crate::paths;
use crate::syntax::SyntaxNode;
use crate::text;

verus! {

/// A language whose sources can be parsed.
#[derive(Debug, Clone, Copy, PartialEq, Eq, Structural)]
pub enum Language {
    Go,
    Java,
    Kotlin,
    JavaScript,
    TypeScript,
}

/// The language of a file, by its extension.
pub open spec fn language_of(path: Seq<char>) -> Option<Language> {
    match paths::extension_of(path) {
        Some(ext) => if ext == "go"@ {
            Some(Language::Go)
        } else if ext == "java"@ {
            Some(Language::Java)
        } else if ext == "kt"@ || ext == "kts"@ {
            Some(Language::Kotlin)
        } else {
            None
        },
        None => None,
    }
}

/// The language of a file, by its extension: Go, Java and Kotlin files are
/// analysed.
pub fn language_for_path(path: &str) -> (language: Option<Language>)
    ensures
        language == language_of(path@),
{
    match paths::extension(path) {
        Some(ext) => {
            if text::same(ext, "go") {
                Some(Language::Go)
            } else if text::same(ext, "java") {
                Some(Language::Java)
            } else if text::same(ext, "kt") || text::same(ext, "kts") {
                Some(Language::Kotlin)
            } else {
                None
            }
        },
        None => None,
    }
}

/// A syntax tree as its parser holds it.
#[verifier::external_type_specification]
#[verifier::external_body]
pub struct ExTree(tree_sitter::Tree);

/// One node of a parsed tree, without its children: `depth` says how far below
/// the root it stands.
#[derive(Debug)]
pub struct SyntaxRow {
    pub depth: u32,
    pub kind: String,
    pub field: Option<String>,
    pub named: bool,
    pub start_byte: usize,
    pub end_byte: usize,
    pub start_row: u32,
    pub end_row: u32,
}

/// What a `SyntaxRow` says.
pub struct SyntaxRowView {
    pub depth: u32,
    pub kind: Seq<char>,
    pub field: Option<Seq<char>>,
    pub named: bool,
    pub start_byte: usize,
    pub end_byte: usize,
    pub start_row: u32,
    pub end_row: u32,
}

impl View for SyntaxRow {
    type V = SyntaxRowView;

    open spec fn view(&self) -> SyntaxRowView {
        SyntaxRowView {
            depth: self.depth,
            kind: self.kind@,
            field: text::optional(self.field),
            named: self.named,
            start_byte: self.start_byte,
            end_byte: self.end_byte,
            start_row: self.start_row,
            end_row: self.end_row,
        }
    }
}

/// The nodes of a parsed tree, each before its children and the children in
/// source order.
pub uninterp spec fn tree_rows(tree: tree_sitter::Tree) -> Seq<SyntaxRowView>;

/// The nodes of the tree that a language's grammar gives a source, if its
/// parser can be had.
pub uninterp spec fn grammar_rows(language: Language, source: Seq<u8>) -> Option<Seq<SyntaxRowView>>;

/// Calls `tree_sitter::Parser::parse` with the language's grammar. The tree,
/// which depends on the grammar and the source alone, is named `grammar_rows`;
/// there is none where `Parser::set_language` does not take the grammar.
#[verifier::external_body]
fn ts_parse(language: Language, source: &[u8]) -> (tree: Option<tree_sitter::Tree>)
    ensures
        match tree {
            Some(t) => grammar_rows(language, source@) == Some(tree_rows(t)),
            None => grammar_rows(language, source@) is None,
        },
{
    let grammar: tree_sitter::Language = match language {
        Language::Go => tree_sitter_go::LANGUAGE.into(),
        Language::Java => tree_sitter_java::LANGUAGE.into(),
        Language::Kotlin => tree_sitter_kotlin_ng::LANGUAGE.into(),
        Language::JavaScript => tree_sitter_javascript::LANGUAGE.into(),
        Language::TypeScript => tree_sitter_typescript::LANGUAGE_TYPESCRIPT.into(),
    };
    let mut parser = tree_sitter::Parser::new();
    parser.set_language(&grammar).ok()?;
    parser.parse(source, None)
}

/// Calls `tree_sitter::Node::descendant_count` on the root: how many nodes the
/// tree has.
#[verifier::external_body]
fn ts_count(tree: &tree_sitter::Tree) -> (count: usize)
    ensures
        count == tree_rows(*tree).len(),
{
    tree.root_node().descendant_count()
}

/// Calls `tree_sitter::TreeCursor::goto_descendant`: node number `i` of the
/// tree, from 0 for the root, each before its children.
#[verifier::external_body]
fn ts_row(tree: &tree_sitter::Tree, i: usize) -> (row: SyntaxRow)
    requires
        i < tree_rows(*tree).len(),
    ensures
        row@ == tree_rows(*tree)[i as int],
{
    let mut cursor = tree.walk();
    cursor.goto_descendant(i);
    let node = cursor.node();
    SyntaxRow {
        depth: cursor.depth(),
        kind: node.kind().to_string(),
        field: cursor.field_name().map(|f| f.to_string()),
        named: node.is_named(),
        start_byte: node.start_byte(),
        end_byte: node.end_byte(),
        start_row: node.start_position().row as u32,
        end_row: node.end_position().row as u32,
    }
}

/// Calls `String::from_utf8`: the text that bytes encode, if they are valid
/// UTF-8.
#[verifier::external_body]
pub(crate) fn string_from_utf8(bytes: Vec<u8>) -> (decoded: Option<String>)
    ensures
        match decoded {
            Some(s) => vstd::utf8::valid_utf8(bytes@) && s@ == vstd::utf8::decode_utf8(bytes@),
            None => !vstd::utf8::valid_utf8(bytes@),
        },
{
    String::from_utf8(bytes).ok()
}

/// The text of part of a source; empty where it is no valid UTF-8.
pub open spec fn text_between(source: Seq<u8>, start: int, end: int) -> Seq<char> {
    if 0 <= start <= end <= source.len() && vstd::utf8::valid_utf8(source.subrange(start, end)) {
        vstd::utf8::decode_utf8(source.subrange(start, end))
    } else {
        Seq::empty()
    }
}

/// The first position, from `from` on, of a row that stands no deeper than
/// `depth`, or the number of rows without one.
pub open spec fn end_from(rows: Seq<SyntaxRowView>, from: int, depth: u32) -> int
    decreases rows.len() - from,
{
    if from >= rows.len() || from < 0 {
        rows.len() as int
    } else if rows[from].depth <= depth {
        from
    } else {
        end_from(rows, from + 1, depth)
    }
}

/// The position behind the subtree whose root is at position `i`.
pub open spec fn subtree_end(rows: Seq<SyntaxRowView>, i: int) -> int {
    end_from(rows, i + 1, rows[i].depth)
}

/// The position of sibling number `n`, from 0, of the node at position `from`.
pub open spec fn sibling_at(rows: Seq<SyntaxRowView>, from: int, n: nat) -> int
    decreases n,
{
    if n == 0 {
        from
    } else {
        subtree_end(rows, sibling_at(rows, from, (n - 1) as nat))
    }
}

/// `node` is the tree that the rows hold at position `i`.
pub open spec fn holds_tree(
    rows: Seq<SyntaxRowView>,
    source: Seq<u8>,
    i: int,
    node: SyntaxNode,
) -> bool
    decreases node,
{
    &&& 0 <= i < rows.len()
    &&& node.kind@ == rows[i].kind
    &&& text::optional(node.field) == rows[i].field
    &&& node.named == rows[i].named
    &&& node.text@ == text_between(source, rows[i].start_byte as int, rows[i].end_byte as int)
    &&& node.start_row == rows[i].start_row
    &&& node.end_row == rows[i].end_row
    &&& holds_trees(rows, source, i + 1, subtree_end(rows, i), node.children@)
    &&& sibling_at(rows, i + 1, node.children@.len()) >= subtree_end(rows, i)
}

/// `nodes` are the first trees that the rows hold side by side from position
/// `from` on, all before `end`.
pub open spec fn holds_trees(
    rows: Seq<SyntaxRowView>,
    source: Seq<u8>,
    from: int,
    end: int,
    nodes: Seq<SyntaxNode>,
) -> bool
    decreases nodes,
{
    nodes.len() > 0 ==> {
        let last = sibling_at(rows, from, (nodes.len() - 1) as nat);
        &&& last < end
        &&& holds_trees(rows, source, from, end, nodes.drop_last())
        &&& holds_tree(rows, source, last, nodes.last())
    }
}

fn find_end(rows: &Vec<SyntaxRow>, from: usize, depth: u32) -> (end: usize)
    requires
        from <= rows@.len(),
    ensures
        end == end_from(text::views(rows@), from as int, depth),
        from <= end <= rows@.len(),
{
    let ghost all = text::views(rows@);
    let mut j: usize = from;
    while j < rows.len() && rows[j].depth > depth
        invariant
            all == text::views(rows@),
            from <= j <= rows@.len(),
            end_from(all, from as int, depth) == end_from(all, j as int, depth),
        decreases rows.len() - j,
    {
        proof {
            assert(all[j as int] == rows@[j as int]@);
        }
        j += 1;
    }
    proof {
        if j < rows.len() {
            assert(all[j as int] == rows@[j as int]@);
        }
    }
    j
}

fn source_text(source: &[u8], start: usize, end: usize) -> (s: String)
    ensures
        s@ == text_between(source@, start as int, end as int),
{
    if start <= end && end <= source.len() {
        let part: &[u8] = vstd::slice::slice_subrange(source, start, end);
        match string_from_utf8(vstd::slice::slice_to_vec(part)) {
            Some(s) => s,
            None => String::new(),
        }
    } else {
        String::new()
    }
}

/// The tree that the rows hold at position `i`.
fn build_tree(rows: &Vec<SyntaxRow>, source: &[u8], i: usize) -> (node: SyntaxNode)
    requires
        i < rows@.len(),
    ensures
        holds_tree(text::views(rows@), source@, i as int, node),
    decreases rows.len() - i,
{
    let ghost all = text::views(rows@);
    let row: &SyntaxRow = &rows[i];
    proof {
        assert(all[i as int] == row@);
    }
    let end: usize = find_end(rows, i + 1, row.depth);
    let mut children: Vec<SyntaxNode> = Vec::new();
    let mut j: usize = i + 1;
    while j < end
        invariant
            all == text::views(rows@),
            i < j <= rows@.len(),
            end <= rows@.len(),
            j == sibling_at(all, i + 1, children@.len()),
            holds_trees(all, source@, i + 1, end as int, children@),
        decreases rows.len() - j,
    {
        let ghost before = children@;
        let child: SyntaxNode = build_tree(rows, source, j);
        children.push(child);
        proof {
            assert(children@.drop_last() =~= before);
            assert(children@.last() == child);
            assert(all[j as int] == rows@[j as int]@);
        }
        j = find_end(rows, j + 1, rows[j].depth);
    }
    SyntaxNode {
        kind: row.kind.clone(),
        field: row.field.clone(),
        named: row.named,
        text: source_text(source, row.start_byte, row.end_byte),
        start_row: row.start_row,
        end_row: row.end_row,
        children,
    }
}

/// The root of the tree that the rows hold.
pub fn tree_of_rows(rows: &Vec<SyntaxRow>, source: &[u8]) -> (root: Option<SyntaxNode>)
    ensures
        match root {
            Some(r) => rows@.len() > 0 && holds_tree(text::views(rows@), source@, 0, r),
            None => rows@.len() == 0,
        },
{
    if rows.len() == 0 {
        None
    } else {
        Some(build_tree(rows, source, 0))
    }
}

/// `root` is what parsing a source gives.
pub open spec fn parses_to(language: Language, source: Seq<u8>, root: Option<SyntaxNode>) -> bool {
    match root {
        Some(r) => {
            &&& grammar_rows(language, source) matches Some(rows)
            &&& rows.len() > 0
            &&& holds_tree(rows, source, 0, r)
        },
        None => grammar_rows(language, source) is None || grammar_rows(language, source)->0.len()
            == 0,
    }
}

/// The syntax tree of a source, if the language's parser can be had.
pub fn parse_source(language: Language, source: &[u8]) -> (root: Option<SyntaxNode>)
    ensures
        parses_to(language, source@, root),
{
    match ts_parse(language, source) {
        Some(tree) => {
            let count: usize = ts_count(&tree);
            let mut rows: Vec<SyntaxRow> = Vec::new();
            proof {
                assert(text::views(rows@) =~= tree_rows(tree).take(0));
            }
            while rows.len() < count
                invariant
                    count == tree_rows(tree).len(),
                    rows@.len() <= count,
                    text::views(rows@) == tree_rows(tree).take(rows@.len() as int),
                decreases count - rows.len(),
            {
                let i: usize = rows.len();
                let row: SyntaxRow = ts_row(&tree, i);
                proof {
                    text::lemma_views_push(rows@, row);
                    assert(tree_rows(tree).take(i + 1) =~= tree_rows(tree).take(i as int).push(
                        row@,
                    ));
                }
                rows.push(row);
            }
            proof {
                assert(tree_rows(tree).take(count as int) =~= tree_rows(tree));
            }
            tree_of_rows(&rows, source)
        },
        None => None,
    }
}

/// The extension of a file tells the language that it is read in.
pub proof fn extensions_tell_the_language(path: Seq<char>)
    ensures
        paths::extension_of(path) == Some("go"@) ==> language_of(path) == Some(Language::Go),
        paths::extension_of(path) == Some("java"@) ==> language_of(path) == Some(Language::Java),
        paths::extension_of(path) == Some("kt"@) || paths::extension_of(path) == Some("kts"@)
            ==> language_of(path) == Some(Language::Kotlin),
        language_of(path) is Some ==> (paths::extension_of(path) matches Some(e) && (e == "go"@ || e
            == "java"@ || e == "kt"@ || e == "kts"@)),
{
    reveal_strlit("go");
    reveal_strlit("java");
    reveal_strlit("kt");
    reveal_strlit("kts");
    assert("go"@[0] != "kt"@[0]);
    assert("go"@.len() != "java"@.len());
    assert("go"@.len() != "kts"@.len());
    assert("java"@.len() != "kt"@.len());
    assert("java"@.len() != "kts"@.len());
}

/// The subtree of a row ends at the first row behind it that stands no deeper, or at
/// the end.
pub proof fn subtrees_end_at_the_next_row_as_high(rows: Seq<SyntaxRowView>, i: int, end: int)
    requires
        0 <= i < end <= rows.len(),
        forall|k: int| i < k < end ==> (#[trigger] rows[k]).depth > rows[i].depth,
        end < rows.len() ==> rows[end].depth <= rows[i].depth,
    ensures
        subtree_end(rows, i) == end,
{
    lemma_end_from(rows, i + 1, rows[i].depth, end);
}

proof fn lemma_end_from(rows: Seq<SyntaxRowView>, from: int, depth: u32, end: int)
    requires
        0 <= from <= end <= rows.len(),
        forall|k: int| from <= k < end ==> (#[trigger] rows[k]).depth > depth,
        end < rows.len() ==> rows[end].depth <= depth,
    ensures
        end_from(rows, from, depth) == end,
    decreases end - from,
{
    if from < end {
        assert(rows[from].depth > depth);
        lemma_end_from(rows, from + 1, depth, end);
    }
}

/// A node is what its row says: its kind, its field, whether it is named, its lines,
/// and the source between its first and its last byte.
pub proof fn nodes_are_what_their_rows_say(
    rows: Seq<SyntaxRowView>,
    source: Seq<u8>,
    i: int,
    node: SyntaxNode,
)
    requires
        holds_tree(rows, source, i, node),
    ensures
        node.kind@ == rows[i].kind,
        text::optional(node.field) == rows[i].field,
        node.named == rows[i].named,
        node.start_row == rows[i].start_row,
        node.end_row == rows[i].end_row,
        rows[i].start_byte <= rows[i].end_byte <= source.len() && vstd::utf8::valid_utf8(
            source.subrange(rows[i].start_byte as int, rows[i].end_byte as int),
        ) ==> node.text@ == vstd::utf8::decode_utf8(
            source.subrange(rows[i].start_byte as int, rows[i].end_byte as int),
        ),
        node.children@.len() > 0 ==> i + 1 < rows.len() && node.children@[0].kind@ == rows[i
            + 1].kind,
{
    if node.children@.len() > 0 {
        lemma_first_child(rows, source, i + 1, subtree_end(rows, i), node.children@);
    }
}

proof fn lemma_first_child(
    rows: Seq<SyntaxRowView>,
    source: Seq<u8>,
    from: int,
    end: int,
    nodes: Seq<SyntaxNode>,
)
    requires
        nodes.len() > 0,
        holds_trees(rows, source, from, end, nodes),
    ensures
        holds_tree(rows, source, from, nodes[0]),
    decreases nodes.len(),
{
    if nodes.len() > 1 {
        lemma_first_child(rows, source, from, end, nodes.drop_last());
    }
}

} // verus!
