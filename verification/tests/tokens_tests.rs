use sysy_core::scope::find_definition;
use sysy_core::semantic_pass::symbol_decl_pass;
use sysy_core::symtable::{Symbol, SymbolTable};
use sysy_core::syntree::{FieldTag, NodeKind, SynNode, SynTree};
use sysy_core::text::DynText;
use sysy_core::tokens::{semantic_tokens, SemToken};
use sysy_core::Point;

fn node(
    kind: NodeKind,
    start: (usize, usize),
    end: (usize, usize),
    bytes: (usize, usize),
    parent: Option<usize>,
    prev_named_sibling: Option<usize>,
    children: Vec<usize>,
    field: FieldTag,
) -> SynNode {
    SynNode {
        kind,
        start: Point { row: start.0, column: start.1 },
        end: Point { row: end.0, column: end.1 },
        start_byte: bytes.0,
        end_byte: bytes.1,
        parent,
        prev_named_sibling,
        children,
        field,
    }
}

/// A token that crosses rows splits into one entry per covered row: the
/// first to the row's end, the last up to the end column.
#[test]
fn test_multi_line_token_split() {
    let doc = DynText::new("/*a\nbb*/\n");
    let nodes = vec![
        node(NodeKind::SourceFile, (0, 0), (2, 0), (0, 9), None, None, vec![1], FieldTag::NoField),
        node(NodeKind::Comment, (0, 0), (1, 4), (0, 8), Some(0), None, vec![], FieldTag::NoField),
    ];
    let tree = SynTree::from_nodes(nodes).unwrap();
    let toks = semantic_tokens(&tree, &doc).unwrap();
    let expected = vec![
        SemToken { delta_line: 0, delta_start: 0, length: 4, token_type: 4, token_modifiers_bitset: 0 },
        SemToken { delta_line: 1, delta_start: 0, length: 4, token_type: 4, token_modifiers_bitset: 0 },
    ];
    assert_eq!(toks, expected);
}

/// Keywords and operators take their legend indices; a number its own.
#[test]
fn test_keyword_and_operator_classification() {
    // `return 1 + 2` as flat children of the file
    let doc = DynText::new("return 1 + 2\n");
    let nodes = vec![
        node(NodeKind::SourceFile, (0, 0), (0, 12), (0, 12), None, None, vec![1, 2, 3, 4], FieldTag::NoField),
        node(NodeKind::KwReturn, (0, 0), (0, 6), (0, 6), Some(0), None, vec![], FieldTag::NoField),
        node(NodeKind::Number, (0, 7), (0, 8), (7, 8), Some(0), Some(1), vec![], FieldTag::NoField),
        node(NodeKind::OpPlus, (0, 9), (0, 10), (9, 10), Some(0), Some(2), vec![], FieldTag::NoField),
        node(NodeKind::Number, (0, 11), (0, 12), (11, 12), Some(0), Some(3), vec![], FieldTag::NoField),
    ];
    let tree = SynTree::from_nodes(nodes).unwrap();
    let toks = semantic_tokens(&tree, &doc).unwrap();
    let types: Vec<u32> = toks.iter().map(|t| t.token_type).collect();
    assert_eq!(types, vec![0, 3, 5, 3]);
    assert_eq!(toks[0].length, 6);
}

/// A constant declaration carries the `const` marker in its description
/// and shadows like a variable in the walk.
#[test]
fn test_const_declaration() {
    // `const int c = 1;` modeled as one declaration with one definition
    let doc = DynText::new("const int c = 1; c");
    let nodes = vec![
        node(NodeKind::SourceFile, (0, 0), (0, 18), (0, 18), None, None, vec![1, 5], FieldTag::NoField),
        node(NodeKind::ConstDecl, (0, 0), (0, 16), (0, 16), Some(0), None, vec![2, 3], FieldTag::NoField),
        node(NodeKind::TypeName, (0, 6), (0, 9), (6, 9), Some(1), None, vec![], FieldTag::FieldType),
        node(NodeKind::Other, (0, 10), (0, 15), (10, 15), Some(1), Some(2), vec![4], FieldTag::FieldDefs),
        node(NodeKind::Ident, (0, 10), (0, 11), (10, 11), Some(3), None, vec![], FieldTag::FieldIdent),
        node(NodeKind::Ident, (0, 17), (0, 18), (17, 18), Some(0), Some(1), vec![], FieldTag::NoField),
    ];
    let tree = SynTree::from_nodes(nodes).unwrap();

    // the use of `c` resolves to the constant declaration
    let name: Vec<char> = "c".chars().collect();
    assert_eq!(find_definition(&tree, &doc, &name, 5), Some(1));

    // the declaration pass records it with the `const` marker
    let mut table = SymbolTable::new();
    symbol_decl_pass(&mut table, &tree, 1, &doc);
    match table.get(&name) {
        Some(Symbol::Variable { type_ }) => assert_eq!(type_.as_str(), "const int "),
        _ => panic!("c should be recorded as a variable"),
    }
}
