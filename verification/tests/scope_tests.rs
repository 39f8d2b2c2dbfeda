use sysy_core::completion::{completion_items, CompletionKind};
use sysy_core::scope::{find_definition, query_definition, token_at, visible_symbols, SymbolKind};
use sysy_core::semantic_model::{BlockAttr, Node, SemanticModel};
use sysy_core::semantic_pass::symbol_decl_pass;
use sysy_core::symtable::{Symbol, SymbolTable};
use sysy_core::syntree::{FieldTag, NodeKind, SynNode, SynTree};
use sysy_core::text::DynText;
use sysy_core::tokens::{semantic_tokens, SemToken};
use sysy_core::hover::hover_text;
use sysy_core::Point;

fn node(
    kind: NodeKind,
    start: (usize, usize),
    end: (usize, usize),
    bytes: (usize, usize),
    parent: Option<usize>,
    prev_named_sibling: Option<usize>,
    children: Vec<usize>,
    field: FieldTag,
) -> SynNode {
    SynNode {
        kind,
        start: Point { row: start.0, column: start.1 },
        end: Point { row: end.0, column: end.1 },
        start_byte: bytes.0,
        end_byte: bytes.1,
        parent,
        prev_named_sibling,
        children,
        field,
    }
}

/// The tree of `int x; int f(int y) { return y; }`, laid out in
/// pre-order, with the byte and character positions of each construct.
fn example_tree() -> SynTree {
    let nodes = vec![
        // 0: the whole file
        node(NodeKind::SourceFile, (0, 0), (0, 33), (0, 33), None, None, vec![1, 5], FieldTag::NoField),
        // 1: `int x;`
        node(NodeKind::VarDecl, (0, 0), (0, 6), (0, 6), Some(0), None, vec![2, 3], FieldTag::NoField),
        // 2: `int`
        node(NodeKind::TypeName, (0, 0), (0, 3), (0, 3), Some(1), None, vec![], FieldTag::FieldType),
        // 3: the definition `x`
        node(NodeKind::Other, (0, 4), (0, 5), (4, 5), Some(1), Some(2), vec![4], FieldTag::FieldDefs),
        // 4: the name `x`
        node(NodeKind::Ident, (0, 4), (0, 5), (4, 5), Some(3), None, vec![], FieldTag::FieldIdent),
        // 5: `int f(int y) { return y; }`
        node(NodeKind::FuncDef, (0, 7), (0, 33), (7, 33), Some(0), Some(1), vec![6, 7, 8, 11], FieldTag::NoField),
        // 6: the return type `int`
        node(NodeKind::TypeName, (0, 7), (0, 10), (7, 10), Some(5), None, vec![], FieldTag::FieldType),
        // 7: the name `f`
        node(NodeKind::Ident, (0, 11), (0, 12), (11, 12), Some(5), Some(6), vec![], FieldTag::FieldIdent),
        // 8: the parameter `int y`
        node(NodeKind::Other, (0, 13), (0, 18), (13, 18), Some(5), Some(7), vec![9, 10], FieldTag::FieldParams),
        // 9: the parameter type `int`
        node(NodeKind::TypeName, (0, 13), (0, 16), (13, 16), Some(8), None, vec![], FieldTag::FieldType),
        // 10: the parameter name `y`
        node(NodeKind::Ident, (0, 17), (0, 18), (17, 18), Some(8), Some(9), vec![], FieldTag::FieldIdent),
        // 11: the body block
        node(NodeKind::Block, (0, 20), (0, 33), (20, 33), Some(5), Some(8), vec![12], FieldTag::NoField),
        // 12: `return y;`
        node(NodeKind::Other, (0, 22), (0, 30), (22, 30), Some(11), None, vec![13], FieldTag::NoField),
        // 13: the use of `y`
        node(NodeKind::Ident, (0, 29), (0, 30), (29, 30), Some(12), None, vec![], FieldTag::NoField),
    ];
    SynTree::from_nodes(nodes).expect("the example tree is well linked")
}

fn example_doc() -> DynText {
    DynText::new("int x; int f(int y) { return y; }")
}

#[test]
fn test_definition_of_parameter() {
    let tree = example_tree();
    let doc = example_doc();
    // the `y` in the body resolves to the parameter construct
    let rg = query_definition(&tree, &doc, Point { row: 0, column: 29 }).unwrap();
    assert_eq!(rg.start, Point { row: 0, column: 13 });
    assert_eq!(rg.end, Point { row: 0, column: 18 });
    // asked twice against the unchanged document, the answer is the same
    let again = query_definition(&tree, &doc, Point { row: 0, column: 29 }).unwrap();
    assert_eq!(rg, again);
}

#[test]
fn test_definition_of_outer_variable() {
    let tree = example_tree();
    let doc = example_doc();
    // looking up `x` from inside the body reaches the outer declaration
    let name: Vec<char> = "x".chars().collect();
    let d = find_definition(&tree, &doc, &name, 13).unwrap();
    assert_eq!(d, 1);
    // the function's own name resolves to the function definition
    let fname: Vec<char> = "f".chars().collect();
    let d2 = find_definition(&tree, &doc, &fname, 13).unwrap();
    assert_eq!(d2, 5);
    // an unknown name resolves to nothing, and that is not an error
    let missing: Vec<char> = "zz".chars().collect();
    assert!(find_definition(&tree, &doc, &missing, 13).is_none());
}

#[test]
fn test_visible_symbols_in_body() {
    let tree = example_tree();
    let doc = example_doc();
    let symbols = visible_symbols(&tree, &doc, Point { row: 0, column: 29 });
    let names: Vec<String> = symbols.iter().map(|s| s.name.clone()).collect();
    assert_eq!(symbols.len(), 3);
    assert!(names.contains(&"x".to_string()));
    assert!(names.contains(&"y".to_string()));
    assert!(names.contains(&"f".to_string()));
    for s in &symbols {
        match s.name.as_str() {
            "f" => assert_eq!(s.kind, SymbolKind::Function),
            _ => assert_eq!(s.kind, SymbolKind::Variable),
        }
    }
    // asked twice, the same answer comes back
    let symbols2 = visible_symbols(&tree, &doc, Point { row: 0, column: 29 });
    assert_eq!(symbols, symbols2);
}

#[test]
fn test_token_at_point() {
    let tree = example_tree();
    let rg = token_at(&tree, Point { row: 0, column: 29 }).unwrap();
    assert_eq!(rg.start, Point { row: 0, column: 29 });
    assert_eq!(rg.end, Point { row: 0, column: 30 });
    // outside the root there is no token
    assert!(token_at(&tree, Point { row: 5, column: 0 }).is_none());
}

#[test]
fn test_symbol_table_pass() {
    let tree = example_tree();
    let doc = example_doc();
    let mut table = SymbolTable::new();
    symbol_decl_pass(&mut table, &tree, 1, &doc);
    symbol_decl_pass(&mut table, &tree, 5, &doc);
    assert_eq!(table.len(), 2);
    let x: Vec<char> = "x".chars().collect();
    match table.get(&x) {
        Some(Symbol::Variable { type_ }) => assert_eq!(type_.as_str(), "int "),
        _ => panic!("x should be a variable"),
    }
    let f: Vec<char> = "f".chars().collect();
    match table.get(&f) {
        Some(Symbol::Function { return_type, params }) => {
            assert_eq!(return_type.as_str(), "int");
            assert_eq!(params.len(), 1);
            match &params[0] {
                Symbol::Variable { type_ } => assert_eq!(type_.as_str(), "int "),
                _ => panic!("the parameter should be a variable"),
            }
        },
        _ => panic!("f should be a function"),
    }
    // a second pass over the same declarations does not override the first
    symbol_decl_pass(&mut table, &tree, 1, &doc);
    assert_eq!(table.len(), 2);
}

#[test]
fn test_semantic_tokens_example() {
    let tree = example_tree();
    let doc = example_doc();
    let toks = semantic_tokens(&tree, &doc).unwrap();
    let expected = vec![
        // int (type), x (variable), int (type), f (function name),
        // int (type), y (variable), y (variable)
        SemToken { delta_line: 0, delta_start: 0, length: 3, token_type: 6, token_modifiers_bitset: 0 },
        SemToken { delta_line: 0, delta_start: 4, length: 1, token_type: 2, token_modifiers_bitset: 0 },
        SemToken { delta_line: 0, delta_start: 3, length: 3, token_type: 6, token_modifiers_bitset: 0 },
        SemToken { delta_line: 0, delta_start: 4, length: 1, token_type: 1, token_modifiers_bitset: 0 },
        SemToken { delta_line: 0, delta_start: 2, length: 3, token_type: 6, token_modifiers_bitset: 0 },
        SemToken { delta_line: 0, delta_start: 4, length: 1, token_type: 2, token_modifiers_bitset: 0 },
        SemToken { delta_line: 0, delta_start: 12, length: 1, token_type: 2, token_modifiers_bitset: 0 },
    ];
    assert_eq!(toks, expected);
}

#[test]
fn test_semantic_tokens_reject_bad_positions() {
    // a lone node whose positions lie outside any document
    let nodes = vec![
        node(NodeKind::Comment, (3, 0), (7, 2), (0, 10), None, None, vec![], FieldTag::NoField),
    ];
    let tree = SynTree::from_nodes(nodes).unwrap();
    let doc = DynText::new("short\n");
    // the comment crosses rows the document does not have
    assert!(semantic_tokens(&tree, &doc).is_none());
}

#[test]
fn test_completion_case_insensitive() {
    let nodes = vec![
        node(NodeKind::SourceFile, (0, 0), (0, 3), (0, 3), None, None, vec![1], FieldTag::NoField),
        node(NodeKind::Ident, (0, 0), (0, 3), (0, 3), Some(0), None, vec![], FieldTag::NoField),
    ];
    let tree = SynTree::from_nodes(nodes).unwrap();
    let doc = DynText::new("INT");
    let keywords = vec!["int".to_string(), "if".to_string(), "while".to_string()];
    let items = completion_items(&tree, &doc, Point { row: 0, column: 1 }, &keywords);
    assert_eq!(items.len(), 1);
    assert_eq!(items[0].label, "int");
    assert_eq!(items[0].kind, CompletionKind::Keyword);
}

#[test]
fn test_completion_offers_symbols() {
    let tree = example_tree();
    let doc = example_doc();
    // completing right after the `y` use: the token is `y`, and the
    // parameter `y` is visible
    let keywords = vec!["int".to_string(), "if".to_string()];
    let items = completion_items(&tree, &doc, Point { row: 0, column: 30 }, &keywords);
    assert_eq!(items.len(), 1);
    assert_eq!(items[0].label, "y");
    assert_eq!(items[0].kind, CompletionKind::Variable);
}

#[test]
fn test_hover_shows_definition() {
    let tree = example_tree();
    let doc = example_doc();
    let shown = hover_text(&tree, &doc, Point { row: 0, column: 29 }).unwrap();
    assert_eq!(shown, "int y");
    // no identifier under a keyword: nothing to hover
    assert!(hover_text(&tree, &doc, Point { row: 0, column: 21 }).is_none());
}

#[test]
fn test_tree_builder_rejects_bad_links() {
    // a child pointing before its parent is refused
    let nodes = vec![
        node(NodeKind::SourceFile, (0, 0), (0, 5), (0, 5), None, None, vec![0], FieldTag::NoField),
    ];
    assert!(SynTree::from_nodes(nodes).is_none());
    // an empty arena is refused
    assert!(SynTree::from_nodes(vec![]).is_none());
}

#[test]
fn test_semantic_model_lengths() {
    let tree = example_tree();
    let doc = example_doc();
    let model = SemanticModel::new(&tree, &doc);
    // the mirror covers the file's whole byte extent
    assert_eq!(model.length(), 33);

    // a placeholder moves by the size difference of an edit
    let mut ph = Node::PlaceHolder { length: 10 };
    ph.text_edit(2, 3, 5);
    match ph {
        Node::PlaceHolder { length } => assert_eq!(length, 12),
        _ => panic!("a placeholder stays a placeholder"),
    }

    // a dirty block recomputes its length from its children on read
    let mut block = Node::Block {
        children: vec![Node::PlaceHolder { length: 4 }, Node::PlaceHolder { length: 6 }],
        length: 99,
        dirty: true,
        attr: BlockAttr { symbol_table: SymbolTable::new() },
    };
    assert_eq!(block.get_length(), 10);
    block.update();
    assert_eq!(block.get_length(), 10);
    block.set_dirty();
    assert_eq!(block.get_length(), 10);

    // a block does not propagate an edit into its children
    let mut b2 = Node::Block {
        children: vec![Node::PlaceHolder { length: 8 }],
        length: 8,
        dirty: false,
        attr: BlockAttr { symbol_table: SymbolTable::new() },
    };
    b2.text_edit(0, 2, 4);
    assert_eq!(b2.get_length(), 8);
}
