use sysy_core::doc::DocHandler;
use sysy_core::Point;

#[test]
fn test_open_without_language_yields_nothing() {
    // a parser with no language set yields no tree, so no document
    // handler is installed
    let mut parser = tree_sitter::Parser::new();
    assert!(DocHandler::new("int x;\n", &mut parser).is_none());
}

#[test]
fn test_point_order() {
    let a = Point { row: 1, column: 4 };
    let b = Point { row: 1, column: 7 };
    let c = Point { row: 2, column: 0 };
    assert!(a.le(&b));
    assert!(!b.le(&a));
    assert!(b.le(&c));
    assert!(a.le(&a));
}
