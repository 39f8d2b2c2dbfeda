use sysy_core::edit::{compute_edit, EditDescriptor};
use sysy_core::text::DynText;
use sysy_core::Point;

/// Checks that the document model agrees with the plain text it was built
/// from: one stored line per text line with its byte length, the
/// synthetic trailing empty line, and the full extent reading back as the
/// text.
fn sanity_check(doc: &DynText, text: &str) {
    let line_count = text.lines().count();
    assert_eq!(doc.line_count(), line_count + 1);
    for (idx, line) in text.lines().enumerate() {
        assert_eq!(doc.line_byte_len(idx), line.len() + 1);
        let got = doc.get_text_range(
            Point { row: idx, column: 0 },
            Point { row: idx + 1, column: 0 },
        );
        assert_eq!(got, format!("{}\n", line));
    }
    let full = doc.get_text_range(
        Point { row: 0, column: 0 },
        Point { row: line_count, column: 0 },
    );
    assert_eq!(full.trim_end(), text.trim_end());
}

#[test]
fn test_dyn_text1() {
    let text = "Hello\nWorld\nThis is a test\n";
    let mut dyn_text = DynText::new(text);
    sanity_check(&dyn_text, text);

    // Test get_byte_offset
    assert_eq!(dyn_text.get_byte_offset(0, 0), 0);
    assert_eq!(dyn_text.get_byte_offset(1, 2), 8);
    assert_eq!(dyn_text.get_byte_offset(2, 5), 17);

    // Test apply_change
    let input_edit = EditDescriptor {
        start_byte: 6,
        old_end_byte: 11,
        new_end_byte: 12,
        start_position: Point { row: 1, column: 0 },
        old_end_position: Point { row: 1, column: 5 },
        new_end_position: Point { row: 1, column: 6 },
    };
    dyn_text.apply_change(&input_edit, "Universe");
    sanity_check(&dyn_text, "Hello\nUniverse\nThis is a test\n");
}

/// Reading the whole extent of a fresh document gives the text back.
#[test]
fn test_round_trip_full_extent() {
    let text = "int x;\nint f(int y) {\n  return y;\n}\n";
    let doc = DynText::new(text);
    let last = doc.line_count() - 1;
    let full = doc.get_text_range(
        Point { row: 0, column: 0 },
        Point { row: last, column: 0 },
    );
    assert_eq!(full, text);
}

/// A zero-length edit leaves the document and all byte offsets unchanged.
#[test]
fn test_zero_length_edit() {
    let text = "Hello\nWorld\nThis is a test\n";
    let mut doc = DynText::new(text);
    let offsets_before: Vec<usize> = vec![
        doc.get_byte_offset(0, 0),
        doc.get_byte_offset(0, 3),
        doc.get_byte_offset(1, 2),
        doc.get_byte_offset(2, 5),
    ];
    let edit = EditDescriptor {
        start_byte: 8,
        old_end_byte: 8,
        new_end_byte: 8,
        start_position: Point { row: 1, column: 2 },
        old_end_position: Point { row: 1, column: 2 },
        new_end_position: Point { row: 1, column: 2 },
    };
    doc.apply_change(&edit, "");
    sanity_check(&doc, text);
    let offsets_after: Vec<usize> = vec![
        doc.get_byte_offset(0, 0),
        doc.get_byte_offset(0, 3),
        doc.get_byte_offset(1, 2),
        doc.get_byte_offset(2, 5),
    ];
    assert_eq!(offsets_before, offsets_after);
}

/// A multi-line replacement re-splits the affected rows.
#[test]
fn test_multi_line_edit() {
    let text = "aa\nbb\ncc\n";
    let mut doc = DynText::new(text);
    // replace from (0,1) to (2,1) with a two-line text
    let edit = EditDescriptor {
        start_byte: 1,
        old_end_byte: 7,
        new_end_byte: 5,
        start_position: Point { row: 0, column: 1 },
        old_end_position: Point { row: 2, column: 1 },
        new_end_position: Point { row: 1, column: 1 },
    };
    doc.apply_change(&edit, "X\nY");
    sanity_check(&doc, "aX\nYc\n");
}

/// An empty text still has its synthetic trailing line, and the middle
/// rows of a range read through the aggregate.
#[test]
fn test_empty_and_middle_rows() {
    let doc = DynText::new("");
    assert_eq!(doc.line_count(), 1);
    assert_eq!(doc.total_bytes(), 1);

    let doc2 = DynText::new("one\ntwo\nthree\nfour\n");
    let middle = doc2.get_text_range(
        Point { row: 0, column: 1 },
        Point { row: 3, column: 2 },
    );
    assert_eq!(middle, "ne\ntwo\nthree\nfo");
}

/// The edit descriptor is computed from the document before mutation.
#[test]
fn test_compute_edit() {
    let text = "Hello\nWorld\nThis is a test\n";
    let doc = DynText::new(text);
    let edit = compute_edit(
        &doc,
        Point { row: 1, column: 0 },
        Point { row: 1, column: 5 },
        "Universe",
    );
    assert_eq!(edit.start_byte, 6);
    assert_eq!(edit.old_end_byte, 11);
    assert_eq!(edit.new_end_byte, 14);
    assert_eq!(edit.start_position, Point { row: 1, column: 0 });
    assert_eq!(edit.old_end_position, Point { row: 1, column: 5 });
    assert_eq!(edit.new_end_position, Point { row: 1, column: 8 });

    // a replacement with newlines moves the end down
    let edit2 = compute_edit(
        &doc,
        Point { row: 0, column: 2 },
        Point { row: 0, column: 3 },
        "a\nbc\nde",
    );
    assert_eq!(edit2.new_end_position, Point { row: 2, column: 2 });
    assert_eq!(edit2.new_end_byte, edit2.start_byte + 7);
}

/// An edit whose old range touches the last stored row keeps the
/// synthetic trailing empty line, so the end-of-document position stays
/// addressable and the store matches a fresh document over the same text.
#[test]
fn test_edit_at_end_keeps_synthetic_line() {
    let mut doc = DynText::new("a\n");
    assert_eq!(doc.line_count(), 2);
    // insert at the end-of-document position, on the synthetic row
    let edit = EditDescriptor {
        start_byte: 2,
        old_end_byte: 2,
        new_end_byte: 3,
        start_position: Point { row: 1, column: 0 },
        old_end_position: Point { row: 1, column: 0 },
        new_end_position: Point { row: 1, column: 1 },
    };
    doc.apply_change(&edit, "x");
    let fresh = DynText::new("a\nx");
    assert_eq!(doc.line_count(), fresh.line_count());
    assert_eq!(doc.line_count(), 3);
    assert_eq!(doc.line_len(2), 1);
    let full = doc.get_text_range(Point { row: 0, column: 0 }, Point { row: 2, column: 0 });
    assert_eq!(full, "a\nx\n");
    // a replacement that itself ends in a newline needs no restoration
    let edit2 = EditDescriptor {
        start_byte: 4,
        old_end_byte: 4,
        new_end_byte: 6,
        start_position: Point { row: 2, column: 0 },
        old_end_position: Point { row: 2, column: 0 },
        new_end_position: Point { row: 3, column: 0 },
    };
    doc.apply_change(&edit2, "b\n");
    assert_eq!(doc.line_count(), 4);
    let full2 = doc.get_text_range(Point { row: 0, column: 0 }, Point { row: 3, column: 0 });
    assert_eq!(full2, "a\nx\nb\n");
}

/// Offsets count UTF-8 bytes while columns count characters.
#[test]
fn test_multibyte_offsets() {
    let text = "d\u{00e9}j\u{00e0}\nvu\n";
    let doc = DynText::new(text);
    // 'd' is one byte, '\u{00e9}' two: the third character starts at byte 3
    assert_eq!(doc.get_byte_offset(0, 2), 3);
    // the first row holds 7 bytes of text (d, 2-byte e-acute, j, 2-byte
    // a-grave, newline)
    assert_eq!(doc.get_byte_offset(1, 1), 8);
}
