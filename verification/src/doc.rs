use vstd::prelude::*;

use crate::edit::{
    change_acceptable, compute_edit, lemma_acceptable_bounds, spec_change_acceptable,
    EditDescriptor,
};
use crate::line::{split_relines, str_blen, str_chars};
use crate::text::{spec_apply, spec_text_range, valid_range, DynText};
use crate::Point;

verus! {

#[verifier::external_type_specification]
#[verifier::external_body]
pub struct ExTree(tree_sitter::Tree);

#[verifier::external_type_specification]
#[verifier::external_body]
pub struct ExParser(tree_sitter::Parser);

/// Relies on tree_sitter::Parser::parse: parses the whole text into a
/// syntax tree, or yields nothing when the parser has no language set or
/// was cancelled.
#[verifier::external_body]
fn parse_full(parser: &mut tree_sitter::Parser, text: &str) -> Option<tree_sitter::Tree> {
    parser.parse(text, None)
}

/// Relies on tree_sitter::Tree::edit: shifts the node ranges of an
/// existing tree in place to account for one edit, without reparsing.
#[verifier::external_body]
fn tree_edit(tree: &mut tree_sitter::Tree, edit: &EditDescriptor) {
    let p = |q: Point| tree_sitter::Point { row: q.row, column: q.column };
    tree.edit(
        &tree_sitter::InputEdit {
            start_byte: edit.start_byte,
            old_end_byte: edit.old_end_byte,
            new_end_byte: edit.new_end_byte,
            start_position: p(edit.start_position),
            old_end_position: p(edit.old_end_position),
            new_end_position: p(edit.new_end_position),
        },
    );
}

/// Relies on tree_sitter::Parser::parse_with_options: reparses
/// incrementally, reading bytes lazily from the already mutated document
/// and reusing the edited tree; yields nothing when the parser has no
/// language set or was cancelled.
#[verifier::external_body]
fn reparse(
    parser: &mut tree_sitter::Parser,
    doc: &DynText,
    old_tree: &tree_sitter::Tree,
) -> Option<tree_sitter::Tree>
    requires
        doc.wf(),
{
    let mut read = |_byte: usize, pos: tree_sitter::Point| -> Vec<u8> {
        doc.get_text(pos.row, pos.column).into_iter().collect::<String>().into_bytes()
    };
    parser.parse_with_options(&mut read, Some(old_tree), None)
}

/// How one content change ended.
#[derive(Clone, Copy, Debug, PartialEq, Eq, Structural)]
pub enum UpdateOutcome {
    /// The document mutated and the reparsed tree was installed.
    Applied,
    /// The document mutated, but the parser yielded no tree; the old,
    /// range-shifted tree stays in place.
    ParseFailed,
    /// The change addressed positions outside the document or was too
    /// large; nothing happened.
    Rejected,
}

/// One open document: the externally owned syntax tree and the text
/// model, mutated together so that a reader never sees one without the
/// matching other.
pub struct DocHandler {
    syntax_tree: tree_sitter::Tree,
    doc: DynText,
}

impl View for DocHandler {
    type V = Seq<Seq<char>>;

    closed spec fn view(&self) -> Seq<Seq<char>> {
        self.doc@
    }
}

impl DocHandler {
    /// The handler's invariant: its text model is well formed.
    pub closed spec fn wf(self) -> bool {
        self.doc.wf()
    }

    /// Opens a document: parses the full text and builds the text model;
    /// nothing when the parser yields no tree.
    pub fn new(content: &str, parser: &mut tree_sitter::Parser) -> (r: Option<DocHandler>)
        requires
            str_blen(content@) + 2 <= usize::MAX,
        ensures
            match r {
                Option::Some(h) => h.wf() && h@ == split_relines(content@).push(seq!['\n']),
                Option::None => true,
            },
    {
        match parse_full(parser, content) {
            Option::Some(tree) => {
                let doc = DynText::new(content);
                Some(DocHandler { syntax_tree: tree, doc })
            },
            Option::None => None,
        }
    }

    /// Borrows the text model for queries.
    pub fn text(&self) -> (r: &DynText)
        ensures
            r.wf() == self.wf(),
            r@ == self@,
    {
        &self.doc
    }

    /// Borrows the current syntax tree.
    pub fn tree(&self) -> &tree_sitter::Tree {
        &self.syntax_tree
    }

    /// Applies one content change as a single transaction: computes the
    /// edit descriptor from the text model before mutation, shifts the
    /// tree's ranges, mutates the text model, then reparses incrementally
    /// against the mutated text. A change that addresses positions outside
    /// the document, or would overflow the machine word, is rejected with
    /// nothing done.
    pub fn incremental_update(
        &mut self,
        start: Point,
        old_end: Point,
        new_text: &str,
        parser: &mut tree_sitter::Parser,
    ) -> (r: UpdateOutcome)
        requires
            old(self).wf(),
        ensures
            final(self).wf(),
            (r is Rejected) <==> !spec_change_acceptable(old(self)@, start, old_end, new_text@),
            (r is Rejected) ==> final(self)@ == old(self)@,
            !(r is Rejected) ==> final(self)@ == spec_apply(old(self)@, start, old_end, new_text@),
    {
        let chars = str_chars(new_text);
        if !change_acceptable(&self.doc, start, old_end, &chars) {
            return UpdateOutcome::Rejected;
        }
        proof {
            crate::text::lemma_wf_facts(self.doc);
            lemma_acceptable_bounds(self.doc@, start, old_end, new_text@);
        }
        let edit = compute_edit(&self.doc, start, old_end, new_text);
        tree_edit(&mut self.syntax_tree, &edit);
        self.doc.apply_change(&edit, new_text);
        match reparse(parser, &self.doc, &self.syntax_tree) {
            Option::Some(tree) => {
                self.syntax_tree = tree;
                UpdateOutcome::Applied
            },
            Option::None => UpdateOutcome::ParseFailed,
        }
    }

    /// The text between two positions of this document.
    pub fn get_text_range(&self, start: Point, end: Point) -> (r: String)
        requires
            self.wf(),
            valid_range(self@, start, end),
        ensures
            r@ == spec_text_range(self@, start, end),
    {
        self.doc.get_text_range(start, end)
    }
}

} // verus!
