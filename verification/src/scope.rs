use vstd::prelude::*;

use crate::syntree::{links_ok, FieldTag, NodeKind, SynNode, SynTree};
use crate::text::{spec_text_range, valid_range, DynText};
use crate::Point;

verus! {

/// What a symbol is: a variable (or constant, or parameter) or a function.
#[derive(Clone, Copy, Debug, PartialEq, Eq, Structural)]
pub enum SymbolKind {
    Variable,
    Function,
}

impl SymbolKind {
    /// The kind's name in words.
    pub fn label(&self) -> (r: String)
        ensures
            (self is Variable ==> r@ == "variable"@) && (self is Function ==> r@ == "function"@),
    {
        match self {
            SymbolKind::Variable => {
                let r = <String as vstd::string::StringExecFns>::from_str("variable");
                r
            },
            SymbolKind::Function => {
                let r = <String as vstd::string::StringExecFns>::from_str("function");
                r
            },
        }
    }
}

/// One visible symbol, produced transiently by the scope walk.
#[derive(Clone, Debug, PartialEq, Eq)]
pub struct Symbol {
    pub kind: SymbolKind,
    pub name: String,
}

/// The views of a symbol list: kind and name characters, in order.
pub open spec fn sym_views(s: Seq<Symbol>) -> Seq<(SymbolKind, Seq<char>)> {
    s.map_values(|x: Symbol| (x.kind, x.name@))
}

/// The text a node's positions address, where they address any.
pub open spec fn spec_node_text(tree: Seq<SynNode>, lines: Seq<Seq<char>>, i: int) -> Option<
    Seq<char>,
> {
    if valid_range(lines, tree[i].start, tree[i].end) {
        Some(spec_text_range(lines, tree[i].start, tree[i].end))
    } else {
        None
    }
}

/// The first index in a child list whose node fills the ident field.
pub open spec fn first_ident_in(tree: Seq<SynNode>, kids: Seq<usize>) -> Option<int>
    decreases kids.len(),
{
    if kids.len() == 0 {
        None
    } else if tree[kids[0] as int].field == FieldTag::FieldIdent {
        Some(kids[0] as int)
    } else {
        first_ident_in(tree, kids.drop_first())
    }
}

/// A node's ident-field child.
pub open spec fn spec_ident_child(tree: Seq<SynNode>, i: int) -> Option<int> {
    first_ident_in(tree, tree[i].children@)
}

/// Whether a definition or parameter node declares the name: its ident
/// child's text reads as the name.
pub open spec fn spec_declares(
    tree: Seq<SynNode>,
    lines: Seq<Seq<char>>,
    d: int,
    ident: Seq<char>,
) -> bool {
    match spec_ident_child(tree, d) {
        Option::Some(id) => spec_node_text(tree, lines, id) == Some(ident),
        Option::None => false,
    }
}

/// The first child in the list that fills the wanted field and declares
/// the name.
pub open spec fn first_decl_in(
    tree: Seq<SynNode>,
    lines: Seq<Seq<char>>,
    kids: Seq<usize>,
    f: FieldTag,
    ident: Seq<char>,
) -> Option<int>
    decreases kids.len(),
{
    if kids.len() == 0 {
        None
    } else if tree[kids[0] as int].field == f && spec_declares(
        tree,
        lines,
        kids[0] as int,
        ident,
    ) {
        Some(kids[0] as int)
    } else {
        first_decl_in(tree, lines, kids.drop_first(), f, ident)
    }
}

/// What one visited node contributes to a definition lookup.
pub enum VisitOutcome {
    /// The walk ends here, at this definition node.
    Found(int),
    /// The walk ends with no result: a function definition without a name
    /// child stops it.
    Stop,
    /// Nothing here; the walk goes on.
    Pass,
}

/// What visiting node `m` yields while resolving `ident`: a declaration
/// node whose definitions carry the name; a function definition named so
/// itself; or, when the walk descended out of the function rather than
/// passing it as a sibling, one of its parameters. A node whose name
/// cannot be read is opaque and never matches.
pub open spec fn spec_hit(
    tree: Seq<SynNode>,
    lines: Seq<Seq<char>>,
    m: int,
    from_sibling: bool,
    ident: Seq<char>,
) -> VisitOutcome {
    if tree[m].kind == NodeKind::VarDecl || tree[m].kind == NodeKind::ConstDecl {
        match first_decl_in(tree, lines, tree[m].children@, FieldTag::FieldDefs, ident) {
            Option::Some(_) => VisitOutcome::Found(m),
            Option::None => VisitOutcome::Pass,
        }
    } else if tree[m].kind == NodeKind::FuncDef {
        match spec_ident_child(tree, m) {
            Option::None => VisitOutcome::Stop,
            Option::Some(id) => {
                if spec_node_text(tree, lines, id) == Some(ident) {
                    VisitOutcome::Found(m)
                } else if from_sibling {
                    VisitOutcome::Pass
                } else {
                    match first_decl_in(
                        tree,
                        lines,
                        tree[m].children@,
                        FieldTag::FieldParams,
                        ident,
                    ) {
                        Option::Some(p) => VisitOutcome::Found(p),
                        Option::None => VisitOutcome::Pass,
                    }
                }
            },
        }
    } else {
        VisitOutcome::Pass
    }
}

/// The definition the backward walk resolves `ident` to, starting from
/// node `n`: move to the previous named sibling where one exists, else to
/// the parent, and take the first match; sibling-before-parent order
/// encodes nearest-declaration-wins.
pub open spec fn spec_find_from(
    tree: Seq<SynNode>,
    lines: Seq<Seq<char>>,
    ident: Seq<char>,
    n: int,
) -> Option<int>
    decreases n,
    when 0 <= n < tree.len() && links_ok(tree)
    via spec_find_from_decreases
{
    let sib = tree[n].prev_named_sibling;
    let par = tree[n].parent;
    if sib is Some || par is Some {
        let m = if sib is Some {
            sib->0 as int
        } else {
            par->0 as int
        };
        let fs = sib is Some;
        match spec_hit(tree, lines, m, fs, ident) {
            VisitOutcome::Found(d) => Some(d),
            VisitOutcome::Stop => None,
            VisitOutcome::Pass => spec_find_from(tree, lines, ident, m),
        }
    } else {
        None
    }
}

#[via_fn]
proof fn spec_find_from_decreases(tree: Seq<SynNode>, lines: Seq<Seq<char>>, ident: Seq<char>, n: int) {
    assert(crate::syntree::node_links_ok(tree, n));
}

/// An index option, viewed as a mathematical one.
pub open spec fn opt_idx(r: Option<usize>) -> Option<int> {
    match r {
        Option::Some(i) => Some(i as int),
        Option::None => None,
    }
}

/// Whether two character vectors hold the same characters.
pub fn chars_eq(a: &Vec<char>, b: &Vec<char>) -> (r: bool)
    ensures
        r == (a@ == b@),
{
    if a.len() != b.len() {
        proof {
            assert(a@ != b@);
        }
        return false;
    }
    let n = a.len();
    let mut i: usize = 0;
    while i < n
        invariant
            i <= n,
            n == a@.len() == b@.len(),
            forall|j: int| 0 <= j < i ==> a@[j] == b@[j],
        decreases n - i,
    {
        if a[i] != b[i] {
            proof {
                assert(a@[i as int] != b@[i as int]);
            }
            return false;
        }
        i += 1;
    }
    proof {
        assert(a@ =~= b@);
    }
    true
}

/// Reads a node's text, where its positions address the document.
pub fn node_text(tree: &SynTree, doc: &DynText, i: usize) -> (r: Option<Vec<char>>)
    requires
        doc.wf(),
        i < tree@.len(),
    ensures
        match r {
            Option::Some(v) => spec_node_text(tree@, doc@, i as int) == Some(v@),
            Option::None => spec_node_text(tree@, doc@, i as int) is None,
        },
{
    let node = tree.node(i);
    if doc.range_valid(node.start, node.end) {
        Some(doc.text_range_chars(node.start, node.end))
    } else {
        None
    }
}

/// Finds a node's ident-field child.
#[verifier::rlimit(100)]
#[verifier::spinoff_prover]
fn ident_child(tree: &SynTree, i: usize) -> (r: Option<usize>)
    requires
        i < tree@.len(),
    ensures
        opt_idx(r) == spec_ident_child(tree@, i as int),
        r is Some ==> r->0 < tree@.len(),
{
    proof {
        use_type_invariant(tree);
    }
    let node = tree.node(i);
    let m = node.children.len();
    let ghost kids = node.children@;
    let mut j: usize = 0;
    proof {
        assert(kids.skip(0) =~= kids);
    }
    while j < m
        invariant
            j <= m,
            i < tree@.len(),
            links_ok(tree@),
            *node == tree@[i as int],
            kids == tree@[i as int].children@,
            m == kids.len(),
            first_ident_in(tree@, kids.skip(j as int)) == first_ident_in(tree@, kids),
        decreases m - j,
    {
        let c = node.children[j];
        proof {
            assert(crate::syntree::node_links_ok(tree@, i as int));
            assert(kids.skip(j as int)[0] == kids[j as int]);
            assert(kids.skip(j as int).drop_first() =~= kids.skip(j + 1));
        }
        if tree.node(c).field == FieldTag::FieldIdent {
            return Some(c);
        }
        j += 1;
    }
    proof {
        assert(kids.skip(m as int) =~= Seq::<usize>::empty());
    }
    None
}

/// Decides whether a definition or parameter node declares the name.
fn declares(tree: &SynTree, doc: &DynText, d: usize, ident: &Vec<char>) -> (r: bool)
    requires
        doc.wf(),
        d < tree@.len(),
    ensures
        r == spec_declares(tree@, doc@, d as int, ident@),
{
    match ident_child(tree, d) {
        Option::Some(id) => {
            match node_text(tree, doc, id) {
                Option::Some(v) => chars_eq(&v, ident),
                Option::None => false,
            }
        },
        Option::None => false,
    }
}

/// Scans a node's children for the first one that fills the wanted field
/// and declares the name.
#[verifier::rlimit(100)]
#[verifier::spinoff_prover]
fn find_decl_in(tree: &SynTree, doc: &DynText, i: usize, f: FieldTag, ident: &Vec<char>) -> (r:
    Option<usize>)
    requires
        doc.wf(),
        i < tree@.len(),
    ensures
        opt_idx(r) == first_decl_in(tree@, doc@, tree@[i as int].children@, f, ident@),
        r is Some ==> r->0 < tree@.len(),
{
    proof {
        use_type_invariant(tree);
    }
    let node = tree.node(i);
    let m = node.children.len();
    let ghost kids = node.children@;
    let mut j: usize = 0;
    proof {
        assert(kids.skip(0) =~= kids);
    }
    while j < m
        invariant
            j <= m,
            i < tree@.len(),
            doc.wf(),
            links_ok(tree@),
            *node == tree@[i as int],
            kids == tree@[i as int].children@,
            m == kids.len(),
            first_decl_in(tree@, doc@, kids.skip(j as int), f, ident@) == first_decl_in(
                tree@,
                doc@,
                kids,
                f,
                ident@,
            ),
        decreases m - j,
    {
        let c = node.children[j];
        proof {
            assert(crate::syntree::node_links_ok(tree@, i as int));
            assert(kids.skip(j as int)[0] == kids[j as int]);
            assert(kids.skip(j as int).drop_first() =~= kids.skip(j + 1));
        }
        if tree.node(c).field == f {
            if declares(tree, doc, c, ident) {
                return Some(c);
            }
        }
        j += 1;
    }
    proof {
        assert(kids.skip(m as int) =~= Seq::<usize>::empty());
    }
    None
}

/// The exec mirror of one visit.
enum Visit {
    Found(usize),
    Stop,
    Pass,
}

/// Visits one node of the walk.
fn visit(tree: &SynTree, doc: &DynText, m: usize, from_sibling: bool, ident: &Vec<char>) -> (r:
    Visit)
    requires
        doc.wf(),
        m < tree@.len(),
    ensures
        match r {
            Visit::Found(d) => spec_hit(tree@, doc@, m as int, from_sibling, ident@)
                == VisitOutcome::Found(d as int) && d < tree@.len(),
            Visit::Stop => spec_hit(tree@, doc@, m as int, from_sibling, ident@)
                == VisitOutcome::Stop,
            Visit::Pass => spec_hit(tree@, doc@, m as int, from_sibling, ident@)
                == VisitOutcome::Pass,
        },
{
    let node = tree.node(m);
    if node.kind == NodeKind::VarDecl || node.kind == NodeKind::ConstDecl {
        match find_decl_in(tree, doc, m, FieldTag::FieldDefs, ident) {
            Option::Some(_) => Visit::Found(m),
            Option::None => Visit::Pass,
        }
    } else if node.kind == NodeKind::FuncDef {
        match ident_child(tree, m) {
            Option::None => Visit::Stop,
            Option::Some(id) => {
                let name_matches = match node_text(tree, doc, id) {
                    Option::Some(v) => chars_eq(&v, ident),
                    Option::None => false,
                };
                if name_matches {
                    Visit::Found(m)
                } else if from_sibling {
                    Visit::Pass
                } else {
                    match find_decl_in(tree, doc, m, FieldTag::FieldParams, ident) {
                        Option::Some(p) => Visit::Found(p),
                        Option::None => Visit::Pass,
                    }
                }
            },
        }
    } else {
        Visit::Pass
    }
}

/// Resolves an identifier occurrence at node `start` to its definition
/// node by the backward sibling-then-parent walk.
#[verifier::rlimit(100)]
#[verifier::spinoff_prover]
pub fn find_definition(tree: &SynTree, doc: &DynText, ident: &Vec<char>, start: usize) -> (r:
    Option<usize>)
    requires
        doc.wf(),
        start < tree@.len(),
    ensures
        opt_idx(r) == spec_find_from(tree@, doc@, ident@, start as int),
        r is Some ==> r->0 < tree@.len(),
{
    proof {
        use_type_invariant(tree);
    }
    let mut n = start;
    loop
        invariant
            n < tree@.len(),
            doc.wf(),
            links_ok(tree@),
            spec_find_from(tree@, doc@, ident@, n as int) == spec_find_from(
                tree@,
                doc@,
                ident@,
                start as int,
            ),
        decreases n,
    {
        let node = tree.node(n);
        let (m, fs): (usize, bool) = match node.prev_named_sibling {
            Option::Some(p) => (p, true),
            Option::None => {
                match node.parent {
                    Option::Some(p) => (p, false),
                    Option::None => {
                        return None;
                    },
                }
            },
        };
        proof {
            assert(crate::syntree::node_links_ok(tree@, n as int));
        }
        match visit(tree, doc, m, fs, ident) {
            Visit::Found(d) => {
                return Some(d);
            },
            Visit::Stop => {
                return None;
            },
            Visit::Pass => {
                n = m;
            },
        }
    }
}

/// Whether a node's range covers the closed position range `[p, q]`.
pub open spec fn range_contains(n: SynNode, p: Point, q: Point) -> bool {
    n.start.spec_le(p) && q.spec_le(n.end)
}

/// The first child in the list whose range covers `[p, q]`.
pub open spec fn first_containing(tree: Seq<SynNode>, kids: Seq<usize>, p: Point, q: Point) -> Option<
    int,
>
    decreases kids.len(),
{
    if kids.len() == 0 {
        None
    } else if range_contains(tree[kids[0] as int], p, q) {
        Some(kids[0] as int)
    } else {
        first_containing(tree, kids.drop_first(), p, q)
    }
}

/// The smallest node reached by descending from `cur` into children that
/// still cover `[p, q]`.
pub open spec fn spec_descend(tree: Seq<SynNode>, cur: int, p: Point, q: Point) -> int
    decreases tree.len() - cur,
    when 0 <= cur < tree.len() && links_ok(tree)
    via spec_descend_decreases
{
    match first_containing(tree, tree[cur].children@, p, q) {
        Option::Some(c) => spec_descend(tree, c, p, q),
        Option::None => cur,
    }
}

#[via_fn]
proof fn spec_descend_decreases(tree: Seq<SynNode>, cur: int, p: Point, q: Point) {
    assert(crate::syntree::node_links_ok(tree, cur));
    lemma_first_containing_mem(tree, tree[cur].children@, p, q);
}

/// A found containing child is one of the listed children.
proof fn lemma_first_containing_mem(tree: Seq<SynNode>, kids: Seq<usize>, p: Point, q: Point)
    ensures
        match first_containing(tree, kids, p, q) {
            Option::Some(c) => exists|j: int| 0 <= j < kids.len() && (#[trigger] kids[j]) as int == c,
            Option::None => true,
        },
    decreases kids.len(),
{
    if kids.len() > 0 {
        if range_contains(tree[kids[0] as int], p, q) {
            assert(kids[0] as int == first_containing(tree, kids, p, q)->0);
        } else {
            lemma_first_containing_mem(tree, kids.drop_first(), p, q);
            if first_containing(tree, kids, p, q) is Some {
                let c = first_containing(tree, kids, p, q)->0;
                let j = choose|j: int| 0 <= j < kids.drop_first().len() && (#[trigger] kids.drop_first()[j]) as int == c;
                assert(kids[j + 1] == kids.drop_first()[j]);
            }
        }
    }
}

/// The smallest node whose range covers `[p, q]`, reached from the root;
/// nothing when the root itself does not cover it.
pub open spec fn spec_descendant(tree: Seq<SynNode>, p: Point, q: Point) -> Option<int> {
    if tree.len() > 0 && range_contains(tree[0], p, q) {
        Some(spec_descend(tree, 0, p, q))
    } else {
        None
    }
}

/// Finds the first child of `cur` covering `[p, q]`.
#[verifier::rlimit(100)]
#[verifier::spinoff_prover]
fn child_containing(tree: &SynTree, cur: usize, p: Point, q: Point) -> (r: Option<usize>)
    requires
        cur < tree@.len(),
    ensures
        opt_idx(r) == first_containing(tree@, tree@[cur as int].children@, p, q),
        r is Some ==> r->0 < tree@.len() && cur < r->0,
{
    proof {
        use_type_invariant(tree);
    }
    let node = tree.node(cur);
    let m = node.children.len();
    let ghost kids = node.children@;
    let mut j: usize = 0;
    proof {
        assert(kids.skip(0) =~= kids);
    }
    while j < m
        invariant
            j <= m,
            cur < tree@.len(),
            links_ok(tree@),
            *node == tree@[cur as int],
            kids == tree@[cur as int].children@,
            m == kids.len(),
            first_containing(tree@, kids.skip(j as int), p, q) == first_containing(
                tree@,
                kids,
                p,
                q,
            ),
        decreases m - j,
    {
        let c = node.children[j];
        proof {
            assert(crate::syntree::node_links_ok(tree@, cur as int));
            assert(kids.skip(j as int)[0] == kids[j as int]);
            assert(kids.skip(j as int).drop_first() =~= kids.skip(j + 1));
        }
        let cn = tree.node(c);
        if cn.start.le(&p) && q.le(&cn.end) {
            return Some(c);
        }
        j += 1;
    }
    proof {
        assert(kids.skip(m as int) =~= Seq::<usize>::empty());
    }
    None
}

/// Finds the smallest node whose range covers the closed position range
/// `[p, q]`; nothing when even the root does not.
pub fn smallest_descendant(tree: &SynTree, p: Point, q: Point) -> (r: Option<usize>)
    ensures
        opt_idx(r) == spec_descendant(tree@, p, q),
        r is Some ==> r->0 < tree@.len(),
{
    proof {
        use_type_invariant(tree);
    }
    let n = tree.node_count();
    let root = tree.node(0);
    if !(root.start.le(&p) && q.le(&root.end)) {
        return None;
    }
    let mut cur: usize = 0;
    loop
        invariant
            cur < tree@.len(),
            links_ok(tree@),
            range_contains(tree@[0], p, q),
            spec_descend(tree@, cur as int, p, q) == spec_descend(tree@, 0, p, q),
        decreases tree@.len() - cur,
    {
        match child_containing(tree, cur, p, q) {
            Option::Some(c) => {
                cur = c;
            },
            Option::None => {
                proof {
                    assert(spec_descend(tree@, cur as int, p, q) == cur as int);
                }
                return Some(cur);
            },
        }
    }
}

} // verus!

use crate::doc::DocHandler;
use crate::PointRange;

verus! {

/// What the children filling a field contribute to the visible symbols:
/// one variable per definition or parameter whose name can be read.
pub open spec fn emit_fields(
    tree: Seq<SynNode>,
    lines: Seq<Seq<char>>,
    kids: Seq<usize>,
    f: FieldTag,
) -> Seq<(SymbolKind, Seq<char>)>
    decreases kids.len(),
{
    if kids.len() == 0 {
        Seq::empty()
    } else {
        let rest = emit_fields(tree, lines, kids.drop_first(), f);
        let c = kids[0] as int;
        if tree[c].field == f {
            match spec_ident_child(tree, c) {
                Option::Some(id) => match spec_node_text(tree, lines, id) {
                    Option::Some(nm) => seq![(SymbolKind::Variable, nm)] + rest,
                    Option::None => rest,
                },
                Option::None => rest,
            }
        } else {
            rest
        }
    }
}

/// What one visited node contributes to the visible symbols: its
/// definitions as variables; a named function as a function together with
/// its parameters as variables; a function whose name cannot be read, or
/// which has none, contributes nothing.
pub open spec fn spec_emit(tree: Seq<SynNode>, lines: Seq<Seq<char>>, m: int) -> Seq<
    (SymbolKind, Seq<char>),
> {
    if tree[m].kind == NodeKind::VarDecl || tree[m].kind == NodeKind::ConstDecl {
        emit_fields(tree, lines, tree[m].children@, FieldTag::FieldDefs)
    } else if tree[m].kind == NodeKind::FuncDef {
        match spec_ident_child(tree, m) {
            Option::None => Seq::empty(),
            Option::Some(id) => match spec_node_text(tree, lines, id) {
                Option::Some(nm) => seq![(SymbolKind::Function, nm)] + emit_fields(
                    tree,
                    lines,
                    tree[m].children@,
                    FieldTag::FieldParams,
                ),
                Option::None => Seq::empty(),
            },
        }
    } else {
        Seq::empty()
    }
}

/// Every symbol the backward walk passes, in walk order, duplicates
/// included.
pub open spec fn spec_collect_from(tree: Seq<SynNode>, lines: Seq<Seq<char>>, n: int) -> Seq<
    (SymbolKind, Seq<char>),
>
    decreases n,
    when 0 <= n < tree.len() && links_ok(tree)
    via spec_collect_from_decreases
{
    let sib = tree[n].prev_named_sibling;
    let par = tree[n].parent;
    if sib is Some || par is Some {
        let m = if sib is Some {
            sib->0 as int
        } else {
            par->0 as int
        };
        spec_emit(tree, lines, m) + spec_collect_from(tree, lines, m)
    } else {
        Seq::empty()
    }
}

#[via_fn]
proof fn spec_collect_from_decreases(tree: Seq<SynNode>, lines: Seq<Seq<char>>, n: int) {
    assert(crate::syntree::node_links_ok(tree, n));
}

/// Keeps the first occurrence of each name, from position `i` on, given
/// the names already seen.
pub open spec fn spec_dedup_from(
    s: Seq<(SymbolKind, Seq<char>)>,
    i: int,
    seen: Set<Seq<char>>,
) -> Seq<(SymbolKind, Seq<char>)>
    decreases s.len() - i,
    when 0 <= i
{
    if i >= s.len() {
        Seq::empty()
    } else if seen.contains(s[i].1) {
        spec_dedup_from(s, i + 1, seen)
    } else {
        seq![s[i]] + spec_dedup_from(s, i + 1, seen.insert(s[i].1))
    }
}

/// Keeps the first occurrence of each name.
pub open spec fn spec_dedup(s: Seq<(SymbolKind, Seq<char>)>) -> Seq<(SymbolKind, Seq<char>)> {
    spec_dedup_from(s, 0, Set::empty())
}

/// Appends the symbols one visited node contributes.
#[verifier::rlimit(100)]
#[verifier::spinoff_prover]
fn emit_node(tree: &SynTree, doc: &DynText, m: usize, out: &mut Vec<Symbol>)
    requires
        doc.wf(),
        m < tree@.len(),
    ensures
        sym_views(final(out)@) == sym_views(old(out)@) + spec_emit(tree@, doc@, m as int),
{
    proof {
        use_type_invariant(tree);
    }
    let node = tree.node(m);
    let kind_is_decl = node.kind == NodeKind::VarDecl || node.kind == NodeKind::ConstDecl;
    let kind_is_func = node.kind == NodeKind::FuncDef;
    if kind_is_func {
        match ident_child(tree, m) {
            Option::None => {
                proof {
                    assert(sym_views(out@) =~= sym_views(out@) + spec_emit(tree@, doc@, m as int));
                }
                return ;
            },
            Option::Some(id) => {
                match node_text(tree, doc, id) {
                    Option::Some(v) => {
                        let name = crate::line::chars_to_string(&v);
                        out.push(Symbol { kind: SymbolKind::Function, name });
                        proof {
                            assert(sym_views(out@) =~= sym_views(old(out)@) + seq![
                                (SymbolKind::Function, v@),
                            ]);
                        }
                    },
                    Option::None => {
                        proof {
                            assert(sym_views(out@) =~= sym_views(out@) + spec_emit(
                                tree@,
                                doc@,
                                m as int,
                            ));
                        }
                        return ;
                    },
                }
            },
        }
    } else if !kind_is_decl {
        proof {
            assert(sym_views(out@) =~= sym_views(out@) + spec_emit(tree@, doc@, m as int));
        }
        return ;
    }
    let f = if kind_is_decl {
        FieldTag::FieldDefs
    } else {
        FieldTag::FieldParams
    };
    let ghost base = sym_views(out@);
    let ghost kids = tree@[m as int].children@;
    let mlen = node.children.len();
    let mut j: usize = 0;
    proof {
        assert(kids.skip(0) =~= kids);
    }
    while j < mlen
        invariant
            j <= mlen,
            doc.wf(),
            m < tree@.len(),
            links_ok(tree@),
            *node == tree@[m as int],
            kids == tree@[m as int].children@,
            mlen == kids.len(),
            sym_views(out@) + emit_fields(tree@, doc@, kids.skip(j as int), f) == base
                + emit_fields(tree@, doc@, kids, f),
        decreases mlen - j,
    {
        let c = node.children[j];
        proof {
            assert(crate::syntree::node_links_ok(tree@, m as int));
            assert(kids.skip(j as int)[0] == kids[j as int]);
            assert(kids.skip(j as int).drop_first() =~= kids.skip(j + 1));
        }
        if tree.node(c).field == f {
            match ident_child(tree, c) {
                Option::Some(id) => {
                    match node_text(tree, doc, id) {
                        Option::Some(v) => {
                            let name = crate::line::chars_to_string(&v);
                            let ghost before = sym_views(out@);
                            out.push(Symbol { kind: SymbolKind::Variable, name });
                            proof {
                                assert(sym_views(out@) =~= before + seq![
                                    (SymbolKind::Variable, v@),
                                ]);
                                assert(before + (seq![(SymbolKind::Variable, v@)] + emit_fields(
                                    tree@,
                                    doc@,
                                    kids.skip(j + 1),
                                    f,
                                )) =~= sym_views(out@) + emit_fields(tree@, doc@, kids.skip(j + 1), f));
                            }
                        },
                        Option::None => {},
                    }
                },
                Option::None => {},
            }
        }
        j += 1;
    }
    proof {
        assert(kids.skip(mlen as int) =~= Seq::<usize>::empty());
        assert(sym_views(out@) + emit_fields(tree@, doc@, kids.skip(mlen as int), f) =~= sym_views(
            out@,
        ));
        if kind_is_decl {
        } else {
            assert(base + emit_fields(tree@, doc@, kids, f) =~= sym_views(old(out)@) + spec_emit(
                tree@,
                doc@,
                m as int,
            ));
        }
    }
}

/// Collects every symbol along the backward walk, in walk order.
#[verifier::rlimit(100)]
#[verifier::spinoff_prover]
fn collect_symbols(tree: &SynTree, doc: &DynText, start: usize, out: &mut Vec<Symbol>)
    requires
        doc.wf(),
        start < tree@.len(),
    ensures
        sym_views(final(out)@) == sym_views(old(out)@) + spec_collect_from(
            tree@,
            doc@,
            start as int,
        ),
{
    proof {
        use_type_invariant(tree);
    }
    let mut n = start;
    loop
        invariant
            n < tree@.len(),
            doc.wf(),
            links_ok(tree@),
            sym_views(out@) + spec_collect_from(tree@, doc@, n as int) == sym_views(old(out)@)
                + spec_collect_from(tree@, doc@, start as int),
        decreases n,
    {
        let node = tree.node(n);
        let m: usize = match node.prev_named_sibling {
            Option::Some(p) => p,
            Option::None => {
                match node.parent {
                    Option::Some(p) => p,
                    Option::None => {
                        return ;
                    },
                }
            },
        };
        proof {
            assert(crate::syntree::node_links_ok(tree@, n as int));
        }
        let ghost before = sym_views(out@);
        emit_node(tree, doc, m, out);
        proof {
            assert((before + spec_emit(tree@, doc@, m as int)) + spec_collect_from(
                tree@,
                doc@,
                m as int,
            ) =~= before + (spec_emit(tree@, doc@, m as int) + spec_collect_from(
                tree@,
                doc@,
                m as int,
            )));
        }
        n = m;
    }
}

/// Whether one of the seen names reads as this one.
fn contains_name(seen: &Vec<String>, name: &String) -> (r: bool)
    ensures
        r == exists|j: int| 0 <= j < seen@.len() && (#[trigger] seen@[j])@ == name@,
{
    let n = seen.len();
    let mut i: usize = 0;
    while i < n
        invariant
            i <= n,
            n == seen@.len(),
            forall|j: int| 0 <= j < i ==> (#[trigger] seen@[j])@ != name@,
        decreases n - i,
    {
        if seen[i].eq(name) {
            return true;
        }
        i += 1;
    }
    false
}

/// Keeps the first occurrence of each name, in order.
#[verifier::rlimit(100)]
#[verifier::spinoff_prover]
fn dedup_symbols(symbols: Vec<Symbol>) -> (r: Vec<Symbol>)
    ensures
        sym_views(r@) == spec_dedup(sym_views(symbols@)),
{
    let ghost all = sym_views(symbols@);
    let mut symbols = symbols;
    let mut out: Vec<Symbol> = Vec::new();
    let mut seen: Vec<String> = Vec::new();
    let total_count = symbols.len();
    let ghost n = all.len();
    proof {
        assert(n == total_count as nat);
    }
    let mut i: usize = 0;
    let ghost mut seenset = Set::<Seq<char>>::empty();
    while symbols.len() > 0
        invariant
            i + symbols@.len() == n,
            n <= usize::MAX,
            all.len() == n,
            forall|j: int|
                0 <= j < symbols@.len() ==> ((#[trigger] symbols@[j]).kind, symbols@[j].name@)
                    == all[i + j],
            forall|nm: Seq<char>|
                seenset.contains(nm) <==> exists|j: int|
                    0 <= j < seen@.len() && (#[trigger] seen@[j])@ == nm,
            spec_dedup(all) == sym_views(out@) + spec_dedup_from(all, i as int, seenset),
        decreases symbols@.len(),
    {
        let x = symbols.remove(0);
        proof {
            assert((x.kind, x.name@) == all[i as int]);
        }
        let dup = contains_name(&seen, &x.name);
        proof {
            assert(dup == seenset.contains(all[i as int].1));
        }
        if !dup {
            let nm = x.name.clone();
            let ghost oldseen = seen@;
            seen.push(nm);
            let ghost before = sym_views(out@);
            out.push(x);
            proof {
                assert(sym_views(out@) =~= before + seq![all[i as int]]);
                assert(before + (seq![all[i as int]] + spec_dedup_from(
                    all,
                    i + 1,
                    seenset.insert(all[i as int].1),
                )) =~= sym_views(out@) + spec_dedup_from(
                    all,
                    i + 1,
                    seenset.insert(all[i as int].1),
                ));
                let ns = seenset.insert(all[i as int].1);
                assert(seen@[oldseen.len() as int]@ == all[i as int].1);
                assert forall|nm2: Seq<char>| ns.contains(nm2) implies exists|j: int|
                    0 <= j < seen@.len() && (#[trigger] seen@[j])@ == nm2 by {
                    if nm2 == all[i as int].1 {
                        assert(seen@[oldseen.len() as int]@ == nm2);
                    } else {
                        assert(seenset.contains(nm2));
                        let j = choose|j: int|
                            0 <= j < oldseen.len() && (#[trigger] oldseen[j])@ == nm2;
                        assert(seen@[j]@ == nm2);
                    }
                }
                assert forall|nm2: Seq<char>| (exists|j: int|
                    0 <= j < seen@.len() && (#[trigger] seen@[j])@ == nm2) implies ns.contains(
                    nm2,
                ) by {
                    let j = choose|j: int| 0 <= j < seen@.len() && (#[trigger] seen@[j])@ == nm2;
                    if j < oldseen.len() {
                        assert(oldseen[j]@ == nm2);
                        assert(seenset.contains(nm2));
                    } else {
                        assert(seen@[j]@ == all[i as int].1);
                    }
                }
                seenset = seenset.insert(all[i as int].1);
            }
        }
        i += 1;
        proof {
            assert forall|j: int|
                0 <= j < symbols@.len() implies ((#[trigger] symbols@[j]).kind, symbols@[j].name@)
                == all[i + j] by {}
        }
    }
    proof {
        assert(spec_dedup_from(all, i as int, seenset) =~= Seq::<(SymbolKind, Seq<char>)>::empty());
        assert(sym_views(out@) =~= spec_dedup(all));
    }
    out
}

/// Where a definition lookup at a position lands: the range of the
/// definition node the walk finds for the identifier under the position.
pub open spec fn spec_doc_find_definition(
    tree: Seq<SynNode>,
    lines: Seq<Seq<char>>,
    pos: Point,
) -> Option<PointRange> {
    let q = Point { row: pos.row, column: (pos.column + 1) as usize };
    match spec_descendant(tree, pos, q) {
        Option::None => None,
        Option::Some(i) => {
            if tree[i].kind != NodeKind::Ident {
                None
            } else {
                match spec_node_text(tree, lines, i) {
                    Option::None => None,
                    Option::Some(name) => match spec_find_from(tree, lines, name, i) {
                        Option::None => None,
                        Option::Some(d) => Some(
                            PointRange { start: tree[d].start, end: tree[d].end },
                        ),
                    },
                }
            }
        },
    }
}

/// The visible symbols at a position: everything the walk from the node
/// under the position passes, first occurrence of each name kept.
pub open spec fn spec_doc_query_symbols(
    tree: Seq<SynNode>,
    lines: Seq<Seq<char>>,
    pos: Point,
) -> Seq<(SymbolKind, Seq<char>)> {
    let q = Point { row: pos.row, column: (pos.column + 1) as usize };
    match spec_descendant(tree, pos, q) {
        Option::None => Seq::empty(),
        Option::Some(i) => spec_dedup(spec_collect_from(tree, lines, i)),
    }
}

/// Resolves the identifier under a position to the range of its
/// definition: the smallest node covering the position must be an
/// identifier; its name is resolved by the backward scope walk.
pub fn query_definition(model: &SynTree, doc: &DynText, pos: Point) -> (r: Option<PointRange>)
    requires
        doc.wf(),
        pos.column < usize::MAX,
    ensures
        r == spec_doc_find_definition(model@, doc@, pos),
{
    let q = Point { row: pos.row, column: pos.column + 1 };
    let i = match smallest_descendant(model, pos, q) {
        Option::Some(i) => i,
        Option::None => {
            return None;
        },
    };
    if tree_kind(model, i) != NodeKind::Ident {
        return None;
    }
    let name = match node_text(model, doc, i) {
        Option::Some(v) => v,
        Option::None => {
            return None;
        },
    };
    match find_definition(model, doc, &name, i) {
        Option::Some(d) => {
            let dn = model.node(d);
            Some(PointRange { start: dn.start, end: dn.end })
        },
        Option::None => None,
    }
}

/// Enumerates the symbols visible at a position, innermost first, without
/// duplicate names.
pub fn visible_symbols(model: &SynTree, doc: &DynText, pos: Point) -> (r: Vec<Symbol>)
    requires
        doc.wf(),
        pos.column < usize::MAX,
    ensures
        sym_views(r@) == spec_doc_query_symbols(model@, doc@, pos),
{
    let q = Point { row: pos.row, column: pos.column + 1 };
    let i = match smallest_descendant(model, pos, q) {
        Option::Some(i) => i,
        Option::None => {
            let r: Vec<Symbol> = Vec::new();
            proof {
                assert(sym_views(r@) =~= Seq::<(SymbolKind, Seq<char>)>::empty());
            }
            return r;
        },
    };
    let mut collected: Vec<Symbol> = Vec::new();
    proof {
        assert(sym_views(collected@) =~= Seq::<(SymbolKind, Seq<char>)>::empty());
    }
    collect_symbols(model, doc, i, &mut collected);
    proof {
        assert(sym_views(collected@) =~= spec_collect_from(model@, doc@, i as int));
    }
    dedup_symbols(collected)
}

/// The range of the smallest node covering a position; no scope walk.
pub fn token_at(model: &SynTree, pos: Point) -> (r: Option<PointRange>)
    ensures
        r == (match spec_descendant(model@, pos, pos) {
            Option::Some(i) => Some(PointRange { start: model@[i].start, end: model@[i].end }),
            Option::None => None::<PointRange>,
        }),
{
    match smallest_descendant(model, pos, pos) {
        Option::Some(i) => {
            let n = model.node(i);
            Some(PointRange { start: n.start, end: n.end })
        },
        Option::None => None,
    }
}

impl DocHandler {
    /// Resolves the identifier under a position to the range of its
    /// definition.
    pub fn find_definition(&self, model: &SynTree, pos: Point) -> (r: Option<PointRange>)
        requires
            self.wf(),
            pos.column < usize::MAX,
        ensures
            r == spec_doc_find_definition(model@, self@, pos),
    {
        query_definition(model, self.text(), pos)
    }

    /// Enumerates the symbols visible at a position, innermost first,
    /// without duplicate names.
    pub fn query_symbols(&self, model: &SynTree, pos: Point) -> (r: Vec<Symbol>)
        requires
            self.wf(),
            pos.column < usize::MAX,
        ensures
            sym_views(r@) == spec_doc_query_symbols(model@, self@, pos),
    {
        visible_symbols(model, self.text(), pos)
    }

    /// The range of the smallest node covering a position; no scope walk.
    pub fn get_token_at_position(&self, model: &SynTree, pos: Point) -> (r: Option<PointRange>)
        ensures
            r == (match spec_descendant(model@, pos, pos) {
                Option::Some(i) => Some(
                    PointRange { start: model@[i].start, end: model@[i].end },
                ),
                Option::None => None::<PointRange>,
            }),
    {
        token_at(model, pos)
    }
}

/// Reads one node's kind.
fn tree_kind(tree: &SynTree, i: usize) -> (r: NodeKind)
    requires
        i < tree@.len(),
    ensures
        r == tree@[i as int].kind,
{
    tree.node(i).kind
}

} // verus!

verus! {

/// Law: a positional query is a function of the syntax tree and the text
/// alone. Queries against one stable, unedited document version answer
/// alike, however many are asked and in whatever order.
pub proof fn lemma_queries_deterministic(
    tree1: Seq<SynNode>,
    tree2: Seq<SynNode>,
    lines1: Seq<Seq<char>>,
    lines2: Seq<Seq<char>>,
    pos: Point,
)
    requires
        tree1 == tree2,
        lines1 == lines2,
    ensures
        spec_doc_find_definition(tree1, lines1, pos) == spec_doc_find_definition(
            tree2,
            lines2,
            pos,
        ),
        spec_doc_query_symbols(tree1, lines1, pos) == spec_doc_query_symbols(tree2, lines2, pos),
        spec_descendant(tree1, pos, pos) == spec_descendant(tree2, pos, pos),
{
}

} // verus!
