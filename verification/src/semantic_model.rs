use vstd::prelude::*;

use crate::edit::EditDescriptor;
use crate::semantic_pass::{spec_decl_pass, symbol_decl_pass};
use crate::symtable::{SymbolInfo, SymbolTable};
use crate::syntree::{links_ok, NodeKind, SynNode, SynTree};
use crate::text::DynText;

verus! {

/// What a block carries besides its children: the symbols declared
/// directly in it.
pub struct BlockAttr {
    pub symbol_table: SymbolTable,
}

/// One node of the block mirror: a block with children, a cached byte
/// length and a dirty flag, or a placeholder for a stretch of text
/// between blocks.
pub enum Node {
    Block { children: Vec<Node>, length: usize, dirty: bool, attr: BlockAttr },
    PlaceHolder { length: usize },
}

/// The byte length a subtree really covers: a placeholder its own, a
/// block the sum of its children's.
pub open spec fn true_len(n: Node) -> nat
    decreases n,
{
    match n {
        Node::Block { children, .. } => sum_children(children@),
        Node::PlaceHolder { length } => length as nat,
    }
}

/// The summed byte lengths of a run of children.
pub open spec fn sum_children(s: Seq<Node>) -> nat
    decreases s,
{
    if s.len() == 0 {
        0
    } else {
        true_len(s[0]) + sum_children(s.drop_first())
    }
}

/// Well-formedness of the block mirror: every clean cache holds its
/// subtree's true length, and every true length fits the machine word.
pub open spec fn node_wf(n: Node) -> bool
    decreases n,
{
    match n {
        Node::Block { children, length, dirty, .. } => {
            &&& sum_children(children@) <= usize::MAX
            &&& (!dirty ==> length as nat == sum_children(children@))
            &&& forall|i: int| 0 <= i < children@.len() ==> node_wf(#[trigger] children@[i])
        },
        Node::PlaceHolder { .. } => true,
    }
}

/// The mathematical shape of a mirror node: the block structure with its
/// cache state and symbol table, or a placeholder's covered length.
pub enum NodeView {
    Block {
        children: Seq<NodeView>,
        length: nat,
        dirty: bool,
        table: Seq<(Seq<char>, SymbolInfo)>,
    },
    PlaceHolder { length: nat },
}

/// Whether a mirror node has exactly the given shape: same variant, same
/// length and cache state, the same symbol table, and children of the
/// same shapes, one for one.
pub open spec fn mirrors(n: Node, v: NodeView) -> bool
    decreases n,
{
    match n {
        Node::Block { children, length, dirty, attr } => {
            match v {
                NodeView::Block { children: cv, length: lv, dirty: dv, table } => {
                    &&& lv == length as nat
                    &&& dv == dirty
                    &&& table == attr.symbol_table@
                    &&& cv.len() == children@.len()
                    &&& forall|i: int|
                        0 <= i < children@.len() ==> mirrors(#[trigger] children@[i], cv[i])
                },
                NodeView::PlaceHolder { .. } => false,
            }
        },
        Node::PlaceHolder { length } => v == (NodeView::PlaceHolder { length: length as nat }),
    }
}

/// Whether a run of mirror nodes has exactly the given shapes.
pub open spec fn mirrors_all(s: Seq<Node>, vs: Seq<NodeView>) -> bool {
    &&& s.len() == vs.len()
    &&& forall|i: int| 0 <= i < s.len() ==> mirrors(#[trigger] s[i], vs[i])
}

/// What scanning the subtree at `j` into an enclosing block yields: the
/// mirror nodes it contributes, how far they cover, and the enclosing
/// block's symbol table after the scan. Declarations met on the way enter
/// the table; a block-like node closes the gap before it with a
/// placeholder and contributes its own block; anything else contributes
/// what its children contribute.
pub open spec fn spec_scan(
    t: Seq<SynNode>,
    lines: Seq<Seq<char>>,
    j: int,
    prev: nat,
    table: Seq<(Seq<char>, SymbolInfo)>,
) -> (Seq<NodeView>, nat, Seq<(Seq<char>, SymbolInfo)>)
    decreases t.len() - j, 3int, 0int,
{
    let table1 = spec_decl_pass(t, lines, table, j);
    if t[j].kind == NodeKind::Block || t[j].kind == NodeKind::SourceFile {
        let gap: Seq<NodeView> = if (t[j].start_byte as nat) > prev {
            seq![NodeView::PlaceHolder { length: (t[j].start_byte - prev) as nat }]
        } else {
            Seq::empty()
        };
        (gap.push(spec_build_block(t, lines, j)), t[j].end_byte as nat, table1)
    } else {
        spec_scan_children(t, lines, t[j].children@, j, prev, table1)
    }
}

/// The scan of a run of child subtrees, left to right, threading the
/// covered extent and the table through; a child whose index does not
/// stand after its parent's, as the pre-order conditions demand, is
/// passed over.
pub open spec fn spec_scan_children(
    t: Seq<SynNode>,
    lines: Seq<Seq<char>>,
    kids: Seq<usize>,
    j: int,
    prev: nat,
    table: Seq<(Seq<char>, SymbolInfo)>,
) -> (Seq<NodeView>, nat, Seq<(Seq<char>, SymbolInfo)>)
    decreases t.len() - j, 1int, kids.len(),
{
    if kids.len() == 0 {
        (Seq::empty(), prev, table)
    } else {
        let c = kids.first() as int;
        if j < c && c < t.len() {
            let h = spec_scan(t, lines, c, prev, table);
            let r = spec_scan_children(t, lines, kids.drop_first(), j, h.1, h.2);
            (h.0 + r.0, r.1, r.2)
        } else {
            spec_scan_children(t, lines, kids.drop_first(), j, prev, table)
        }
    }
}

/// The block mirror owed for the block-like node `i`: its children's scan,
/// a placeholder for the tail its children leave uncovered, a clean cache
/// holding its byte extent, and the symbol table the scan collected.
pub open spec fn spec_build_block(t: Seq<SynNode>, lines: Seq<Seq<char>>, i: int) -> NodeView
    decreases t.len() - i, 2int, 0int,
{
    let s = spec_scan_children(
        t,
        lines,
        t[i].children@,
        i,
        t[i].start_byte as nat,
        Seq::empty(),
    );
    let kids = if (t[i].end_byte as nat) > s.1 {
        s.0.push(NodeView::PlaceHolder { length: (t[i].end_byte - s.1) as nat })
    } else {
        s.0
    };
    NodeView::Block {
        children: kids,
        length: (t[i].end_byte - t[i].start_byte) as nat,
        dirty: false,
        table: s.2,
    }
}

/// The whole mirror owed for a tree rooted in the source file: a dirty
/// root block holding a placeholder for any text before the source file
/// node and the source file's own block, with an empty table of its own.
pub open spec fn spec_model_view(t: Seq<SynNode>, lines: Seq<Seq<char>>) -> NodeView {
    let gap: Seq<NodeView> = if t[0].start_byte > 0 {
        seq![NodeView::PlaceHolder { length: t[0].start_byte as nat }]
    } else {
        Seq::empty()
    };
    NodeView::Block {
        children: gap.push(spec_build_block(t, lines, 0)),
        length: 0,
        dirty: true,
        table: Seq::empty(),
    }
}

/// Appending a child adds its true length to the sum.
pub proof fn lemma_sum_children_push(s: Seq<Node>, n: Node)
    ensures
        sum_children(s.push(n)) == sum_children(s) + true_len(n),
    decreases s.len(),
{
    if s.len() == 0 {
        assert(s.push(n)[0] == n);
        assert(s.push(n).drop_first() =~= Seq::<Node>::empty());
        assert(sum_children(Seq::<Node>::empty()) == 0);
        assert(sum_children(s) == 0);
        assert(sum_children(s.push(n)) == true_len(s.push(n)[0]) + sum_children(
            s.push(n).drop_first(),
        ));
    } else {
        assert(s.push(n)[0] == s[0]);
        assert(s.push(n).drop_first() =~= s.drop_first().push(n));
        lemma_sum_children_push(s.drop_first(), n);
    }
}

/// A prefix of children never outsums the whole.
pub proof fn lemma_sum_children_take(s: Seq<Node>, i: int)
    requires
        0 <= i <= s.len(),
    ensures
        sum_children(s.take(i)) <= sum_children(s),
    decreases i,
{
    if i == 0 {
        assert(s.take(0) =~= Seq::<Node>::empty());
    } else {
        assert(s.take(i) =~= s.take(i - 1).push(s[i - 1]));
        lemma_sum_children_push(s.take(i - 1), s[i - 1]);
        lemma_sum_children_take(s, i - 1);
        lemma_sum_true_ge(s, i - 1);
    }
}

/// One child's length is part of the rest of the sum from its position.
proof fn lemma_sum_true_ge(s: Seq<Node>, i: int)
    requires
        0 <= i < s.len(),
    ensures
        sum_children(s.take(i)) + true_len(s[i]) <= sum_children(s),
    decreases i,
{
    if i == 0 {
        assert(s.take(0) =~= Seq::<Node>::empty());
        assert(s[0] == s[0]);
        assert(sum_children(s) == true_len(s[0]) + sum_children(s.drop_first()));
    } else {
        assert(s.drop_first()[i - 1] == s[i]);
        assert(s.take(i).drop_first() =~= s.drop_first().take(i - 1));
        lemma_sum_true_ge(s.drop_first(), i - 1);
        assert(s.take(i)[0] == s[0]);
    }
}

impl Node {
    /// The subtree's byte length: the cache where it is clean, the
    /// children's recomputed sum where it is dirty; a placeholder answers
    /// directly.
    #[verifier::loop_isolation(false)]
    pub fn get_length(&self) -> (r: usize)
        requires
            node_wf(*self),
        ensures
            r as nat == true_len(*self),
        decreases *self,
    {
        match self {
            Node::Block { children, length, dirty, attr } => {
                if *dirty {
                    let n = children.len();
                    let mut total: usize = 0;
                    let mut i: usize = 0;
                    proof {
                        assert(children@.take(0) =~= Seq::<Node>::empty());
                    }
                    while i < n
                        invariant
                            i <= n,
                            n == children@.len(),
                            total as nat == sum_children(children@.take(i as int)),
                            sum_children(children@) <= usize::MAX,
                            forall|k: int|
                                0 <= k < children@.len() ==> node_wf(#[trigger] children@[k]),
                        decreases n - i,
                    {
                        proof {
                            assert(*self == (Node::Block {
                                children: *children,
                                length: *length,
                                dirty: *dirty,
                                attr: *attr,
                            }));
                            assert(decreases_to!(*self => *children));
                            assert(decreases_to!(*children => children@));
                            assert(decreases_to!(children@ => children@[i as int]));
                            assert(decreases_to!(*self => children@[i as int]));
                        }
                        let w = children[i].get_length();
                        proof {
                            assert(children@.take(i + 1) =~= children@.take(i as int).push(
                                children@[i as int],
                            ));
                            lemma_sum_children_push(children@.take(i as int), children@[i as int]);
                            lemma_sum_children_take(children@, i + 1);
                        }
                        total = total + w;
                        i += 1;
                    }
                    proof {
                        assert(children@.take(n as int) =~= children@);
                    }
                    total
                } else {
                    *length
                }
            },
            Node::PlaceHolder { length } => *length,
        }
    }

    /// Refreshes a dirty block's cache from its children: the refreshed
    /// block is clean and its length is exactly its children's sum; its
    /// children and attributes stay as they were. A placeholder stays as
    /// it is.
    pub fn update(&mut self)
        requires
            node_wf(*old(self)),
        ensures
            node_wf(*final(self)),
            true_len(*final(self)) == true_len(*old(self)),
            ((*final(self)) is Block) == ((*old(self)) is Block),
            (*old(self)) is PlaceHolder ==> *final(self) == *old(self),
            (*old(self)) matches Node::Block { children, attr, .. } ==> *final(self)
                == (Node::Block {
                children,
                length: sum_children(children@) as usize,
                dirty: false,
                attr,
            }),
    {
        let fresh = self.get_length();
        match self {
            Node::Block { length, dirty, .. } => {
                if *dirty {
                    *length = fresh;
                    *dirty = false;
                }
            },
            Node::PlaceHolder { .. } => {},
        }
    }

    /// Marks a block's cache dirty; a placeholder has none.
    pub fn set_dirty(&mut self)
        requires
            node_wf(*old(self)),
        ensures
            node_wf(*final(self)),
            true_len(*final(self)) == true_len(*old(self)),
    {
        match self {
            Node::Block { dirty, .. } => {
                *dirty = true;
            },
            Node::PlaceHolder { .. } => {},
        }
    }

    /// Applies one text edit to this node alone: a placeholder's length
    /// moves by the size difference; a block keeps its children as they
    /// are — the edit is not propagated to them.
    pub fn text_edit(&mut self, start_byte: usize, old_size: usize, new_size: usize)
        requires
            node_wf(*old(self)),
            start_byte + old_size <= true_len(*old(self)),
            true_len(*old(self)) - old_size + new_size <= usize::MAX,
        ensures
            node_wf(*final(self)),
            (*old(self)) is Block ==> *final(self) == *old(self),
            (*old(self)) is PlaceHolder ==> *final(self) == (Node::PlaceHolder {
                length: (true_len(*old(self)) - old_size + new_size) as usize,
            }),
    {
        let total = self.get_length();
        match self {
            Node::Block { .. } => {},
            Node::PlaceHolder { length } => {
                *length = total - old_size + new_size;
            },
        }
    }
}

/// The lazy block mirror of a document's syntax tree, meant for future
/// incremental semantic caching.
pub struct SemanticModel {
    root: Node,
}

impl SemanticModel {
    /// The mirror's invariant.
    pub closed spec fn wf(self) -> bool {
        node_wf(self.root)
    }

    /// The byte length the mirror covers.
    pub closed spec fn spec_len(self) -> nat {
        true_len(self.root)
    }

    /// Whether the mirror has exactly the given shape.
    pub closed spec fn mirrors_view(self, v: NodeView) -> bool {
        mirrors(self.root, v)
    }

    /// Builds the mirror from the modeled syntax tree: the root must be
    /// the source file; blocks mirror block nodes, placeholders cover the
    /// text between them, and each block's symbol table takes the
    /// declarations scanned on the way to its sub-blocks. The result has
    /// exactly the shape the scan owes the whole tree.
    pub fn new(tree: &SynTree, doc: &DynText) -> (r: SemanticModel)
        requires
            doc.wf(),
            tree@[0].kind == NodeKind::SourceFile,
        ensures
            r.wf(),
            r.spec_len() == tree@[0].end_byte as nat,
            r.mirrors_view(spec_model_view(tree@, doc@)),
    {
        proof {
            use_type_invariant(tree);
            assert(crate::syntree::node_links_ok(tree@, 0));
        }
        let ghost gap: Seq<NodeView> = if tree@[0].start_byte > 0 {
            seq![NodeView::PlaceHolder { length: tree@[0].start_byte as nat }]
        } else {
            Seq::empty()
        };
        let root_node = tree.node(0);
        let mut children: Vec<Node> = Vec::new();
        proof {
            assert(sum_children(children@) == 0);
        }
        if root_node.start_byte > 0 {
            let ph = Node::PlaceHolder { length: root_node.start_byte };
            proof {
                lemma_sum_children_push(children@, ph);
                assert(mirrors(ph, gap[0]));
            }
            children.push(ph);
        }
        let b = build_block(tree, doc, 0);
        proof {
            lemma_sum_children_push(children@, b);
        }
        children.push(b);
        let ghost cvs = gap.push(spec_build_block(tree@, doc@, 0));
        proof {
            assert(sum_children(children@) == tree@[0].end_byte as nat);
            assert forall|k: int| 0 <= k < children@.len() implies node_wf(
                #[trigger] children@[k],
            ) by {
                if k == children@.len() - 1 {
                } else {
                    assert(children@[k] is PlaceHolder);
                }
            }
            assert(children@.len() == cvs.len());
            assert forall|k: int| 0 <= k < children@.len() implies mirrors(
                #[trigger] children@[k],
                cvs[k],
            ) by {
                if k == children@.len() - 1 {
                    assert(children@[k] == b);
                    assert(cvs[k] == spec_build_block(tree@, doc@, 0));
                } else {
                    assert(mirrors(children@[k], gap[k]));
                }
            }
        }
        let root = Node::Block {
            children,
            length: 0,
            dirty: true,
            attr: BlockAttr { symbol_table: SymbolTable::new() },
        };
        proof {
            assert(mirrors(root, spec_model_view(tree@, doc@)));
        }
        SemanticModel { root }
    }

    /// The mirror's current byte length.
    pub fn length(&self) -> (r: usize)
        requires
            self.wf(),
        ensures
            r as nat == self.spec_len(),
    {
        self.root.get_length()
    }

    /// What an edit should do to the mirror; propagation into the block
    /// structure is not implemented, and the mirror stays as it is.
    pub fn incremental_update(&mut self, edit: &EditDescriptor, new_tree: &SynTree)
        ensures
            *final(self) == *old(self),
    {
    }
}

/// Builds the block mirror of the block-like node `i`, with exactly the
/// shape the scan owes it: the scanned children, the tail placeholder,
/// a clean cache over its byte extent, and the scanned symbol table.
#[verifier::rlimit(100)]
#[verifier::spinoff_prover]
fn build_block(tree: &SynTree, doc: &DynText, i: usize) -> (r: Node)
    requires
        doc.wf(),
        i < tree@.len(),
        tree@[i as int].kind == NodeKind::Block || tree@[i as int].kind == NodeKind::SourceFile,
    ensures
        node_wf(r),
        true_len(r) == tree@[i as int].end_byte - tree@[i as int].start_byte,
        mirrors(r, spec_build_block(tree@, doc@, i as int)),
    decreases tree@.len() - i, 0int,
{
    proof {
        use_type_invariant(tree);
        assert(crate::syntree::node_links_ok(tree@, i as int));
    }
    let node = tree.node(i);
    let ghost kids = node.children@;
    let ghost s = spec_scan_children(
        tree@,
        doc@,
        tree@[i as int].children@,
        i as int,
        tree@[i as int].start_byte as nat,
        Seq::empty(),
    );
    let mut children: Vec<Node> = Vec::new();
    let mut table = SymbolTable::new();
    let mut prev = node.start_byte;
    let m = node.children.len();
    let mut j: usize = 0;
    let ghost mut vs: Seq<NodeView> = Seq::empty();
    proof {
        assert(sum_children(children@) == 0);
        if m > 0 {
            assert(tree@[i as int].start_byte <= tree@[kids[0] as int].start_byte);
        }
        assert(kids.skip(0) =~= kids);
    }
    while j < m
        invariant
            j <= m,
            doc.wf(),
            i < tree@.len(),
            links_ok(tree@),
            *node == tree@[i as int],
            kids == tree@[i as int].children@,
            m == kids.len(),
            tree@[i as int].start_byte <= prev,
            j < m ==> prev <= tree@[kids[j as int] as int].start_byte,
            prev <= tree@[i as int].end_byte,
            sum_children(children@) == prev - tree@[i as int].start_byte,
            forall|k: int| 0 <= k < children@.len() ==> node_wf(#[trigger] children@[k]),
            mirrors_all(children@, vs),
            s.0 == vs + spec_scan_children(
                tree@,
                doc@,
                kids.skip(j as int),
                i as int,
                prev as nat,
                table@,
            ).0,
            s.1 == spec_scan_children(
                tree@,
                doc@,
                kids.skip(j as int),
                i as int,
                prev as nat,
                table@,
            ).1,
            s.2 == spec_scan_children(
                tree@,
                doc@,
                kids.skip(j as int),
                i as int,
                prev as nat,
                table@,
            ).2,
        decreases m - j,
    {
        let c = node.children[j];
        proof {
            assert(crate::syntree::node_links_ok(tree@, i as int));
            assert(tree@[c as int].end_byte <= tree@[i as int].end_byte);
            assert(kids.skip(j as int)[0] == kids[j as int]);
            assert(kids.skip(j as int).drop_first() =~= kids.skip(j + 1));
        }
        let ghost pb = prev as nat;
        let ghost tb = table@;
        let ghost cb = children@;
        let ghost h = spec_scan(tree@, doc@, c as int, pb, tb);
        prev = scan_into(tree, doc, c, prev, &mut children, &mut table);
        proof {
            assert(crate::syntree::node_links_ok(tree@, i as int));
            if j + 1 < m {
                assert(tree@[kids[j as int] as int].end_byte <= tree@[kids[j + 1] as int].start_byte);
            }
            assert(spec_scan_children(tree@, doc@, kids.skip(j as int), i as int, pb, tb).0 == h.0
                + spec_scan_children(tree@, doc@, kids.skip(j + 1), i as int, h.1, h.2).0);
            assert(prev as nat == h.1);
            assert(table@ == h.2);
            assert(mirrors_all(cb, vs));
            assert(cb.len() == vs.len());
            assert(children@.len() == cb.len() + h.0.len());
            assert(children@.take(cb.len() as int) == cb);
            let tail = children@.skip(cb.len() as int);
            assert(mirrors_all(tail, h.0));
            assert(tail.len() == h.0.len());
            assert(children@.len() == vs.len() + h.0.len());
            assert forall|k: int| 0 <= k < children@.len() implies mirrors(
                #[trigger] children@[k],
                (vs + h.0)[k],
            ) by {
                if k < vs.len() {
                    assert(children@[k] == cb[k]) by {
                        assert(children@.take(cb.len() as int)[k] == cb[k]);
                    }
                    assert(mirrors(cb[k], vs[k]));
                } else {
                    assert(children@[k] == tail[k - vs.len()]);
                    assert(mirrors(tail[k - vs.len()], h.0[k - vs.len()]));
                }
            }
            vs = vs + h.0;
            assert(s.0 =~= vs + spec_scan_children(
                tree@,
                doc@,
                kids.skip(j + 1),
                i as int,
                prev as nat,
                table@,
            ).0);
        }
        j += 1;
    }
    proof {
        assert(kids.skip(m as int) =~= Seq::<usize>::empty());
        assert(s.0 =~= vs);
        assert(s.1 == prev as nat);
        assert(s.2 == table@);
    }
    if node.end_byte > prev {
        let ph = Node::PlaceHolder { length: node.end_byte - prev };
        let ghost c0 = children@;
        proof {
            lemma_sum_children_push(children@, ph);
        }
        children.push(ph);
        proof {
            assert forall|k: int| 0 <= k < children@.len() implies node_wf(
                #[trigger] children@[k],
            ) by {
                if k < c0.len() {
                    assert(children@[k] == c0[k]);
                } else {
                    assert(children@[k] == ph);
                }
            }
            assert(mirrors(ph, NodeView::PlaceHolder { length: (tree@[i as int].end_byte
                - prev) as nat }));
            assert forall|k: int| 0 <= k < children@.len() implies mirrors(
                #[trigger] children@[k],
                s.0.push(
                    NodeView::PlaceHolder { length: (tree@[i as int].end_byte - prev) as nat },
                )[k],
            ) by {
                if k < c0.len() {
                    assert(children@[k] == c0[k]);
                    assert(mirrors(c0[k], vs[k]));
                } else {
                    assert(children@[k] == ph);
                }
            }
            vs = vs.push(
                NodeView::PlaceHolder { length: (tree@[i as int].end_byte - prev) as nat },
            );
        }
    }
    proof {
        assert(sum_children(children@) == tree@[i as int].end_byte - tree@[i as int].start_byte);
        assert(mirrors_all(children@, vs));
    }
    let total = node.end_byte - node.start_byte;
    let r = Node::Block {
        children,
        length: total,
        dirty: false,
        attr: BlockAttr { symbol_table: table },
    };
    proof {
        assert(node_wf(r));
        assert(true_len(r) == sum_children(children@));
        assert(mirrors(r, spec_build_block(tree@, doc@, i as int)));
    }
    r
}

/// Scans one subtree for blocks: declarations enter the running table; a
/// block-like node closes the gap before it with a placeholder and
/// becomes a block child; anything else is searched for nested blocks.
/// Returns how far the children now cover. The appended children have
/// exactly the shapes the scan owes, and the table ends as the scan's
/// fold leaves it.
#[verifier::rlimit(100)]
#[verifier::spinoff_prover]
fn scan_into(
    tree: &SynTree,
    doc: &DynText,
    j: usize,
    prev: usize,
    children: &mut Vec<Node>,
    table: &mut SymbolTable,
) -> (r: usize)
    requires
        doc.wf(),
        j < tree@.len(),
        prev <= tree@[j as int].start_byte,
        sum_children(old(children)@) <= usize::MAX - tree@[j as int].end_byte + prev,
        forall|k: int| 0 <= k < old(children)@.len() ==> node_wf(#[trigger] old(children)@[k]),
    ensures
        prev <= r,
        r <= tree@[j as int].end_byte,
        sum_children(final(children)@) == sum_children(old(children)@) + (r - prev),
        forall|k: int| 0 <= k < final(children)@.len() ==> node_wf(#[trigger] final(children)@[k]),
        final(children)@.len() == old(children)@.len() + spec_scan(
            tree@,
            doc@,
            j as int,
            prev as nat,
            old(table)@,
        ).0.len(),
        final(children)@.take(old(children)@.len() as int) == old(children)@,
        mirrors_all(
            final(children)@.skip(old(children)@.len() as int),
            spec_scan(tree@, doc@, j as int, prev as nat, old(table)@).0,
        ),
        r as nat == spec_scan(tree@, doc@, j as int, prev as nat, old(table)@).1,
        final(table)@ == spec_scan(tree@, doc@, j as int, prev as nat, old(table)@).2,
    decreases tree@.len() - j, 1int,
{
    proof {
        use_type_invariant(tree);
        assert(crate::syntree::node_links_ok(tree@, j as int));
    }
    let ghost c00 = old(children)@;
    symbol_decl_pass(table, tree, j, doc);
    let ghost table1 = table@;
    let ghost full = spec_scan(tree@, doc@, j as int, prev as nat, old(table)@);
    let node = tree.node(j);
    if node.kind == NodeKind::Block || node.kind == NodeKind::SourceFile {
        let ghost gap: Seq<NodeView> = if (tree@[j as int].start_byte as nat) > prev as nat {
            seq![
                NodeView::PlaceHolder {
                    length: (tree@[j as int].start_byte - prev) as nat,
                },
            ]
        } else {
            Seq::empty()
        };
        proof {
            assert(full.0 == gap.push(spec_build_block(tree@, doc@, j as int)));
            assert(full.1 == tree@[j as int].end_byte as nat);
            assert(full.2 == table1);
        }
        if node.start_byte > prev {
            let ph = Node::PlaceHolder { length: node.start_byte - prev };
            let ghost c0 = children@;
            proof {
                lemma_sum_children_push(children@, ph);
            }
            children.push(ph);
            proof {
                assert forall|k: int| 0 <= k < children@.len() implies node_wf(
                    #[trigger] children@[k],
                ) by {
                    if k < c0.len() {
                        assert(children@[k] == c0[k]);
                    } else {
                        assert(children@[k] == ph);
                    }
                }
                assert(mirrors(ph, gap[0]));
            }
        }
        let b = build_block(tree, doc, j);
        let ghost c1 = children@;
        proof {
            lemma_sum_children_push(children@, b);
        }
        children.push(b);
        proof {
            assert forall|k: int| 0 <= k < children@.len() implies node_wf(
                #[trigger] children@[k],
            ) by {
                if k < c1.len() {
                    assert(children@[k] == c1[k]);
                } else {
                    assert(children@[k] == b);
                }
            }
            assert(children@.take(c00.len() as int) =~= c00);
            let suffix = children@.skip(c00.len() as int);
            assert(suffix.len() == full.0.len());
            assert forall|k: int| 0 <= k < suffix.len() implies mirrors(
                #[trigger] suffix[k],
                full.0[k],
            ) by {
                if k == suffix.len() - 1 {
                    assert(suffix[k] == b);
                    assert(full.0[k] == spec_build_block(tree@, doc@, j as int));
                } else {
                    assert(suffix[k] == children@[c00.len() + k]);
                    assert(mirrors(suffix[k], gap[k]));
                    assert(full.0[k] == gap[k]);
                }
            }
        }
        node.end_byte
    } else {
        proof {
            assert(full == spec_scan_children(
                tree@,
                doc@,
                tree@[j as int].children@,
                j as int,
                prev as nat,
                table1,
            ));
        }
        let ghost kids = node.children@;
        let m = node.children.len();
        let mut p = prev;
        let mut jj: usize = 0;
        let ghost mut vs: Seq<NodeView> = Seq::empty();
        proof {
            if m > 0 {
                assert(tree@[j as int].start_byte <= tree@[kids[0] as int].start_byte);
            }
            assert(kids.skip(0) =~= kids);
            assert(children@.skip(c00.len() as int) =~= Seq::<Node>::empty());
            assert(children@.take(c00.len() as int) =~= c00);
        }
        while jj < m
            invariant
                jj <= m,
                doc.wf(),
                j < tree@.len(),
                links_ok(tree@),
                *node == tree@[j as int],
                kids == tree@[j as int].children@,
                m == kids.len(),
                prev <= p,
                p <= tree@[j as int].end_byte,
                jj < m ==> p <= tree@[kids[jj as int] as int].start_byte,
                sum_children(children@) == sum_children(old(children)@) + (p - prev),
                sum_children(old(children)@) <= usize::MAX - tree@[j as int].end_byte + prev,
                forall|k: int|
                    0 <= k < children@.len() ==> node_wf(#[trigger] children@[k]),
                c00 == old(children)@,
                c00.len() <= children@.len(),
                children@.take(c00.len() as int) == c00,
                mirrors_all(children@.skip(c00.len() as int), vs),
                full.0 == vs + spec_scan_children(
                    tree@,
                    doc@,
                    kids.skip(jj as int),
                    j as int,
                    p as nat,
                    table@,
                ).0,
                full.1 == spec_scan_children(
                    tree@,
                    doc@,
                    kids.skip(jj as int),
                    j as int,
                    p as nat,
                    table@,
                ).1,
                full.2 == spec_scan_children(
                    tree@,
                    doc@,
                    kids.skip(jj as int),
                    j as int,
                    p as nat,
                    table@,
                ).2,
            decreases m - jj,
        {
            let c = node.children[jj];
            proof {
                assert(crate::syntree::node_links_ok(tree@, j as int));
                assert(tree@[c as int].end_byte <= tree@[j as int].end_byte);
                assert(kids.skip(jj as int)[0] == kids[jj as int]);
                assert(kids.skip(jj as int).drop_first() =~= kids.skip(jj + 1));
            }
            let ghost pb = p as nat;
            let ghost tb = table@;
            let ghost cb = children@;
            let ghost h = spec_scan(tree@, doc@, c as int, pb, tb);
            p = scan_into(tree, doc, c, p, children, table);
            proof {
                assert(crate::syntree::node_links_ok(tree@, j as int));
                if jj + 1 < m {
                    assert(tree@[kids[jj as int] as int].end_byte <= tree@[kids[jj + 1] as int].start_byte);
                }
                // the spec scan of the remaining children steps the same way
                assert(spec_scan_children(tree@, doc@, kids.skip(jj as int), j as int, pb, tb).0
                    == h.0 + spec_scan_children(
                    tree@,
                    doc@,
                    kids.skip(jj + 1),
                    j as int,
                    h.1,
                    h.2,
                ).0);
                assert(p as nat == h.1);
                assert(table@ == h.2);
                // the freshly appended children carry the scanned shapes
                assert(mirrors_all(cb.skip(c00.len() as int), vs));
                assert(cb.skip(c00.len() as int).len() == vs.len());
                assert(cb.len() == c00.len() + vs.len());
                assert(children@.len() == cb.len() + h.0.len());
                assert(children@.take(cb.len() as int) == cb);
                assert(children@.take(c00.len() as int) =~= c00);
                let tail = children@.skip(cb.len() as int);
                assert(mirrors_all(tail, h.0));
                assert(tail.len() == h.0.len());
                let suffix = children@.skip(c00.len() as int);
                assert(suffix.len() == vs.len() + h.0.len());
                assert forall|k: int| 0 <= k < suffix.len() implies mirrors(
                    #[trigger] suffix[k],
                    (vs + h.0)[k],
                ) by {
                    if k < vs.len() {
                        assert(suffix[k] == children@[c00.len() + k]);
                        assert(children@[c00.len() + k] == cb[c00.len() + k]) by {
                            assert(children@.take(cb.len() as int)[c00.len() + k] == cb[c00.len()
                                + k]);
                        }
                        assert(cb.skip(c00.len() as int)[k] == cb[c00.len() + k]);
                        assert(mirrors(cb.skip(c00.len() as int)[k], vs[k]));
                    } else {
                        assert(suffix[k] == tail[k - vs.len()]);
                        assert(mirrors(tail[k - vs.len()], h.0[k - vs.len()]));
                    }
                }
                vs = vs + h.0;
                assert(full.0 =~= vs + spec_scan_children(
                    tree@,
                    doc@,
                    kids.skip(jj + 1),
                    j as int,
                    p as nat,
                    table@,
                ).0);
            }
            jj += 1;
        }
        proof {
            assert(kids.skip(m as int) =~= Seq::<usize>::empty());
            assert(full.0 =~= vs);
        }
        p
    }
}

} // verus!
