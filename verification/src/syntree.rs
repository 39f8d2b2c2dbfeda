use vstd::prelude::*;

use crate::Point;

verus! {

/// The node kinds the analysis reads from the external grammar; every
/// other kind collapses to `Other`.
#[derive(Clone, Copy, Debug, PartialEq, Eq, Structural)]
pub enum NodeKind {
    SourceFile,
    Block,
    VarDecl,
    ConstDecl,
    FuncDef,
    FuncCall,
    Ident,
    Number,
    Comment,
    TypeName,
    KwIf,
    KwElse,
    KwWhile,
    KwBreak,
    KwContinue,
    KwReturn,
    KwConst,
    OpPlus,
    OpMinus,
    OpStar,
    OpSlash,
    OpPercent,
    OpAssign,
    OpEq,
    OpNe,
    OpLt,
    OpGt,
    OpLe,
    OpGe,
    OpAndAnd,
    OpOrOr,
    OpNot,
    Other,
}

/// The grammar field a node fills in its parent, where the analysis
/// reads one.
#[derive(Clone, Copy, Debug, PartialEq, Eq, Structural)]
pub enum FieldTag {
    NoField,
    FieldIdent,
    FieldDefs,
    FieldParams,
    FieldType,
    FieldArrayQualifier,
}

/// One node of the modeled syntax tree, in pre-order position: parents
/// and earlier siblings have smaller indices, children larger ones.
pub struct SynNode {
    pub kind: NodeKind,
    pub start: Point,
    pub end: Point,
    pub start_byte: usize,
    pub end_byte: usize,
    pub parent: Option<usize>,
    pub prev_named_sibling: Option<usize>,
    pub children: Vec<usize>,
    pub field: FieldTag,
}

/// The link conditions one node must satisfy: its parent and previous
/// sibling stand before it, its children after it, listed in order, with
/// byte ranges nested in its own and not overlapping.
pub open spec fn node_links_ok(nodes: Seq<SynNode>, i: int) -> bool {
    &&& match nodes[i].parent {
        Option::Some(p) => (p as int) < i,
        Option::None => true,
    }
    &&& match nodes[i].prev_named_sibling {
        Option::Some(p) => (p as int) < i,
        Option::None => true,
    }
    &&& nodes[i].start_byte <= nodes[i].end_byte
    &&& forall|j: int|
        0 <= j < nodes[i].children@.len() ==> i < ((#[trigger] nodes[i].children@[j]) as int)
            && ((nodes[i].children@[j]) as int) < nodes.len()
    &&& forall|j: int|
        0 <= j < nodes[i].children@.len() ==> nodes[i].start_byte <= nodes[(
        #[trigger] nodes[i].children@[j]) as int].start_byte && nodes[nodes[i].children@[
            j] as int].end_byte <= nodes[i].end_byte
    &&& forall|j: int|
        0 < j < nodes[i].children@.len() ==> (nodes[i].children@[j - 1] as int) < ((
        #[trigger] nodes[i].children@[j]) as int) && nodes[nodes[i].children@[j - 1] as int].end_byte
            <= nodes[nodes[i].children@[j] as int].start_byte
}

/// The link conditions that make a node sequence a pre-order tree.
pub open spec fn links_ok(nodes: Seq<SynNode>) -> bool {
    &&& nodes.len() >= 1
    &&& nodes[0].parent is None
    &&& forall|i: int| 0 <= i < nodes.len() ==> #[trigger] node_links_ok(nodes, i)
}

/// The modeled syntax tree: an indexed arena of nodes whose links always
/// satisfy the pre-order conditions.
pub struct SynTree {
    nodes: Vec<SynNode>,
}

impl View for SynTree {
    type V = Seq<SynNode>;

    closed spec fn view(&self) -> Seq<SynNode> {
        self.nodes@
    }
}

/// Checks the link conditions of one node.
#[verifier::rlimit(100)]
#[verifier::spinoff_prover]
fn check_node(nodes: &Vec<SynNode>, i: usize) -> (r: bool)
    requires
        i < nodes@.len(),
    ensures
        r == node_links_ok(nodes@, i as int),
{
    let node = &nodes[i];
    match node.parent {
        Option::Some(p) => {
            if p >= i {
                return false;
            }
        },
        Option::None => {},
    }
    match node.prev_named_sibling {
        Option::Some(p) => {
            if p >= i {
                return false;
            }
        },
        Option::None => {},
    }
    if node.start_byte > node.end_byte {
        return false;
    }
    let n = nodes.len();
    let m = node.children.len();
    let mut j: usize = 0;
    while j < m
        invariant
            j <= m,
            i < n,
            n == nodes@.len(),
            m == nodes@[i as int].children@.len(),
            forall|t: int|
                0 <= t < j ==> (i as int) < ((#[trigger] nodes@[i as int].children@[t]) as int)
                    && ((nodes@[i as int].children@[t]) as int) < nodes@.len(),
            forall|t: int|
                0 <= t < j ==> nodes@[i as int].start_byte <= nodes@[(
                #[trigger] nodes@[i as int].children@[t]) as int].start_byte && nodes@[nodes@[
                    i as int].children@[t] as int].end_byte <= nodes@[i as int].end_byte,
            forall|t: int|
                0 < t < j ==> (nodes@[i as int].children@[t - 1] as int) < ((
                #[trigger] nodes@[i as int].children@[t]) as int) && nodes@[nodes@[
                    i as int].children@[t - 1] as int].end_byte <= nodes@[nodes@[
                    i as int].children@[t] as int].start_byte,
        decreases m - j,
    {
        let c = nodes[i].children[j];
        if c <= i || c >= n {
            return false;
        }
        if nodes[i].start_byte > nodes[c].start_byte || nodes[c].end_byte > nodes[i].end_byte {
            return false;
        }
        if j > 0 {
            let prev = nodes[i].children[j - 1];
            if prev >= c {
                return false;
            }
            if nodes[prev].end_byte > nodes[c].start_byte {
                return false;
            }
        }
        j += 1;
    }
    true
}

impl SynTree {
    /// The tree's invariant.
    #[verifier::type_invariant]
    pub open spec fn inv(self) -> bool {
        links_ok(self@)
    }

    /// Checks the link conditions and wraps the nodes as a tree; nothing
    /// when any condition fails.
    pub fn from_nodes(nodes: Vec<SynNode>) -> (r: Option<SynTree>)
        ensures
            match r {
                Option::Some(t) => t@ == nodes@ && links_ok(nodes@),
                Option::None => !links_ok(nodes@),
            },
    {
        if nodes.len() == 0 {
            return None;
        }
        if nodes[0].parent.is_some() {
            return None;
        }
        let n = nodes.len();
        let mut i: usize = 0;
        while i < n
            invariant
                i <= n,
                n == nodes@.len(),
                nodes@.len() >= 1,
                nodes@[0].parent is None,
                forall|k: int| 0 <= k < i ==> #[trigger] node_links_ok(nodes@, k),
            decreases n - i,
        {
            if !check_node(&nodes, i) {
                return None;
            }
            i += 1;
        }
        Some(SynTree { nodes })
    }

    /// The number of nodes.
    pub fn node_count(&self) -> (r: usize)
        ensures
            r == self@.len(),
    {
        proof {
            use_type_invariant(self);
        }
        self.nodes.len()
    }

    /// Borrows one node.
    pub fn node(&self, i: usize) -> (r: &SynNode)
        requires
            i < self@.len(),
        ensures
            *r == self@[i as int],
    {
        proof {
            use_type_invariant(self);
        }
        &self.nodes[i]
    }

}

} // verus!
