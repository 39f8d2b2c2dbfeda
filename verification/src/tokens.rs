use vstd::prelude::*;

use crate::line::str_blen;
use crate::syntree::{links_ok, NodeKind, SynNode, SynTree};
use crate::text::DynText;
use crate::doc::DocHandler;
use crate::Point;

verus! {

/// One raw token before delta encoding: its position range and its index
/// into the published token-type legend.
#[derive(Clone, Copy, Debug, PartialEq, Eq, Structural)]
pub struct RawTok {
    pub start: Point,
    pub end: Point,
    pub ttype: u32,
}

/// One delta-encoded semantic token, relative to the token before it in
/// document order.
#[derive(Clone, Copy, Debug, PartialEq, Eq, Structural)]
pub struct SemToken {
    pub delta_line: u32,
    pub delta_start: u32,
    pub length: u32,
    pub token_type: u32,
    pub token_modifiers_bitset: u32,
}

/// The child of a node at a position, where it has one.
pub open spec fn child_at(tree: Seq<SynNode>, p: int, j: int) -> Option<int> {
    if 0 <= j < tree[p].children@.len() {
        Some(tree[p].children@[j] as int)
    } else {
        None
    }
}

/// The legend index of one node's kind: keyword, function, variable,
/// number, comment, operator or type; an identifier counts as a function
/// name when it is the second child of a function definition or the first
/// of a call.
pub open spec fn spec_token_type(tree: Seq<SynNode>, i: int) -> Option<u32> {
    let k = tree[i].kind;
    if k == NodeKind::KwIf || k == NodeKind::KwElse || k == NodeKind::KwWhile || k
        == NodeKind::KwBreak || k == NodeKind::KwContinue || k == NodeKind::KwReturn || k
        == NodeKind::KwConst {
        Some(0u32)
    } else if k == NodeKind::Ident {
        match tree[i].parent {
            Option::Some(p) => {
                let pi = p as int;
                if tree[pi].kind == NodeKind::FuncDef && child_at(tree, pi, 1) == Some(i) {
                    Some(1u32)
                } else if tree[pi].kind == NodeKind::FuncCall && child_at(tree, pi, 0) == Some(
                    i,
                ) {
                    Some(1u32)
                } else {
                    Some(2u32)
                }
            },
            Option::None => Some(2u32),
        }
    } else if k == NodeKind::Number {
        Some(3u32)
    } else if k == NodeKind::Comment {
        Some(4u32)
    } else if k == NodeKind::OpPlus || k == NodeKind::OpMinus || k == NodeKind::OpStar || k
        == NodeKind::OpSlash || k == NodeKind::OpPercent || k == NodeKind::OpAssign || k
        == NodeKind::OpEq || k == NodeKind::OpNe || k == NodeKind::OpLt || k == NodeKind::OpGt
        || k == NodeKind::OpLe || k == NodeKind::OpGe || k == NodeKind::OpAndAnd || k
        == NodeKind::OpOrOr || k == NodeKind::OpNot {
        Some(5u32)
    } else if k == NodeKind::TypeName {
        Some(6u32)
    } else {
        None
    }
}

/// The raw tokens of the subtree at node `i`, in pre-order.
pub open spec fn spec_collect_tokens(tree: Seq<SynNode>, i: int) -> Seq<RawTok>
    decreases tree.len() - i, tree[i].children@.len() + 1,
    when 0 <= i < tree.len() && links_ok(tree)
    via spec_collect_tokens_decreases
{
    let own = match spec_token_type(tree, i) {
        Option::Some(t) => seq![RawTok { start: tree[i].start, end: tree[i].end, ttype: t }],
        Option::None => Seq::empty(),
    };
    own + spec_collect_list(tree, i, tree[i].children@)
}

/// The raw tokens of a run of child subtrees, in order.
pub open spec fn spec_collect_list(tree: Seq<SynNode>, par: int, kids: Seq<usize>) -> Seq<
    RawTok,
>
    decreases tree.len() - par, kids.len(),
    when 0 <= par < tree.len() && links_ok(tree) && (forall|j: int|
        0 <= j < kids.len() ==> par < ((#[trigger] kids[j]) as int) && ((kids[j]) as int)
            < tree.len())
    via spec_collect_list_decreases
{
    if kids.len() == 0 {
        Seq::empty()
    } else {
        spec_collect_tokens(tree, kids[0] as int) + spec_collect_list(
            tree,
            par,
            kids.drop_first(),
        )
    }
}

#[via_fn]
proof fn spec_collect_tokens_decreases(tree: Seq<SynNode>, i: int) {
    assert(crate::syntree::node_links_ok(tree, i));
}

#[via_fn]
proof fn spec_collect_list_decreases(tree: Seq<SynNode>, par: int, kids: Seq<usize>) {
    if kids.len() > 0 {
        assert(crate::syntree::node_links_ok(tree, kids[0] as int));
        assert forall|j: int|
            0 <= j < kids.drop_first().len() implies par < ((#[trigger] kids.drop_first()[
            j]) as int) && ((kids.drop_first()[j]) as int) < tree.len() by {
            assert(kids.drop_first()[j] == kids[j + 1]);
        }
    }
}

/// Classifies one node.
#[verifier::rlimit(100)]
#[verifier::spinoff_prover]
fn token_type_of(tree: &SynTree, i: usize) -> (r: Option<u32>)
    requires
        i < tree@.len(),
    ensures
        r == spec_token_type(tree@, i as int),
{
    proof {
        use_type_invariant(tree);
        assert(crate::syntree::node_links_ok(tree@, i as int));
    }
    let node = tree.node(i);
    let k = node.kind;
    match k {
        NodeKind::KwIf | NodeKind::KwElse | NodeKind::KwWhile | NodeKind::KwBreak
            | NodeKind::KwContinue | NodeKind::KwReturn | NodeKind::KwConst => Some(0u32),
        NodeKind::Ident => {
            match node.parent {
                Option::Some(p) => {
                    proof {
                        assert(crate::syntree::node_links_ok(tree@, p as int));
                    }
                    let pn = tree.node(p);
                    if pn.kind == NodeKind::FuncDef && pn.children.len() > 1 && pn.children[1]
                        == i {
                        Some(1u32)
                    } else if pn.kind == NodeKind::FuncCall && pn.children.len() > 0
                        && pn.children[0] == i {
                        Some(1u32)
                    } else {
                        Some(2u32)
                    }
                },
                Option::None => Some(2u32),
            }
        },
        NodeKind::Number => Some(3u32),
        NodeKind::Comment => Some(4u32),
        NodeKind::OpPlus | NodeKind::OpMinus | NodeKind::OpStar | NodeKind::OpSlash
            | NodeKind::OpPercent | NodeKind::OpAssign | NodeKind::OpEq | NodeKind::OpNe
            | NodeKind::OpLt | NodeKind::OpGt | NodeKind::OpLe | NodeKind::OpGe
            | NodeKind::OpAndAnd | NodeKind::OpOrOr | NodeKind::OpNot => Some(5u32),
        NodeKind::TypeName => Some(6u32),
        _ => None,
    }
}

/// Walks the subtree at node `i` in pre-order, appending its raw tokens.
#[verifier::rlimit(100)]
#[verifier::spinoff_prover]
fn traverse_tree(tree: &SynTree, i: usize, out: &mut Vec<RawTok>)
    requires
        i < tree@.len(),
    ensures
        final(out)@ == old(out)@ + spec_collect_tokens(tree@, i as int),
    decreases tree@.len() - i,
{
    proof {
        use_type_invariant(tree);
        assert(crate::syntree::node_links_ok(tree@, i as int));
    }
    match token_type_of(tree, i) {
        Option::Some(t) => {
            let node = tree.node(i);
            out.push(RawTok { start: node.start, end: node.end, ttype: t });
        },
        Option::None => {},
    }
    let ghost own_done = out@;
    let node = tree.node(i);
    let ghost kids = node.children@;
    let m = node.children.len();
    let mut j: usize = 0;
    proof {
        assert(kids.skip(0) =~= kids);
    }
    while j < m
        invariant
            j <= m,
            i < tree@.len(),
            links_ok(tree@),
            *node == tree@[i as int],
            kids == tree@[i as int].children@,
            m == kids.len(),
            out@ + spec_collect_list(tree@, i as int, kids.skip(j as int)) == old(out)@
                + spec_collect_tokens(tree@, i as int),
        decreases m - j,
    {
        let c = node.children[j];
        proof {
            assert(crate::syntree::node_links_ok(tree@, i as int));
            assert(kids.skip(j as int)[0] == kids[j as int]);
            assert(kids.skip(j as int).drop_first() =~= kids.skip(j + 1));
        }
        let ghost before = out@;
        traverse_tree(tree, c, out);
        proof {
            assert((before + spec_collect_tokens(tree@, c as int)) + spec_collect_list(
                tree@,
                i as int,
                kids.skip(j + 1),
            ) =~= before + (spec_collect_tokens(tree@, c as int) + spec_collect_list(
                tree@,
                i as int,
                kids.skip(j + 1),
            )));
        }
        j += 1;
    }
    proof {
        assert(kids.skip(m as int) =~= Seq::<usize>::empty());
        assert(out@ + spec_collect_list(tree@, i as int, kids.skip(m as int)) =~= out@);
    }
}

/// Whether one raw token may follow the previous one: its positions fit
/// the wire word, come no earlier than the previous token, and its rows
/// and columns address the document where line lengths are needed.
pub open spec fn tok_ok(
    lines: Seq<Seq<char>>,
    t: RawTok,
    prev_line: nat,
    prev_start: nat,
) -> bool {
    let sr = t.start.row as nat;
    let sc = t.start.column as nat;
    let er = t.end.row as nat;
    let ec = t.end.column as nat;
    &&& sr <= u32::MAX as nat
    &&& sc <= u32::MAX as nat
    &&& ec <= u32::MAX as nat
    &&& sr >= prev_line
    &&& (sr == prev_line ==> sc >= prev_start)
    &&& if sr == er {
        ec >= sc
    } else {
        &&& sr < er
        &&& er <= lines.len()
        &&& sr < lines.len()
        &&& str_blen(lines[sr as int]) >= sc
        &&& str_blen(lines[sr as int]) - sc <= u32::MAX as nat
        &&& forall|k: int| sr < k < er ==> str_blen(#[trigger] lines[k]) <= u32::MAX as nat
    }
}

/// The encoded tokens one raw token becomes: one entry on a single row;
/// across rows, one entry per covered row, the first to the row's end,
/// the middle ones whole rows, the last up to the end column.
pub open spec fn tok_emit(
    lines: Seq<Seq<char>>,
    t: RawTok,
    prev_line: nat,
    prev_start: nat,
) -> Seq<SemToken> {
    let sr = t.start.row as nat;
    let sc = t.start.column as nat;
    let er = t.end.row as nat;
    let ec = t.end.column as nat;
    let dl = (sr - prev_line) as u32;
    let ds = if sr == prev_line {
        (sc - prev_start) as u32
    } else {
        sc as u32
    };
    if sr == er {
        seq![
            SemToken {
                delta_line: dl,
                delta_start: ds,
                length: (ec - sc) as u32,
                token_type: t.ttype,
                token_modifiers_bitset: 0,
            },
        ]
    } else {
        seq![
            SemToken {
                delta_line: dl,
                delta_start: ds,
                length: (str_blen(lines[sr as int]) - sc) as u32,
                token_type: t.ttype,
                token_modifiers_bitset: 0,
            },
        ] + Seq::new(
            (er - sr - 1) as nat,
            |k: int|
                SemToken {
                    delta_line: 1,
                    delta_start: 0,
                    length: str_blen(lines[sr + 1 + k]) as u32,
                    token_type: t.ttype,
                    token_modifiers_bitset: 0,
                },
        ) + seq![
            SemToken {
                delta_line: 1,
                delta_start: 0,
                length: ec as u32,
                token_type: t.ttype,
                token_modifiers_bitset: 0,
            },
        ]
    }
}

/// The previous-token position after one raw token: its start on a single
/// row, else the start of its last row.
pub open spec fn tok_next_prev(t: RawTok) -> (nat, nat) {
    if t.start.row == t.end.row {
        (t.start.row as nat, t.start.column as nat)
    } else {
        (t.end.row as nat, 0nat)
    }
}

/// Prepends already-encoded tokens to an encoding outcome.
pub open spec fn opt_prepend(s: Seq<SemToken>, o: Option<Seq<SemToken>>) -> Option<
    Seq<SemToken>,
> {
    match o {
        Option::Some(r) => Some(s + r),
        Option::None => None,
    }
}

/// Delta-encodes the raw tokens from position `i` on, given the previous
/// token position; nothing as soon as one token violates its conditions.
pub open spec fn spec_encode(
    lines: Seq<Seq<char>>,
    toks: Seq<RawTok>,
    i: int,
    prev_line: nat,
    prev_start: nat,
) -> Option<Seq<SemToken>>
    decreases toks.len() - i,
    when 0 <= i
{
    if i >= toks.len() {
        Some(Seq::empty())
    } else {
        let t = toks[i];
        if !tok_ok(lines, t, prev_line, prev_start) {
            None
        } else {
            opt_prepend(
                tok_emit(lines, t, prev_line, prev_start),
                spec_encode(lines, toks, i + 1, tok_next_prev(t).0, tok_next_prev(t).1),
            )
        }
    }
}

/// The semantic tokens of a whole document: the pre-order raw tokens of
/// the tree, delta-encoded from the document start; nothing when the tree
/// and text disagree.
pub open spec fn spec_semantic_tokens(tree: Seq<SynNode>, lines: Seq<Seq<char>>) -> Option<
    Seq<SemToken>,
> {
    spec_encode(lines, spec_collect_tokens(tree, 0), 0, 0, 0)
}

/// Delta-encodes collected raw tokens against the document.
#[verifier::rlimit(100)]
#[verifier::spinoff_prover]
#[verifier::loop_isolation(false)]
fn encode_tokens(doc: &DynText, toks: &Vec<RawTok>) -> (r: Option<Vec<SemToken>>)
    requires
        doc.wf(),
    ensures
        match r {
            Option::Some(v) => spec_encode(doc@, toks@, 0, 0, 0) == Some(v@),
            Option::None => spec_encode(doc@, toks@, 0, 0, 0) is None,
        },
{
    let ghost lines = doc@;
    let n = toks.len();
    let mut out: Vec<SemToken> = Vec::new();
    let mut prev_line: usize = 0;
    let mut prev_start: usize = 0;
    let mut i: usize = 0;
    let line_count = doc.line_count();
    proof {
        assert(out@ =~= Seq::<SemToken>::empty());
    }
    while i < n
        invariant
            i <= n,
            n == toks@.len(),
            doc.wf(),
            lines == doc@,
            line_count == lines.len(),
            spec_encode(lines, toks@, 0, 0, 0) == opt_prepend(
                out@,
                spec_encode(lines, toks@, i as int, prev_line as nat, prev_start as nat),
            ),
        decreases n - i,
    {
        let t = toks[i];
        let sr = t.start.row;
        let sc = t.start.column;
        let er = t.end.row;
        let ec = t.end.column;
        let u32max: usize = u32::MAX as usize;
        if sr > u32max || sc > u32max || ec > u32max {
            return None;
        }
        if sr < prev_line || (sr == prev_line && sc < prev_start) {
            return None;
        }
        let dl = (sr - prev_line) as u32;
        let ds = if sr == prev_line {
            (sc - prev_start) as u32
        } else {
            sc as u32
        };
        let ghost emitted = tok_emit(lines, t, prev_line as nat, prev_start as nat);
        let ghost out_before = out@;
        if sr == er {
            if ec < sc {
                return None;
            }
            out.push(
                SemToken {
                    delta_line: dl,
                    delta_start: ds,
                    length: (ec - sc) as u32,
                    token_type: t.ttype,
                    token_modifiers_bitset: 0,
                },
            );
            prev_line = sr;
            prev_start = sc;
            proof {
                assert(out@ =~= out_before + emitted);
            }
        } else {
            if !(sr < er && er <= line_count) {
                return None;
            }
            let first_len = doc.line_byte_len(sr);
            if first_len < sc {
                return None;
            }
            if first_len - sc > u32max {
                return None;
            }
            out.push(
                SemToken {
                    delta_line: dl,
                    delta_start: ds,
                    length: (first_len - sc) as u32,
                    token_type: t.ttype,
                    token_modifiers_bitset: 0,
                },
            );
            let ghost mids = Seq::new(
                (er - sr - 1) as nat,
                |k: int|
                    SemToken {
                        delta_line: 1,
                        delta_start: 0,
                        length: str_blen(lines[sr + 1 + k]) as u32,
                        token_type: t.ttype,
                        token_modifiers_bitset: 0,
                    },
            );
            let mut row = sr + 1;
            while row < er
                invariant
                    sr < row <= er,
                    er <= lines.len(),
                    doc.wf(),
                    lines == doc@,
                    mids.len() == er - sr - 1,
                    forall|k: int|
                        0 <= k < mids.len() ==> #[trigger] mids[k] == (SemToken {
                            delta_line: 1,
                            delta_start: 0,
                            length: str_blen(lines[sr + 1 + k]) as u32,
                            token_type: t.ttype,
                            token_modifiers_bitset: 0,
                        }),
                    out@ == out_before + emitted.take(1) + mids.take(row - sr - 1),
                    forall|k: int| sr < k < row ==> str_blen(#[trigger] lines[k]) <= u32::MAX
                        as nat,
                    emitted == tok_emit(lines, t, prev_line as nat, prev_start as nat),
                    tok_emit(lines, t, prev_line as nat, prev_start as nat) == emitted,
                decreases er - row,
            {
                let blen = doc.line_byte_len(row);
                if blen > u32max {
                    proof {
                        assert(blen as nat == str_blen(lines[row as int]));
                        assert(u32max as nat == u32::MAX as nat);
                        assert(str_blen(lines[row as int]) > u32::MAX as nat);
                        assert(sr < row < er);
                        assert(!tok_ok(lines, t, prev_line as nat, prev_start as nat));
                    }
                    return None;
                }
                out.push(
                    SemToken {
                        delta_line: 1,
                        delta_start: 0,
                        length: blen as u32,
                        token_type: t.ttype,
                        token_modifiers_bitset: 0,
                    },
                );
                proof {
                    assert(mids[row - sr - 1].length == blen as u32);
                    assert(out@ =~= out_before + emitted.take(1) + mids.take(row - sr));
                    assert(str_blen(lines[row as int]) <= u32::MAX as nat);
                }
                row += 1;
            }
            out.push(
                SemToken {
                    delta_line: 1,
                    delta_start: 0,
                    length: ec as u32,
                    token_type: t.ttype,
                    token_modifiers_bitset: 0,
                },
            );
            prev_line = er;
            prev_start = 0;
            proof {
                assert(mids.take(er - sr - 1) =~= mids);
                assert(emitted.take(1) =~= seq![emitted[0]]);
                assert(out@ =~= out_before + emitted);
            }
        }
        i += 1;
        proof {
            assert(opt_prepend(out_before, opt_prepend(emitted, spec_encode(lines, toks@,
                i as int, prev_line as nat, prev_start as nat))) == opt_prepend(out@, spec_encode(
                lines,
                toks@,
                i as int,
                prev_line as nat,
                prev_start as nat,
            ))) by {
                match spec_encode(lines, toks@, i as int, prev_line as nat, prev_start as nat) {
                    Option::Some(rest) => {
                        assert((out_before + (emitted + rest)) =~= (out@ + rest));
                    },
                    Option::None => {},
                }
            }
        }
    }
    proof {
        assert(spec_encode(lines, toks@, n as int, prev_line as nat, prev_start as nat) == Some(
            Seq::<SemToken>::empty(),
        ));
        assert(out@ + Seq::<SemToken>::empty() =~= out@);
    }
    Some(out)
}

/// The document's semantic tokens: every classified node of the tree in
/// pre-order, delta-encoded relative to its predecessor, tokens crossing
/// rows split into one entry per covered row; nothing when the tree's
/// positions and the text disagree.
pub fn semantic_tokens(model: &SynTree, doc: &DynText) -> (r: Option<Vec<SemToken>>)
    requires
        doc.wf(),
    ensures
        match r {
            Option::Some(v) => spec_semantic_tokens(model@, doc@) == Some(v@),
            Option::None => spec_semantic_tokens(model@, doc@) is None,
        },
{
    proof {
        use_type_invariant(model);
    }
    let mut raw: Vec<RawTok> = Vec::new();
    proof {
        assert(raw@ =~= Seq::<RawTok>::empty());
    }
    traverse_tree(model, 0, &mut raw);
    proof {
        assert(raw@ =~= spec_collect_tokens(model@, 0));
    }
    encode_tokens(doc, &raw)
}

impl DocHandler {
    /// The document's semantic tokens, against this document's text.
    pub fn get_semantic_tokens(&self, model: &SynTree) -> (r: Option<Vec<SemToken>>)
        requires
            self.wf(),
        ensures
            match r {
                Option::Some(v) => spec_semantic_tokens(model@, self@) == Some(v@),
                Option::None => spec_semantic_tokens(model@, self@) is None,
            },
    {
        semantic_tokens(model, self.text())
    }
}

} // verus!
