use vstd::prelude::*;

use crate::scope::spec_node_text;
use crate::symtable::{has_name, Symbol, SymbolInfo, SymbolTable};
use crate::syntree::{links_ok, FieldTag, SynNode, SynTree};
use crate::syntree::NodeKind;
use crate::text::DynText;

verus! {

/// The first index in a child list whose node fills the given field.
pub open spec fn first_field_in(tree: Seq<SynNode>, kids: Seq<usize>, f: FieldTag) -> Option<
    int,
>
    decreases kids.len(),
{
    if kids.len() == 0 {
        None
    } else if tree[kids[0] as int].field == f {
        Some(kids[0] as int)
    } else {
        first_field_in(tree, kids.drop_first(), f)
    }
}

/// The text of a node's first child filling a field; empty when there is
/// no such child or its text cannot be read.
pub open spec fn field_text(tree: Seq<SynNode>, lines: Seq<Seq<char>>, i: int, f: FieldTag) -> Seq<
    char,
> {
    match first_field_in(tree, tree[i].children@, f) {
        Option::Some(c) => match spec_node_text(tree, lines, c) {
            Option::Some(t) => t,
            Option::None => Seq::empty(),
        },
        Option::None => Seq::empty(),
    }
}

/// A variable's type description: type, a space, and the array qualifier.
pub open spec fn var_desc(t: Seq<char>, q: Seq<char>) -> Seq<char> {
    t + seq![' '] + q
}

/// A constant's type description: the `const` marker ahead of the rest.
pub open spec fn const_desc(t: Seq<char>, q: Seq<char>) -> Seq<char> {
    seq!['c', 'o', 'n', 's', 't', ' '] + t + seq![' '] + q
}

/// What a run of definition children does to the table: each definition's
/// name enters with its description unless the name is already declared —
/// a duplicate never overrides the first declaration.
pub open spec fn spec_pass_defs(
    tree: Seq<SynNode>,
    lines: Seq<Seq<char>>,
    acc: Seq<(Seq<char>, SymbolInfo)>,
    kids: Seq<usize>,
    tname: Seq<char>,
    is_const: bool,
) -> Seq<(Seq<char>, SymbolInfo)>
    decreases kids.len(),
{
    if kids.len() == 0 {
        acc
    } else {
        let c = kids[0] as int;
        if tree[c].field == FieldTag::FieldDefs {
            let nm = field_text(tree, lines, c, FieldTag::FieldIdent);
            let q = field_text(tree, lines, c, FieldTag::FieldArrayQualifier);
            let desc = if is_const {
                const_desc(tname, q)
            } else {
                var_desc(tname, q)
            };
            let acc2 = if has_name(acc, nm) {
                acc
            } else {
                acc.push((nm, SymbolInfo::Variable { type_desc: desc }))
            };
            spec_pass_defs(tree, lines, acc2, kids.drop_first(), tname, is_const)
        } else {
            spec_pass_defs(tree, lines, acc, kids.drop_first(), tname, is_const)
        }
    }
}

/// The type descriptions of a function's parameter children, in order.
pub open spec fn spec_param_descs(tree: Seq<SynNode>, lines: Seq<Seq<char>>, kids: Seq<usize>) -> Seq<
    Seq<char>,
>
    decreases kids.len(),
{
    if kids.len() == 0 {
        Seq::empty()
    } else {
        let c = kids[0] as int;
        let rest = spec_param_descs(tree, lines, kids.drop_first());
        if tree[c].field == FieldTag::FieldParams {
            seq![
                var_desc(
                    field_text(tree, lines, c, FieldTag::FieldType),
                    field_text(tree, lines, c, FieldTag::FieldArrayQualifier),
                ),
            ] + rest
        } else {
            rest
        }
    }
}

/// What one node does to the symbol table: a declaration enters its
/// definitions, a function definition enters its name with return type
/// and parameters, anything else leaves the table as it is; a name
/// already declared is never overridden.
pub open spec fn spec_decl_pass(
    tree: Seq<SynNode>,
    lines: Seq<Seq<char>>,
    acc: Seq<(Seq<char>, SymbolInfo)>,
    i: int,
) -> Seq<(Seq<char>, SymbolInfo)> {
    let kids = tree[i].children@;
    if tree[i].kind == NodeKind::VarDecl {
        spec_pass_defs(tree, lines, acc, kids, field_text(tree, lines, i, FieldTag::FieldType),
            false)
    } else if tree[i].kind == NodeKind::ConstDecl {
        spec_pass_defs(tree, lines, acc, kids, field_text(tree, lines, i, FieldTag::FieldType),
            true)
    } else if tree[i].kind == NodeKind::FuncDef {
        let nm = field_text(tree, lines, i, FieldTag::FieldIdent);
        let rt = field_text(tree, lines, i, FieldTag::FieldType);
        if has_name(acc, nm) {
            acc
        } else {
            acc.push(
                (
                    nm,
                    SymbolInfo::Function {
                        return_type: rt,
                        params: spec_param_descs(tree, lines, kids),
                    },
                ),
            )
        }
    } else {
        acc
    }
}

/// Finds a node's first child filling a field.
#[verifier::rlimit(100)]
#[verifier::spinoff_prover]
fn field_child(tree: &SynTree, i: usize, f: FieldTag) -> (r: Option<usize>)
    requires
        i < tree@.len(),
    ensures
        crate::scope::opt_idx(r) == first_field_in(tree@, tree@[i as int].children@, f),
        r is Some ==> r->0 < tree@.len(),
{
    proof {
        use_type_invariant(tree);
    }
    let node = tree.node(i);
    let m = node.children.len();
    let ghost kids = node.children@;
    let mut j: usize = 0;
    proof {
        assert(kids.skip(0) =~= kids);
    }
    while j < m
        invariant
            j <= m,
            i < tree@.len(),
            links_ok(tree@),
            *node == tree@[i as int],
            kids == tree@[i as int].children@,
            m == kids.len(),
            first_field_in(tree@, kids.skip(j as int), f) == first_field_in(tree@, kids, f),
        decreases m - j,
    {
        let c = node.children[j];
        proof {
            assert(crate::syntree::node_links_ok(tree@, i as int));
            assert(kids.skip(j as int)[0] == kids[j as int]);
            assert(kids.skip(j as int).drop_first() =~= kids.skip(j + 1));
        }
        if tree.node(c).field == f {
            return Some(c);
        }
        j += 1;
    }
    proof {
        assert(kids.skip(m as int) =~= Seq::<usize>::empty());
    }
    None
}

/// Reads the text of a node's first child filling a field, or nothing.
fn field_chars(tree: &SynTree, doc: &DynText, i: usize, f: FieldTag) -> (r: Vec<char>)
    requires
        doc.wf(),
        i < tree@.len(),
    ensures
        r@ == field_text(tree@, doc@, i as int, f),
{
    match field_child(tree, i, f) {
        Option::Some(c) => {
            match crate::scope::node_text(tree, doc, c) {
                Option::Some(v) => v,
                Option::None => Vec::new(),
            }
        },
        Option::None => Vec::new(),
    }
}

/// Appends one vector's characters to another.
pub(crate) fn extend_chars(buf: &mut Vec<char>, tail: &Vec<char>)
    ensures
        final(buf)@ == old(buf)@ + tail@,
{
    let n = tail.len();
    let mut i: usize = 0;
    while i < n
        invariant
            i <= n,
            n == tail@.len(),
            buf@ == old(buf)@ + tail@.take(i as int),
        decreases n - i,
    {
        buf.push(tail[i]);
        proof {
            assert(buf@ =~= old(buf)@ + tail@.take(i + 1));
        }
        i += 1;
    }
    proof {
        assert(buf@ =~= old(buf)@ + tail@);
    }
}

/// Builds a variable description from type and qualifier.
fn build_var_desc(t: &Vec<char>, q: &Vec<char>) -> (r: Vec<char>)
    ensures
        r@ == var_desc(t@, q@),
{
    let mut buf: Vec<char> = Vec::new();
    extend_chars(&mut buf, t);
    buf.push(' ');
    extend_chars(&mut buf, q);
    proof {
        assert(buf@ =~= var_desc(t@, q@));
    }
    buf
}

/// Builds a constant description from type and qualifier.
fn build_const_desc(t: &Vec<char>, q: &Vec<char>) -> (r: Vec<char>)
    ensures
        r@ == const_desc(t@, q@),
{
    let mut buf: Vec<char> = Vec::new();
    buf.push('c');
    buf.push('o');
    buf.push('n');
    buf.push('s');
    buf.push('t');
    buf.push(' ');
    extend_chars(&mut buf, t);
    buf.push(' ');
    extend_chars(&mut buf, q);
    proof {
        assert(buf@ =~= const_desc(t@, q@));
    }
    buf
}

/// Enters one node's declarations into the symbol table, as the backward
/// walk's shared declaration reading does: definitions and functions by
/// name, first declaration kept, duplicates dropped.
#[verifier::rlimit(100)]
#[verifier::spinoff_prover]
pub fn symbol_decl_pass(table: &mut SymbolTable, tree: &SynTree, i: usize, doc: &DynText)
    requires
        doc.wf(),
        i < tree@.len(),
    ensures
        final(table)@ == spec_decl_pass(tree@, doc@, old(table)@, i as int),
{
    proof {
        use_type_invariant(tree);
    }
    let node = tree.node(i);
    let ghost kids = node.children@;
    if node.kind == NodeKind::VarDecl || node.kind == NodeKind::ConstDecl {
        let is_const = node.kind == NodeKind::ConstDecl;
        let tname = field_chars(tree, doc, i, FieldTag::FieldType);
        let m = node.children.len();
        let mut j: usize = 0;
        proof {
            assert(kids.skip(0) =~= kids);
        }
        while j < m
            invariant
                j <= m,
                doc.wf(),
                i < tree@.len(),
                links_ok(tree@),
                *node == tree@[i as int],
                kids == tree@[i as int].children@,
                m == kids.len(),
                tname@ == field_text(tree@, doc@, i as int, FieldTag::FieldType),
                spec_pass_defs(tree@, doc@, table@, kids.skip(j as int), tname@, is_const)
                    == spec_pass_defs(tree@, doc@, old(table)@, kids, tname@, is_const),
            decreases m - j,
        {
            let c = node.children[j];
            proof {
                assert(crate::syntree::node_links_ok(tree@, i as int));
                assert(kids.skip(j as int)[0] == kids[j as int]);
                assert(kids.skip(j as int).drop_first() =~= kids.skip(j + 1));
            }
            if tree.node(c).field == FieldTag::FieldDefs {
                let nm = field_chars(tree, doc, c, FieldTag::FieldIdent);
                let q = field_chars(tree, doc, c, FieldTag::FieldArrayQualifier);
                let desc = if is_const {
                    build_const_desc(&tname, &q)
                } else {
                    build_var_desc(&tname, &q)
                };
                if !table.contains(&nm) {
                    let ds = crate::line::chars_to_string(&desc);
                    table.insert(nm, Symbol::Variable { type_: ds });
                }
            }
            j += 1;
        }
        proof {
            assert(kids.skip(m as int) =~= Seq::<usize>::empty());
        }
    } else if node.kind == NodeKind::FuncDef {
        let nm = field_chars(tree, doc, i, FieldTag::FieldIdent);
        let rt = field_chars(tree, doc, i, FieldTag::FieldType);
        if table.contains(&nm) {
            return ;
        }
        let mut params: Vec<Symbol> = Vec::new();
        let m = node.children.len();
        let mut j: usize = 0;
        proof {
            assert(kids.skip(0) =~= kids);
            assert(crate::symtable::param_type_views(params@) =~= Seq::<Seq<char>>::empty());
        }
        while j < m
            invariant
                j <= m,
                doc.wf(),
                i < tree@.len(),
                links_ok(tree@),
                *node == tree@[i as int],
                kids == tree@[i as int].children@,
                m == kids.len(),
                crate::symtable::param_type_views(params@) + spec_param_descs(
                    tree@,
                    doc@,
                    kids.skip(j as int),
                ) == spec_param_descs(tree@, doc@, kids),
            decreases m - j,
        {
            let c = node.children[j];
            proof {
                assert(crate::syntree::node_links_ok(tree@, i as int));
                assert(kids.skip(j as int)[0] == kids[j as int]);
                assert(kids.skip(j as int).drop_first() =~= kids.skip(j + 1));
            }
            if tree.node(c).field == FieldTag::FieldParams {
                let pt = field_chars(tree, doc, c, FieldTag::FieldType);
                let pq = field_chars(tree, doc, c, FieldTag::FieldArrayQualifier);
                let desc = build_var_desc(&pt, &pq);
                let ghost before = crate::symtable::param_type_views(params@);
                let ghost p0 = params@;
                let ds = crate::line::chars_to_string(&desc);
                params.push(Symbol::Variable { type_: ds });
                proof {
                    assert(params@ =~= p0.push(params@.last()));
                    lemma_param_views_push(p0, params@.last());
                    assert(crate::symtable::param_type_views(params@) =~= before + seq![desc@]);
                    assert(before + (seq![desc@] + spec_param_descs(tree@, doc@, kids.skip(j + 1)))
                        =~= crate::symtable::param_type_views(params@) + spec_param_descs(
                        tree@,
                        doc@,
                        kids.skip(j + 1),
                    ));
                }
            }
            j += 1;
        }
        proof {
            assert(kids.skip(m as int) =~= Seq::<usize>::empty());
            assert(crate::symtable::param_type_views(params@) + spec_param_descs(
                tree@,
                doc@,
                kids.skip(m as int),
            ) =~= crate::symtable::param_type_views(params@));
        }
        let rs = crate::line::chars_to_string(&rt);
        table.insert(nm, Symbol::Function { return_type: rs, params });
    }
}

/// Pushing a parameter extends the type views by its description.
proof fn lemma_param_views_push(ps: Seq<Symbol>, p: Symbol)
    ensures
        crate::symtable::param_type_views(ps.push(p)) == crate::symtable::param_type_views(
            ps,
        ).push(
            match p {
                Symbol::Variable { type_ } => type_@,
                Symbol::Function { .. } => Seq::<char>::empty(),
            },
        ),
    decreases ps.len(),
{
    if ps.len() == 0 {
        assert(ps.push(p)[0] == p);
        assert(ps.push(p).drop_first() =~= Seq::<Symbol>::empty());
        assert(crate::symtable::param_type_views(Seq::<Symbol>::empty()) =~= Seq::<
            Seq<char>,
        >::empty());
        assert(crate::symtable::param_type_views(ps) =~= Seq::<Seq<char>>::empty());
        assert(crate::symtable::param_type_views(ps.push(p)) =~= crate::symtable::param_type_views(
            ps,
        ).push(
            match p {
                Symbol::Variable { type_ } => type_@,
                Symbol::Function { .. } => Seq::<char>::empty(),
            },
        ));
    } else {
        assert(ps.push(p).drop_first() =~= ps.drop_first().push(p));
        assert(ps.push(p)[0] == ps[0]);
        assert(ps.push(p).len() > 0);
        lemma_param_views_push(ps.drop_first(), p);
        assert(crate::symtable::param_type_views(ps.push(p)) == seq![
            match ps.push(p)[0] {
                Symbol::Variable { type_ } => type_@,
                Symbol::Function { .. } => Seq::<char>::empty(),
            },
        ] + crate::symtable::param_type_views(ps.push(p).drop_first()));
        assert(crate::symtable::param_type_views(ps.push(p)) =~= crate::symtable::param_type_views(
            ps,
        ).push(
            match p {
                Symbol::Variable { type_ } => type_@,
                Symbol::Function { .. } => Seq::<char>::empty(),
            },
        ));
    }
}

} // verus!
