use vstd::prelude::*;

verus! {

/// A declared symbol: a variable with its type description, or a function
/// with its return type and ordered parameter list.
pub enum Symbol {
    Variable { type_: String },
    Function { return_type: String, params: Vec<Symbol> },
}

/// The mathematical content of a symbol: its strings as character
/// sequences; a function's parameters by their type descriptions, in
/// order.
pub enum SymbolInfo {
    Variable { type_desc: Seq<char> },
    Function { return_type: Seq<char>, params: Seq<Seq<char>> },
}

/// The type descriptions of a parameter list; parameters are always
/// variables.
pub open spec fn param_type_views(ps: Seq<Symbol>) -> Seq<Seq<char>>
    decreases ps.len(),
{
    if ps.len() == 0 {
        Seq::empty()
    } else {
        let head = match ps[0] {
            Symbol::Variable { type_ } => type_@,
            Symbol::Function { .. } => Seq::empty(),
        };
        seq![head] + param_type_views(ps.drop_first())
    }
}

/// A symbol's mathematical content.
pub open spec fn symbol_info(s: Symbol) -> SymbolInfo {
    match s {
        Symbol::Variable { type_ } => SymbolInfo::Variable { type_desc: type_@ },
        Symbol::Function { return_type, params } => SymbolInfo::Function {
            return_type: return_type@,
            params: param_type_views(params@),
        },
    }
}

/// The view of the table's entries: name and content, in insertion order.
pub open spec fn entries_view(es: Seq<(Vec<char>, Symbol)>) -> Seq<(Seq<char>, SymbolInfo)>
    decreases es.len(),
{
    if es.len() == 0 {
        Seq::empty()
    } else {
        seq![(es[0].0@, symbol_info(es[0].1))] + entries_view(es.drop_first())
    }
}

/// Whether a name stands among entries.
pub open spec fn has_name(es: Seq<(Seq<char>, SymbolInfo)>, name: Seq<char>) -> bool {
    exists|j: int| 0 <= j < es.len() && (#[trigger] es[j]).0 == name
}

/// The first entry under a name.
pub open spec fn spec_lookup(es: Seq<(Seq<char>, SymbolInfo)>, name: Seq<char>) -> Option<
    SymbolInfo,
>
    decreases es.len(),
{
    if es.len() == 0 {
        None
    } else if es[0].0 == name {
        Some(es[0].1)
    } else {
        spec_lookup(es.drop_first(), name)
    }
}

/// The symbol table a declaration pass fills: names with their symbols,
/// each name held once, first declaration kept.
pub struct SymbolTable {
    entries: Vec<(Vec<char>, Symbol)>,
}

impl View for SymbolTable {
    type V = Seq<(Seq<char>, SymbolInfo)>;

    closed spec fn view(&self) -> Seq<(Seq<char>, SymbolInfo)> {
        entries_view(self.entries@)
    }
}

impl SymbolTable {
    /// An empty table.
    pub fn new() -> (r: SymbolTable)
        ensures
            r@ == Seq::<(Seq<char>, SymbolInfo)>::empty(),
    {
        let r = SymbolTable { entries: Vec::new() };
        proof {
            assert(r@ =~= Seq::<(Seq<char>, SymbolInfo)>::empty());
        }
        r
    }

    /// The number of entries.
    pub fn len(&self) -> (r: usize)
        ensures
            r == self@.len(),
    {
        proof {
            lemma_entries_view_len(self.entries@);
        }
        self.entries.len()
    }

    /// Whether the table holds a name.
    pub fn contains(&self, name: &Vec<char>) -> (r: bool)
        ensures
            r == has_name(self@, name@),
    {
        let n = self.entries.len();
        proof {
            lemma_entries_view_len(self.entries@);
        }
        let mut i: usize = 0;
        while i < n
            invariant
                i <= n,
                n == self.entries@.len(),
                self@.len() == n,
                forall|j: int| 0 <= j < n ==> (#[trigger] self@[j]) == (self.entries@[j].0@,
                    symbol_info(self.entries@[j].1)),
                forall|j: int| 0 <= j < i ==> (#[trigger] self@[j]).0 != name@,
            decreases n - i,
        {
            if crate::scope::chars_eq(&self.entries[i].0, name) {
                proof {
                    assert(self@[i as int].0 == name@);
                }
                return true;
            }
            i += 1;
        }
        false
    }

    /// The symbol under a name, where one stands.
    pub fn get(&self, name: &Vec<char>) -> (r: Option<&Symbol>)
        ensures
            match r {
                Option::Some(s) => spec_lookup(self@, name@) == Some(symbol_info(*s)),
                Option::None => spec_lookup(self@, name@) is None,
            },
    {
        let n = self.entries.len();
        proof {
            lemma_entries_view_len(self.entries@);
            assert(self@.skip(0) =~= self@);
        }
        let mut i: usize = 0;
        while i < n
            invariant
                i <= n,
                n == self.entries@.len(),
                self@.len() == n,
                forall|j: int| 0 <= j < n ==> (#[trigger] self@[j]) == (self.entries@[j].0@,
                    symbol_info(self.entries@[j].1)),
                spec_lookup(self@.skip(i as int), name@) == spec_lookup(self@, name@),
            decreases n - i,
        {
            proof {
                assert(self@.skip(i as int)[0] == self@[i as int]);
                assert(self@.skip(i as int).drop_first() =~= self@.skip(i + 1));
            }
            if crate::scope::chars_eq(&self.entries[i].0, name) {
                return Some(&self.entries[i].1);
            }
            i += 1;
        }
        proof {
            assert(self@.skip(n as int) =~= Seq::<(Seq<char>, SymbolInfo)>::empty());
        }
        None
    }

    /// Adds a symbol under a name at the end of the table.
    pub fn insert(&mut self, name: Vec<char>, sym: Symbol)
        ensures
            final(self)@ == old(self)@.push((name@, symbol_info(sym))),
    {
        proof {
            lemma_entries_view_push(self.entries@, (name, sym));
        }
        self.entries.push((name, sym));
    }
}

/// The entry view keeps length and elements aligned.
pub proof fn lemma_entries_view_len(es: Seq<(Vec<char>, Symbol)>)
    ensures
        entries_view(es).len() == es.len(),
        forall|j: int|
            0 <= j < es.len() ==> (#[trigger] entries_view(es)[j]) == (es[j].0@, symbol_info(
                es[j].1,
            )),
    decreases es.len(),
{
    if es.len() > 0 {
        lemma_entries_view_len(es.drop_first());
        assert forall|j: int|
            0 <= j < es.len() implies (#[trigger] entries_view(es)[j]) == (es[j].0@, symbol_info(
            es[j].1,
        )) by {
            if j > 0 {
                assert(entries_view(es)[j] == entries_view(es.drop_first())[j - 1]);
                assert(es.drop_first()[j - 1] == es[j]);
            }
        }
    }
}

/// Pushing an entry extends the view by its pair.
pub proof fn lemma_entries_view_push(es: Seq<(Vec<char>, Symbol)>, e: (Vec<char>, Symbol))
    ensures
        entries_view(es.push(e)) == entries_view(es).push((e.0@, symbol_info(e.1))),
{
    lemma_entries_view_len(es);
    lemma_entries_view_len(es.push(e));
    assert(entries_view(es.push(e)) =~= entries_view(es).push((e.0@, symbol_info(e.1))));
}

} // verus!
