use vstd::prelude::*;

use crate::doc::DocHandler;
use crate::line::str_chars;
use crate::scope::{
    spec_descendant, spec_doc_query_symbols, spec_node_text, sym_views, Symbol, SymbolKind,
};
use crate::syntree::{SynNode, SynTree};
use crate::text::DynText;
use crate::Point;

verus! {

pub uninterp spec fn lower_of(s: Seq<char>) -> Seq<char>;

/// Relies on str::to_lowercase: the result depends on the characters
/// alone.
#[verifier::external_body]
fn lower_str(s: &str) -> (r: String)
    ensures
        r@ == lower_of(s@),
{
    s.to_lowercase()
}

/// What a completion offers: a keyword of the language, or a visible
/// function or variable.
#[derive(Clone, Copy, Debug, PartialEq, Eq, Structural)]
pub enum CompletionKind {
    Keyword,
    Function,
    Variable,
}

/// One completion candidate.
#[derive(Clone, Debug, PartialEq, Eq)]
pub struct CompletionEntry {
    pub kind: CompletionKind,
    pub label: String,
}

/// The views of a completion list.
pub open spec fn entry_views(s: Seq<CompletionEntry>) -> Seq<(CompletionKind, Seq<char>)> {
    s.map_values(|x: CompletionEntry| (x.kind, x.label@))
}

/// The views of a keyword list.
pub open spec fn strs_views(s: Seq<String>) -> Seq<Seq<char>> {
    s.map_values(|x: String| x@)
}

/// The keywords whose spelling begins with the lowered token, in order.
pub open spec fn spec_keyword_matches(keywords: Seq<Seq<char>>, low: Seq<char>) -> Seq<
    (CompletionKind, Seq<char>),
>
    decreases keywords.len(),
{
    if keywords.len() == 0 {
        Seq::empty()
    } else {
        let rest = spec_keyword_matches(keywords.drop_first(), low);
        if low.is_prefix_of(keywords[0]) {
            seq![(CompletionKind::Keyword, keywords[0])] + rest
        } else {
            rest
        }
    }
}

/// The visible symbols whose lowered name begins with the lowered token,
/// in order, each as its completion kind.
pub open spec fn spec_symbol_matches(
    symbols: Seq<(SymbolKind, Seq<char>)>,
    low: Seq<char>,
) -> Seq<(CompletionKind, Seq<char>)>
    decreases symbols.len(),
{
    if symbols.len() == 0 {
        Seq::empty()
    } else {
        let rest = spec_symbol_matches(symbols.drop_first(), low);
        if low.is_prefix_of(lower_of(symbols[0].1)) {
            let k = if symbols[0].0 is Function {
                CompletionKind::Function
            } else {
                CompletionKind::Variable
            };
            seq![(k, symbols[0].1)] + rest
        } else {
            rest
        }
    }
}

/// All completion candidates for a token: matching keywords first, then
/// matching visible symbols, case-insensitively on the token.
pub open spec fn spec_completions(
    keywords: Seq<Seq<char>>,
    symbols: Seq<(SymbolKind, Seq<char>)>,
    token: Seq<char>,
) -> Seq<(CompletionKind, Seq<char>)> {
    spec_keyword_matches(keywords, lower_of(token)) + spec_symbol_matches(
        symbols,
        lower_of(token),
    )
}

/// Where completion looks and what it offers: the token under the
/// position one column back, matched against keywords and the symbols
/// visible there.
pub open spec fn spec_completion_handler(
    tree: Seq<SynNode>,
    lines: Seq<Seq<char>>,
    pos: Point,
    keywords: Seq<Seq<char>>,
) -> Seq<(CompletionKind, Seq<char>)> {
    let p = if pos.column > 0 {
        Point { row: pos.row, column: (pos.column - 1) as usize }
    } else {
        pos
    };
    match spec_descendant(tree, p, p) {
        Option::None => Seq::empty(),
        Option::Some(i) => match spec_node_text(tree, lines, i) {
            Option::None => Seq::empty(),
            Option::Some(t) => spec_completions(keywords, spec_doc_query_symbols(tree, lines, p),
                t),
        },
    }
}

/// Whether one character sequence begins with another.
fn begins_with(prefix: &Vec<char>, s: &Vec<char>) -> (r: bool)
    ensures
        r == prefix@.is_prefix_of(s@),
{
    let n = prefix.len();
    if n > s.len() {
        proof {
            assert(!prefix@.is_prefix_of(s@));
        }
        return false;
    }
    let mut i: usize = 0;
    while i < n
        invariant
            i <= n,
            n == prefix@.len(),
            n <= s@.len(),
            forall|j: int| 0 <= j < i ==> prefix@[j] == s@[j],
        decreases n - i,
    {
        if prefix[i] != s[i] {
            proof {
                assert(!prefix@.is_prefix_of(s@));
            }
            return false;
        }
        i += 1;
    }
    proof {
        assert(prefix@ =~= s@.subrange(0, n as int));
    }
    true
}

/// The lowered characters of a string.
fn lower_chars(s: &String) -> (r: Vec<char>)
    ensures
        r@ == lower_of(s@),
{
    let low = lower_str(s.as_str());
    str_chars(low.as_str())
}

/// Offers completions at a position: the keywords and the visible
/// symbols whose names begin, case-insensitively, with the token just
/// before the position.
#[verifier::rlimit(100)]
#[verifier::spinoff_prover]
pub fn completion_items(
    model: &SynTree,
    doc: &DynText,
    pos: Point,
    keywords: &Vec<String>,
) -> (r: Vec<CompletionEntry>)
    requires
        doc.wf(),
        pos.column < usize::MAX,
    ensures
        entry_views(r@) == spec_completion_handler(model@, doc@, pos, strs_views(keywords@)),
{
        let p = if pos.column > 0 {
            Point { row: pos.row, column: pos.column - 1 }
        } else {
            pos
        };
        let mut out: Vec<CompletionEntry> = Vec::new();
        proof {
            assert(entry_views(out@) =~= Seq::<(CompletionKind, Seq<char>)>::empty());
        }
        let i = match crate::scope::smallest_descendant(model, p, p) {
            Option::Some(i) => i,
            Option::None => {
                return out;
            },
        };
    let token = match crate::scope::node_text(model, doc, i) {
            Option::Some(v) => v,
            Option::None => {
                return out;
            },
        };
        let tstring = crate::line::chars_to_string(&token);
        let low = lower_chars(&tstring);
        let ghost lowv = lower_of(token@);
        proof {
            assert(low@ == lowv);
        }
        // keywords first
        let ghost kws = strs_views(keywords@);
        let kn = keywords.len();
        let mut ki: usize = 0;
        proof {
            assert(kws.skip(0) =~= kws);
        }
        while ki < kn
            invariant
                ki <= kn,
                kn == keywords@.len(),
                kws == strs_views(keywords@),
                kws.len() == kn,
                low@ == lowv,
                entry_views(out@) + spec_keyword_matches(kws.skip(ki as int), lowv)
                    == spec_keyword_matches(kws, lowv),
            decreases kn - ki,
        {
            proof {
                assert(kws.skip(ki as int)[0] == kws[ki as int]);
                assert(kws[ki as int] == keywords@[ki as int]@);
                assert(kws.skip(ki as int).drop_first() =~= kws.skip(ki + 1));
            }
            let kw = &keywords[ki];
            let kwchars = str_chars(kw.as_str());
            if begins_with(&low, &kwchars) {
                let ghost before = entry_views(out@);
                let label = kw.clone();
                out.push(CompletionEntry { kind: CompletionKind::Keyword, label });
                proof {
                    assert(entry_views(out@) =~= before + seq![
                        (CompletionKind::Keyword, kws[ki as int]),
                    ]);
                    assert(before + (seq![(CompletionKind::Keyword, kws[ki as int])]
                        + spec_keyword_matches(kws.skip(ki + 1), lowv)) =~= entry_views(out@)
                        + spec_keyword_matches(kws.skip(ki + 1), lowv));
                }
            }
            ki += 1;
        }
        proof {
            assert(kws.skip(kn as int) =~= Seq::<Seq<char>>::empty());
        }
        // then the visible symbols
    let symbols = crate::scope::visible_symbols(model, doc, p);
        let ghost svs = sym_views(symbols@);
        let sn = symbols.len();
        let mut symbols = symbols;
        let mut si: usize = 0;
        proof {
            assert(svs.skip(0) =~= svs);
            assert(svs.len() == sn);
        }
        while symbols.len() > 0
            invariant
                si + symbols@.len() == sn,
                svs.len() == sn,
                low@ == lowv,
                forall|j: int|
                    0 <= j < symbols@.len() ==> ((#[trigger] symbols@[j]).kind, symbols@[j].name@)
                        == svs[si + j],
                entry_views(out@) + spec_symbol_matches(svs.skip(si as int), lowv)
                    == spec_keyword_matches(kws, lowv) + spec_symbol_matches(svs, lowv),
            decreases symbols@.len(),
        {
            let x = symbols.remove(0);
            proof {
                assert((x.kind, x.name@) == svs[si as int]);
                assert(svs.skip(si as int)[0] == svs[si as int]);
                assert(svs.skip(si as int).drop_first() =~= svs.skip(si + 1));
            }
            let namelow = lower_chars(&x.name);
            if begins_with(&low, &namelow) {
                let kind = match x.kind {
                    SymbolKind::Function => CompletionKind::Function,
                    SymbolKind::Variable => CompletionKind::Variable,
                };
                let ghost before = entry_views(out@);
                out.push(CompletionEntry { kind, label: x.name });
                proof {
                    assert(entry_views(out@) =~= before + seq![(kind, svs[si as int].1)]);
                    assert(before + (seq![(kind, svs[si as int].1)] + spec_symbol_matches(
                        svs.skip(si + 1),
                        lowv,
                    )) =~= entry_views(out@) + spec_symbol_matches(svs.skip(si + 1), lowv));
                }
            }
            si += 1;
            proof {
                assert forall|j: int|
                    0 <= j < symbols@.len() implies ((#[trigger] symbols@[j]).kind,
                symbols@[j].name@) == svs[si + j] by {}
            }
        }
        proof {
            assert(svs.skip(sn as int) =~= Seq::<(SymbolKind, Seq<char>)>::empty());
            assert(entry_views(out@) =~= spec_keyword_matches(kws, lowv) + spec_symbol_matches(
                svs,
                lowv,
            ));
        }
        out
}

impl DocHandler {
    /// Offers completions at a position against this document's text.
    pub fn completion_handler(&self, model: &SynTree, pos: Point, keywords: &Vec<String>) -> (r:
        Vec<CompletionEntry>)
        requires
            self.wf(),
            pos.column < usize::MAX,
        ensures
            entry_views(r@) == spec_completion_handler(model@, self@, pos, strs_views(keywords@)),
    {
        completion_items(model, self.text(), pos, keywords)
    }
}

} // verus!
