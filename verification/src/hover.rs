use vstd::prelude::*;

use crate::doc::DocHandler;
use crate::line::{char_blen, char_utf8_len, str_blen};
use crate::scope::spec_doc_find_definition;
use crate::syntree::{SynNode, SynTree};
use crate::text::{spec_text_range, valid_range};
use crate::Point;

verus! {

/// The longest prefix whose bytes fit the budget.
pub open spec fn take_bytes(s: Seq<char>, budget: nat) -> Seq<char>
    decreases s.len(),
{
    if s.len() == 0 {
        s
    } else if char_blen(s[0]) <= budget {
        seq![s[0]] + take_bytes(s.drop_first(), (budget - char_blen(s[0])) as nat)
    } else {
        Seq::empty()
    }
}

/// A hover preview: the text itself, or its first two hundred bytes of
/// whole characters with an ellipsis when it runs longer.
pub open spec fn spec_clip(t: Seq<char>) -> Seq<char> {
    if str_blen(t) > 200 {
        take_bytes(t, 200) + seq!['.', '.', '.']
    } else {
        t
    }
}

/// What hover shows at a position: the clipped text of the definition the
/// position's identifier resolves to; nothing when there is none or its
/// range does not address the document.
pub open spec fn spec_hover(tree: Seq<SynNode>, lines: Seq<Seq<char>>, pos: Point) -> Option<
    Seq<char>,
> {
    match spec_doc_find_definition(tree, lines, pos) {
        Option::None => None,
        Option::Some(rg) => {
            if valid_range(lines, rg.start, rg.end) {
                Some(spec_clip(spec_text_range(lines, rg.start, rg.end)))
            } else {
                None
            }
        },
    }
}

/// Clips a text to its first two hundred bytes of whole characters,
/// appending an ellipsis where anything was dropped.
fn clip_chars(t: &Vec<char>) -> (r: Vec<char>)
    ensures
        r@ == spec_clip(t@),
{
    let blen = match crate::edit::text_blen(t) {
        Option::Some(b) => b,
        Option::None => usize::MAX,
    };
    if blen <= 200 {
        proof {
            assert(str_blen(t@) <= 200);
        }
        let mut out: Vec<char> = Vec::new();
        crate::semantic_pass::extend_chars(&mut out, t);
        proof {
            assert(out@ =~= t@);
        }
        return out;
    }
    proof {
        assert(str_blen(t@) > 200);
    }
    let mut out: Vec<char> = Vec::new();
    let mut budget: usize = 200;
    let mut i: usize = 0;
    let n = t.len();
    proof {
        assert(t@.skip(0) =~= t@);
        assert(out@ + take_bytes(t@.skip(0), 200nat) =~= take_bytes(t@, 200nat));
    }
    while i < n
        invariant
            i <= n,
            n == t@.len(),
            budget <= 200,
            str_blen(t@) > 200,
            out@.len() == i,
            out@ + take_bytes(t@.skip(i as int), budget as nat) == take_bytes(t@, 200nat),
        decreases n - i,
    {
        let c = t[i];
        let w = char_utf8_len(c);
        proof {
            assert(t@.skip(i as int)[0] == t@[i as int]);
            assert(t@.skip(i as int).drop_first() =~= t@.skip(i + 1));
        }
        if w > budget {
            proof {
                assert(take_bytes(t@.skip(i as int), budget as nat) =~= Seq::<char>::empty());
                assert(out@ + Seq::<char>::empty() =~= out@);
            }
            out.push('.');
            out.push('.');
            out.push('.');
            proof {
                assert(out@ =~= take_bytes(t@, 200nat) + seq!['.', '.', '.']);
            }
            return out;
        }
        let ghost before = out@;
        out.push(c);
        budget = budget - w;
        proof {
            assert(out@ =~= before + seq![c]);
            assert(before + (seq![c] + take_bytes(t@.skip(i + 1), budget as nat)) =~= out@
                + take_bytes(t@.skip(i + 1), budget as nat));
        }
        i += 1;
    }
    proof {
        assert(t@.skip(n as int) =~= Seq::<char>::empty());
        assert(take_bytes(Seq::<char>::empty(), budget as nat) =~= Seq::<char>::empty());
        assert(out@ + Seq::<char>::empty() =~= out@);
        assert(out@ == take_bytes(t@, 200nat));
        // the text runs past the budget, so the loop cannot have consumed
        // it whole
        lemma_take_bytes_blen(t@, 200nat);
        assert(take_bytes(t@, 200nat).len() < t@.len());
        assert(false);
    }
    out
}

/// A prefix that fits the budget costs at most the budget; a text that
/// costs more than the budget is never taken whole.
proof fn lemma_take_bytes_blen(s: Seq<char>, budget: nat)
    ensures
        str_blen(take_bytes(s, budget)) <= budget,
        str_blen(s) > budget ==> take_bytes(s, budget).len() < s.len(),
    decreases s.len(),
{
    crate::line::lemma_str_blen_concat(Seq::<char>::empty(), Seq::<char>::empty());
    assert(vstd::utf8::encode_utf8(Seq::<char>::empty()) =~= Seq::<u8>::empty());
    if s.len() == 0 {
    } else {
        crate::line::lemma_str_blen_first(s);
        if char_blen(s[0]) <= budget {
            lemma_take_bytes_blen(s.drop_first(), (budget - char_blen(s[0])) as nat);
            let rest = take_bytes(s.drop_first(), (budget - char_blen(s[0])) as nat);
            crate::line::lemma_str_blen_concat(seq![s[0]], rest);
            assert(str_blen(seq![s[0]]) == char_blen(s[0])) by {
                crate::line::lemma_str_blen_first(seq![s[0]]);
                assert(seq![s[0]].drop_first() =~= Seq::<char>::empty());
            }
        }
    }
}

/// Shows what the identifier under a position is defined as: the
/// definition's text, clipped to two hundred bytes with an ellipsis when
/// longer.
pub fn hover_text(model: &SynTree, doc: &crate::text::DynText, pos: Point) -> (r: Option<String>)
    requires
        doc.wf(),
        pos.column < usize::MAX,
    ensures
        match r {
            Option::Some(s) => spec_hover(model@, doc@, pos) == Some(s@),
            Option::None => spec_hover(model@, doc@, pos) is None,
        },
{
    let rg = match crate::scope::query_definition(model, doc, pos) {
        Option::Some(rg) => rg,
        Option::None => {
            return None;
        },
    };
    if !doc.range_valid(rg.start, rg.end) {
        return None;
    }
    let t = doc.text_range_chars(rg.start, rg.end);
    let clipped = clip_chars(&t);
    Some(crate::line::chars_to_string(&clipped))
}

impl DocHandler {
    /// Shows the hover preview against this document's text.
    pub fn hover_handler(&self, model: &SynTree, pos: Point) -> (r: Option<String>)
        requires
            self.wf(),
            pos.column < usize::MAX,
        ensures
            match r {
                Option::Some(s) => spec_hover(model@, self@, pos) == Some(s@),
                Option::None => spec_hover(model@, self@, pos) is None,
            },
    {
        hover_text(model, self.text(), pos)
    }
}

} // verus!
