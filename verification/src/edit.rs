use vstd::prelude::*;

use crate::line::{
    char_blen, char_utf8_len, lemma_char_blen_bounds, lemma_split_relines_blen,
    lemma_str_blen_concat, lemma_str_blen_take, lemma_take_skip_bound, lemma_total_blen_concat,
    lemma_total_blen_row, lemma_two_rows_bound, line_ok, split_relines, str_blen, str_chars,
    total_blen,
};
use crate::text::{
    edited_text, lemma_count_le_blen, spec_apply, spec_byte_offset, valid_edit, DynText,
};
use crate::Point;

verus! {

/// One text edit, described before the document mutates: the old range's
/// start and end with their byte offsets, and where the replacement text
/// will end.
#[derive(Clone, Copy, Debug, PartialEq, Eq, Structural)]
pub struct EditDescriptor {
    pub start_byte: usize,
    pub old_end_byte: usize,
    pub new_end_byte: usize,
    pub start_position: Point,
    pub old_end_position: Point,
    pub new_end_position: Point,
}

/// How many newlines a replacement text holds.
pub open spec fn nl_count(s: Seq<char>) -> nat
    decreases s.len(),
{
    if s.len() == 0 {
        0
    } else {
        nl_count(s.drop_last()) + if s[s.len() - 1] == '\n' {
            1nat
        } else {
            0nat
        }
    }
}

/// The characters after the last newline; the whole text when it has none.
pub open spec fn tail_after_nl(s: Seq<char>) -> Seq<char>
    decreases s.len(),
{
    if s.len() == 0 {
        s
    } else if s[s.len() - 1] == '\n' {
        Seq::empty()
    } else {
        tail_after_nl(s.drop_last()).push(s[s.len() - 1])
    }
}

/// Where a replacement text ends when written at a start position: on the
/// same row moved right when it has no newline, else as many rows down as
/// it has newlines, at the column after its last newline.
pub open spec fn spec_new_end(start: Point, t: Seq<char>) -> Point {
    if nl_count(t) == 0 {
        Point { row: start.row, column: (start.column + t.len()) as usize }
    } else {
        Point { row: (start.row + nl_count(t)) as usize, column: tail_after_nl(t).len() as usize }
    }
}

/// The suffix after a newline at `j - 1` (or after nothing, when `j` is 0)
/// with no later newline is exactly the tail after the last newline.
proof fn lemma_tail_after(s: Seq<char>, j: int)
    requires
        0 <= j <= s.len(),
        j == 0 || s[j - 1] == '\n',
        forall|k: int| j <= k < s.len() ==> s[k] != '\n',
    ensures
        tail_after_nl(s) == s.skip(j),
    decreases s.len(),
{
    if s.len() == j {
        if j == 0 {
            assert(tail_after_nl(s) =~= s.skip(0));
        } else {
            assert(s[s.len() - 1] == '\n');
            assert(tail_after_nl(s) =~= s.skip(j));
        }
    } else {
        assert(s[s.len() - 1] != '\n');
        let d = s.drop_last();
        assert forall|k: int| j <= k < d.len() implies d[k] != '\n' by {
            assert(d[k] == s[k]);
        }
        if j > 0 {
            assert(d[j - 1] == s[j - 1]);
        }
        lemma_tail_after(d, j);
        assert(tail_after_nl(s) =~= s.skip(j));
    }
}

/// A character sequence has at least as many bytes as characters.
pub proof fn lemma_len_le_blen(s: Seq<char>)
    ensures
        s.len() <= str_blen(s),
    decreases s.len(),
{
    if s.len() > 0 {
        crate::line::lemma_str_blen_first(s);
        lemma_char_blen_bounds(s[0]);
        lemma_len_le_blen(s.drop_first());
    }
}

/// Counts the newlines in a replacement text.
fn count_newlines(v: &Vec<char>) -> (r: usize)
    ensures
        r as nat == nl_count(v@),
{
    let mut i: usize = 0;
    let mut count: usize = 0;
    proof {
        assert(v@.take(0) =~= Seq::<char>::empty());
    }
    while i < v.len()
        invariant
            i <= v@.len(),
            count as nat == nl_count(v@.take(i as int)),
            count <= i,
        decreases v@.len() - i,
    {
        proof {
            assert(v@.take(i + 1).drop_last() =~= v@.take(i as int));
            assert(v@.take(i + 1)[v@.take(i + 1).len() - 1] == v@[i as int]);
        }
        if v[i] == '\n' {
            count += 1;
        }
        i += 1;
    }
    proof {
        assert(v@.take(v@.len() as int) =~= v@);
    }
    count
}

/// The number of characters after the last newline of a replacement text.
fn tail_len(v: &Vec<char>) -> (r: usize)
    ensures
        r as nat == tail_after_nl(v@).len(),
{
    let mut j: usize = v.len();
    while j > 0 && v[j - 1] != '\n'
        invariant
            j <= v@.len(),
            forall|k: int| j <= k < v@.len() ==> v@[k] != '\n',
        decreases j,
    {
        j -= 1;
    }
    proof {
        lemma_tail_after(v@, j as int);
    }
    v.len() - j
}

/// The byte length of a replacement text, or nothing when it would not
/// fit the machine word.
pub fn text_blen(v: &Vec<char>) -> (r: Option<usize>)
    ensures
        match r {
            Option::Some(n) => n as nat == str_blen(v@),
            Option::None => str_blen(v@) > usize::MAX,
        },
{
    let mut i: usize = 0;
    let mut acc: usize = 0;
    proof {
        assert(v@.take(0) =~= Seq::<char>::empty());
        assert(vstd::utf8::encode_utf8(Seq::<char>::empty()) =~= Seq::<u8>::empty());
    }
    while i < v.len()
        invariant
            i <= v@.len(),
            acc as nat == str_blen(v@.take(i as int)),
        decreases v@.len() - i,
    {
        let c = v[i];
        let w = char_utf8_len(c);
        proof {
            assert(v@.take(i + 1) =~= v@.take(i as int) + seq![c]);
            lemma_str_blen_concat(v@.take(i as int), seq![c]);
            assert(str_blen(seq![c]) == char_blen(c)) by {
                crate::line::lemma_str_blen_first(seq![c]);
                assert(seq![c].drop_first() =~= Seq::<char>::empty());
                assert(vstd::utf8::encode_utf8(Seq::<char>::empty()) =~= Seq::<u8>::empty());
            }
        }
        if acc > usize::MAX - w {
            proof {
                lemma_str_blen_take(v@, i + 1);
            }
            return None;
        }
        acc = acc + w;
        i += 1;
    }
    proof {
        assert(v@.take(v@.len() as int) =~= v@);
    }
    Some(acc)
}

/// A change the synchronizer accepts: positions that address characters,
/// in order, and a coarse size bound under which every derived quantity
/// fits the machine word.
pub open spec fn spec_change_acceptable(
    lines: Seq<Seq<char>>,
    s: Point,
    e: Point,
    t: Seq<char>,
) -> bool {
    &&& valid_edit(lines, s, e)
    &&& 2 * total_blen(lines) + str_blen(t) + 2 <= usize::MAX
}

/// Every bound the edit computation and application need follows from an
/// acceptable change.
pub proof fn lemma_acceptable_bounds(lines: Seq<Seq<char>>, s: Point, e: Point, t: Seq<char>)
    requires
        forall|i: int| 0 <= i < lines.len() ==> line_ok(#[trigger] lines[i]),
        spec_change_acceptable(lines, s, e, t),
    ensures
        spec_byte_offset(lines, s.row as int, s.column as int) <= total_blen(lines),
        spec_byte_offset(lines, e.row as int, e.column as int) <= total_blen(lines),
        str_blen(edited_text(lines, s, e, t)) + 1 <= usize::MAX,
        total_blen(spec_apply(lines, s, e, t)) <= usize::MAX,
        s.row + nl_count(t) <= usize::MAX,
        s.column + t.len() <= usize::MAX,
{
    let tot = total_blen(lines);
    // offsets stay below the total
    lemma_total_blen_row(lines, s.row as int);
    lemma_str_blen_take(lines[s.row as int], s.column as int);
    lemma_total_blen_row(lines, e.row as int);
    lemma_str_blen_take(lines[e.row as int], e.column as int);
    // the replaced text is bounded by the document plus the new text
    let pre = lines[s.row as int].take(s.column as int);
    let suf = lines[e.row as int].skip(e.column as int);
    lemma_str_blen_concat(pre, t);
    lemma_str_blen_concat(pre + t, suf);
    assert((pre + t) + suf =~= edited_text(lines, s, e, t));
    lemma_str_blen_take(lines[e.row as int], e.column as int);
    assert(str_blen(pre) + str_blen(suf) <= tot) by {
        if s.row == e.row {
            lemma_total_blen_row(lines, s.row as int);
            assert(pre + lines[s.row as int].skip(s.column as int) =~= lines[s.row as int]);
            lemma_str_blen_concat(pre, lines[s.row as int].skip(s.column as int));
            assert(suf.len() <= lines[e.row as int].skip(s.column as int).len());
            // the suffix from the later column is a suffix of the one from
            // the earlier column
            assert(lines[e.row as int].skip(s.column as int) =~= lines[e.row as int].subrange(
                s.column as int,
                e.column as int,
            ) + suf);
            lemma_str_blen_concat(
                lines[e.row as int].subrange(s.column as int, e.column as int),
                suf,
            );
        } else {
            lemma_total_blen_row(lines, s.row as int);
            lemma_total_blen_row(lines, e.row as int);
            // two distinct rows: bound each part by its own row
            lemma_two_rows_bound(lines, s.row as int, e.row as int);
            lemma_str_blen_take(lines[s.row as int], s.column as int);
        }
    }
    // the resulting document is bounded
    let ed = edited_text(lines, s, e, t);
    lemma_split_relines_blen(ed);
    let spliced = lines.take(s.row as int) + split_relines(ed) + lines.skip(e.row as int + 1);
    let res = spec_apply(lines, s, e, t);
    lemma_total_blen_concat(
        lines.take(s.row as int) + split_relines(ed),
        lines.skip(e.row as int + 1),
    );
    lemma_total_blen_concat(lines.take(s.row as int), split_relines(ed));
    assert(spliced =~= (lines.take(s.row as int) + split_relines(ed)) + lines.skip(
        e.row as int + 1,
    ));
    assert(total_blen(lines.take(s.row as int)) + total_blen(lines.skip(e.row as int + 1))
        <= tot) by {
        lemma_take_skip_bound(lines, s.row as int, e.row as int + 1);
    }
    // the restored synthetic trailing line adds at most one byte
    assert(total_blen(res) <= total_blen(spliced) + 1) by {
        if !(spliced.len() > 0 && spliced.last() == seq!['\n']) {
            assert(res == spliced.push(seq!['\n']));
            assert(spliced.push(seq!['\n']) =~= spliced + seq![seq!['\n']]);
            lemma_total_blen_concat(spliced, seq![seq!['\n']]);
            assert(total_blen(seq![seq!['\n']]) == str_blen(seq!['\n']) + total_blen(
                seq![seq!['\n']].drop_first(),
            ));
            assert(seq![seq!['\n']].drop_first() =~= Seq::<Seq<char>>::empty());
            assert(str_blen(seq!['\n']) == 1) by {
                crate::line::lemma_nl_blen();
            }
        }
    }
    // row and column arithmetic stays in range
    lemma_len_le_blen(t);
    assert(nl_count(t) <= t.len()) by {
        lemma_nl_count_le(t);
    }
    assert forall|i: int| 0 <= i < lines.len() implies (#[trigger] lines[i]).len() >= 1 by {
        assert(line_ok(lines[i]));
    }
    lemma_count_le_blen(lines);
    lemma_len_le_blen(lines[s.row as int]);
}

/// A text has at most as many newlines as characters.
proof fn lemma_nl_count_le(s: Seq<char>)
    ensures
        nl_count(s) <= s.len(),
    decreases s.len(),
{
    if s.len() > 0 {
        lemma_nl_count_le(s.drop_last());
    }
}

/// Decides whether the synchronizer accepts a change.
pub fn change_acceptable(doc: &DynText, start: Point, old_end: Point, tchars: &Vec<char>) -> (r:
    bool)
    requires
        doc.wf(),
    ensures
        r == spec_change_acceptable(doc@, start, old_end, tchars@),
{
    let n = doc.line_count();
    if start.row >= n || old_end.row >= n {
        return false;
    }
    if !start.le(&old_end) {
        return false;
    }
    let sline = doc.line_len(start.row);
    let eline = doc.line_len(old_end.row);
    if start.column >= sline || old_end.column >= eline {
        return false;
    }
    let tot = doc.total_bytes();
    let tb = match text_blen(tchars) {
        Option::Some(b) => b,
        Option::None => {
            proof {
                assert(str_blen(tchars@) > usize::MAX);
            }
            return false;
        },
    };
    let lhs: u128 = 2u128 * (tot as u128) + (tb as u128) + 2u128;
    lhs <= usize::MAX as u128
}

/// Builds the edit descriptor from the document before mutation: the old
/// range's byte offsets, the new end byte, and the new end position.
pub fn compute_edit(doc: &DynText, start: Point, old_end: Point, new_text: &str) -> (r:
    EditDescriptor)
    requires
        doc.wf(),
        valid_edit(doc@, start, old_end),
        spec_byte_offset(doc@, start.row as int, start.column as int) + str_blen(new_text@)
            <= usize::MAX,
        start.row + nl_count(new_text@) <= usize::MAX,
        start.column + new_text@.len() <= usize::MAX,
    ensures
        r.start_position == start,
        r.old_end_position == old_end,
        r.start_byte as nat == spec_byte_offset(doc@, start.row as int, start.column as int),
        r.old_end_byte as nat == spec_byte_offset(doc@, old_end.row as int, old_end.column as int),
        r.new_end_byte as nat == r.start_byte + str_blen(new_text@),
        r.new_end_position == spec_new_end(start, new_text@),
{
    let start_byte = doc.get_byte_offset(start.row, start.column);
    let old_end_byte = doc.get_byte_offset(old_end.row, old_end.column);
    let chars = str_chars(new_text);
    let tb = match text_blen(&chars) {
        Option::Some(b) => b,
        Option::None => {
            proof {
                assert(false);
            }
            vstd::pervasive::unreached()
        },
    };
    let new_end_byte = start_byte + tb;
    let lf = count_newlines(&chars);
    let new_end_position = if lf > 0 {
        let tl = tail_len(&chars);
        Point { row: start.row + lf, column: tl }
    } else {
        Point { row: start.row, column: start.column + chars.len() }
    };
    EditDescriptor {
        start_byte,
        old_end_byte,
        new_end_byte,
        start_position: start,
        old_end_position: old_end,
        new_end_position,
    }
}

} // verus!
