use vstd::prelude::*;

use crate::aggregate::{agg_sum, Aggregate};
use crate::line::{
    char_blen, char_utf8_len, first_nl, lemma_first_nl, lemma_first_nl_at, lemma_first_nl_none,
    lemma_split_relines_blen, lemma_split_relines_ok, lemma_str_blen_concat, lemma_str_blen_take,
    lemma_total_blen_concat, lemma_total_blen_row, lemma_total_blen_split, line_ok,
    split_relines, str_blen, str_chars, total_blen, Line,
};
use crate::edit::EditDescriptor;
use crate::treap::TreapList;
use crate::Point;

verus! {

/// The views of a sequence of stored lines.
pub open spec fn lines_views(s: Seq<Line>) -> Seq<Seq<char>> {
    s.map_values(|l: Line| l@)
}

/// The concatenation of a sequence of lines into one character sequence.
pub open spec fn concat_lines(lines: Seq<Seq<char>>) -> Seq<char> {
    agg_sum::<Line>(lines)
}

/// The plain sum of a sequence of byte counts.
pub open spec fn sum_usize(s: Seq<usize>) -> nat
    decreases s.len(),
{
    if s.len() == 0 {
        0
    } else {
        s[0] as nat + sum_usize(s.drop_first())
    }
}

/// The wrapped fold over byte counts equals the plain sum while that sum
/// fits the machine word.
pub proof fn lemma_agg_sum_usize(s: Seq<usize>)
    requires
        sum_usize(s) <= usize::MAX,
    ensures
        agg_sum::<usize>(s) == sum_usize(s),
    decreases s.len(),
{
    if s.len() > 0 {
        lemma_agg_sum_usize(s.drop_first());
    }
}

/// Byte counts that match their lines sum to the lines' total byte length.
pub proof fn lemma_sum_matches(bytes: Seq<usize>, lines: Seq<Seq<char>>)
    requires
        bytes.len() == lines.len(),
        forall|i: int| 0 <= i < bytes.len() ==> bytes[i] as nat == str_blen(lines[i]),
    ensures
        sum_usize(bytes) == total_blen(lines),
    decreases bytes.len(),
{
    if bytes.len() > 0 {
        assert(bytes[0] as nat == str_blen(lines[0]));
        assert forall|i: int|
            0 <= i < bytes.drop_first().len() implies bytes.drop_first()[i] as nat == str_blen(
            lines.drop_first()[i],
        ) by {
            assert(bytes.drop_first()[i] == bytes[i + 1]);
            assert(lines.drop_first()[i] == lines[i + 1]);
        }
        lemma_sum_matches(bytes.drop_first(), lines.drop_first());
    }
}

/// A well-formed line carries at least one byte, so a line sequence never
/// outnumbers its bytes.
pub proof fn lemma_count_le_blen(lines: Seq<Seq<char>>)
    requires
        forall|i: int| 0 <= i < lines.len() ==> (#[trigger] lines[i]).len() >= 1,
    ensures
        lines.len() <= total_blen(lines),
    decreases lines.len(),
{
    if lines.len() > 0 {
        assert(str_blen(lines[0]) >= 1) by {
            crate::line::lemma_str_blen_first(lines[0]);
            crate::line::lemma_char_blen_bounds(lines[0][0]);
        }
        assert forall|i: int|
            0 <= i < lines.drop_first().len() implies (#[trigger] lines.drop_first()[i]).len()
            >= 1 by {
            assert(lines.drop_first()[i] == lines[i + 1]);
        }
        lemma_count_le_blen(lines.drop_first());
    }
}

/// The byte offset of a position: all bytes of the rows above it, plus the
/// bytes of the characters before it on its own row.
pub open spec fn spec_byte_offset(lines: Seq<Seq<char>>, row: int, col: int) -> nat {
    total_blen(lines.take(row)) + str_blen(lines[row].take(col))
}

/// The editable document: a sequence of stored lines, each ending in a
/// newline, held in two index-synchronized trees — one with the line text,
/// one with the line byte length.
pub struct DynText {
    content: TreapList<Line>,
    line_bytes: TreapList<usize>,
}

impl View for DynText {
    type V = Seq<Seq<char>>;

    closed spec fn view(&self) -> Seq<Seq<char>> {
        self.content@
    }
}

impl DynText {
    /// The document invariant: the trees correspond index for index, every
    /// line is well formed, at least one line is present, the last stored
    /// line is the synthetic trailing empty line, and the total byte
    /// length fits the machine word.
    pub closed spec fn wf(self) -> bool {
        &&& self.content.wf()
        &&& self.line_bytes.wf()
        &&& self.line_bytes@.len() == self.content@.len()
        &&& self.content@.len() >= 1
        &&& self.content@.last() == seq!['\n']
        &&& forall|i: int|
            0 <= i < self.content@.len() ==> self.line_bytes@[i] as nat == str_blen(
                #[trigger] self.content@[i],
            )
        &&& forall|i: int| 0 <= i < self.content@.len() ==> line_ok(#[trigger] self.content@[i])
        &&& total_blen(self.content@) <= usize::MAX
    }

    /// Builds the document from a text: the text's lines, each stored with
    /// its newline restored, then the synthetic trailing empty line that
    /// keeps every end-of-document position addressable.
    pub fn new(text: &str) -> (r: DynText)
        requires
            str_blen(text@) + 2 <= usize::MAX,
        ensures
            r.wf(),
            r@ == split_relines(text@).push(seq!['\n']),
    {
        let chars = str_chars(text);
        let (mut lines, mut blens) = split_text(&chars);
        let mut nlv: Vec<char> = Vec::new();
        nlv.push('\n');
        let synth = Line::from_chars(nlv);
        proof {
            assert(synth@ =~= seq!['\n']);
            assert(line_ok(synth@));
            assert(str_blen(seq!['\n']) == 1) by {
                crate::line::lemma_nl_blen();
            }
        }
        lines.push(synth);
        blens.push(1);
        let ghost all_views = lines_views(lines@);
        proof {
            assert(all_views =~= split_relines(text@).push(seq!['\n']));
            assert(all_views.last() == seq!['\n']);
            lemma_split_relines_ok(text@);
            lemma_split_relines_blen(text@);
            lemma_total_blen_concat(split_relines(text@), seq![seq!['\n']]);
            assert(split_relines(text@) + seq![seq!['\n']] =~= all_views);
            assert(total_blen(seq![seq!['\n']]) == 1) by {
                assert(seq![seq!['\n']][0] =~= seq!['\n']);
                assert(seq![seq!['\n']].drop_first() =~= Seq::<Seq<char>>::empty());
                assert(total_blen(seq![seq!['\n']]) == str_blen(seq![seq!['\n']][0]) + total_blen(
                    seq![seq!['\n']].drop_first(),
                ));
                assert(str_blen(seq!['\n']) == 1) by {
                    crate::line::lemma_nl_blen();
                }
            }
            assert(total_blen(all_views) <= str_blen(text@) + 2);
            assert forall|i: int| 0 <= i < all_views.len() implies (#[trigger] all_views[i]).len()
                >= 1 by {
                if i < split_relines(text@).len() {
                    assert(all_views[i] == split_relines(text@)[i]);
                    assert(line_ok(split_relines(text@)[i]));
                }
            }
            lemma_count_le_blen(all_views);
        }
        let (content, line_bytes) = build_trees(lines, blens);
        DynText { content, line_bytes }
    }

    /// The number of stored lines, the synthetic trailing line included.
    pub fn line_count(&self) -> (r: usize)
        requires
            self.wf(),
        ensures
            r == self@.len(),
    {
        self.content.size()
    }

    /// The number of characters of one row, its newline included.
    pub fn line_len(&self, row: usize) -> (r: usize)
        requires
            self.wf(),
            row < self@.len(),
        ensures
            r == self@[row as int].len(),
    {
        match self.content.get(row) {
            Option::Some(l) => l.len(),
            Option::None => {
                proof {
                    assert(false);
                }
                vstd::pervasive::unreached()
            },
        }
    }

    /// The byte length of one row, its newline included.
    pub fn line_byte_len(&self, row: usize) -> (r: usize)
        requires
            self.wf(),
            row < self@.len(),
        ensures
            r as nat == str_blen(self@[row as int]),
    {
        match self.line_bytes.get(row) {
            Option::Some(b) => *b,
            Option::None => {
                proof {
                    assert(false);
                }
                vstd::pervasive::unreached()
            },
        }
    }

    /// The total byte length of the stored lines.
    pub fn total_bytes(&self) -> (r: usize)
        requires
            self.wf(),
        ensures
            r as nat == total_blen(self@),
    {
        let n = self.line_bytes.size();
        let r = self.line_bytes.sum_range(0..n);
        proof {
            assert(self.line_bytes@.subrange(0, n as int) =~= self.line_bytes@);
            lemma_sum_matches(self.line_bytes@, self@);
            lemma_agg_sum_usize(self.line_bytes@);
        }
        r
    }

    /// The byte offset of a (row, column) position, the column counted in
    /// characters of that row.
    pub fn get_byte_offset(&self, line: usize, column: usize) -> (r: usize)
        requires
            self.wf(),
            line < self@.len(),
            column < self@[line as int].len(),
        ensures
            r as nat == spec_byte_offset(self@, line as int, column as int),
    {
        let ghost lines = self@;
        let base = self.line_bytes.sum_range(0..line);
        proof {
            let pre_b = self.line_bytes@.subrange(0, line as int);
            let pre_l = lines.take(line as int);
            assert forall|i: int| 0 <= i < pre_b.len() implies pre_b[i] as nat == str_blen(
                pre_l[i],
            ) by {
                assert(pre_b[i] == self.line_bytes@[i]);
                assert(pre_l[i] == lines[i]);
            }
            lemma_sum_matches(pre_b, pre_l);
            lemma_total_blen_split(lines, line as int);
            lemma_agg_sum_usize(pre_b);
            lemma_total_blen_row(lines, line as int);
        }
        let l = match self.content.get(line) {
            Option::Some(l) => l,
            Option::None => {
                proof {
                    assert(false);
                }
                vstd::pervasive::unreached()
            },
        };
        let mut acc = base;
        let mut j: usize = 0;
        proof {
            assert(l@.take(0) =~= Seq::<char>::empty());
            assert(vstd::utf8::encode_utf8(Seq::<char>::empty()) =~= Seq::<u8>::empty());
        }
        while j < column
            invariant
                j <= column,
                column < l@.len(),
                l@ == lines[line as int],
                self.wf(),
                lines == self@,
                line < lines.len(),
                acc as nat == total_blen(lines.take(line as int)) + str_blen(l@.take(j as int)),
                total_blen(lines.take(line as int)) + str_blen(l@) <= usize::MAX,
            decreases column - j,
        {
            let c = l.char_at(j);
            let w = char_utf8_len(c);
            proof {
                assert(l@.take(j + 1) =~= l@.take(j as int) + seq![c]);
                lemma_str_blen_concat(l@.take(j as int), seq![c]);
                assert(str_blen(seq![c]) == char_blen(c)) by {
                    crate::line::lemma_str_blen_first(seq![c]);
                    assert(seq![c].drop_first() =~= Seq::<char>::empty());
                    assert(vstd::utf8::encode_utf8(Seq::<char>::empty()) =~= Seq::<u8>::empty());
                }
                lemma_str_blen_take(l@, j + 1);
            }
            acc = acc + w;
            j += 1;
        }
        acc
    }

    /// The characters of one row from a column to the row's end; an
    /// out-of-range position yields nothing, as an opaque byte reader
    /// for the reparse must never fail.
    pub fn get_text(&self, row: usize, column: usize) -> (r: Vec<char>)
        requires
            self.wf(),
        ensures
            r@ == spec_get_text(self@, row as int, column as int),
    {
        let n = self.content.size();
        if row >= n {
            let r: Vec<char> = Vec::new();
            return r;
        }
        let l = match self.content.get(row) {
            Option::Some(l) => l,
            Option::None => {
                proof {
                    assert(false);
                }
                vstd::pervasive::unreached()
            },
        };
        let len = l.len();
        if column >= len {
            let r: Vec<char> = Vec::new();
            return r;
        }
        let mut buf: Vec<char> = Vec::new();
        append_range(&mut buf, l, column, len);
        proof {
            assert(buf@ =~= self@[row as int].skip(column as int));
        }
        buf
    }

    /// Decides whether two positions form a readable range of this
    /// document.
    pub fn range_valid(&self, start: Point, end: Point) -> (r: bool)
        requires
            self.wf(),
        ensures
            r == valid_range(self@, start, end),
    {
        let n = self.content.size();
        if start.row >= n || end.row >= n {
            return false;
        }
        if !start.le(&end) {
            return false;
        }
        let sl = self.line_len(start.row);
        let el = self.line_len(end.row);
        start.column <= sl && end.column <= el
    }

    /// The text between two positions, as characters.
    pub fn text_range_chars(&self, start: Point, end: Point) -> (r: Vec<char>)
        requires
            self.wf(),
            valid_range(self@, start, end),
        ensures
            r@ == spec_text_range(self@, start, end),
    {
        let mut buf: Vec<char> = Vec::new();
        if start.row == end.row {
            let l = match self.content.get(start.row) {
                Option::Some(l) => l,
                Option::None => {
                    proof {
                        assert(false);
                    }
                    vstd::pervasive::unreached()
                },
            };
            append_range(&mut buf, l, start.column, end.column);
            proof {
                assert(buf@ =~= spec_text_range(self@, start, end));
            }
        } else {
            let first = match self.content.get(start.row) {
                Option::Some(l) => l,
                Option::None => {
                    proof {
                        assert(false);
                    }
                    vstd::pervasive::unreached()
                },
            };
            let flen = first.len();
            append_range(&mut buf, first, start.column, flen);
            let mid = self.content.sum_range(start.row + 1..end.row);
            let mlen = mid.len();
            append_range(&mut buf, &mid, 0, mlen);
            proof {
                assert(mid@.subrange(0, mid@.len() as int) =~= mid@);
            }
            let last = match self.content.get(end.row) {
                Option::Some(l) => l,
                Option::None => {
                    proof {
                        assert(false);
                    }
                    vstd::pervasive::unreached()
                },
            };
            append_range(&mut buf, last, 0, end.column);
            proof {
                assert(self@[start.row as int].skip(start.column as int) =~= self@[
                    start.row as int].subrange(start.column as int, self@[start.row as int].len() as int));
                assert(self@[end.row as int].take(end.column as int) =~= self@[end.row as int].subrange(
                    0,
                    end.column as int,
                ));
                assert(buf@ =~= spec_text_range(self@, start, end));
            }
        }
        buf
    }

    /// The text between two positions: one sliced row, or the tail of the
    /// start row, the aggregate of the rows between, and the head of the
    /// end row.
    pub fn get_text_range(&self, start: Point, end: Point) -> (r: String)
        requires
            self.wf(),
            valid_range(self@, start, end),
        ensures
            r@ == spec_text_range(self@, start, end),
    {
        let buf = self.text_range_chars(start, end);
        crate::line::chars_to_string(&buf)
    }

    /// Replaces the old range with the new text: the prefix of the start
    /// row, the text, and the suffix of the old end row are re-split into
    /// lines, which replace the old rows in both trees at the same index.
    pub fn apply_change(&mut self, edit: &EditDescriptor, new_text: &str)
        requires
            old(self).wf(),
            valid_edit(old(self)@, edit.start_position, edit.old_end_position),
            str_blen(
                edited_text(old(self)@, edit.start_position, edit.old_end_position, new_text@),
            ) + 1 <= usize::MAX,
            total_blen(
                spec_apply(old(self)@, edit.start_position, edit.old_end_position, new_text@),
            ) <= usize::MAX,
        ensures
            final(self).wf(),
            final(self)@ == spec_apply(
                old(self)@,
                edit.start_position,
                edit.old_end_position,
                new_text@,
            ),
    {
        let ghost lines0 = self@;
        let srow = edit.start_position.row;
        let scol = edit.start_position.column;
        let erow = edit.old_end_position.row;
        let ecol = edit.old_end_position.column;
        let n0 = self.content.size();
        let mut buf: Vec<char> = Vec::new();
        let first = match self.content.get(srow) {
            Option::Some(l) => l,
            Option::None => {
                proof {
                    assert(false);
                }
                vstd::pervasive::unreached()
            },
        };
        append_range(&mut buf, first, 0, scol);
        let mut tchars = str_chars(new_text);
        buf.append(&mut tchars);
        let last = match self.content.get(erow) {
            Option::Some(l) => l,
            Option::None => {
                proof {
                    assert(false);
                }
                vstd::pervasive::unreached()
            },
        };
        let llen = last.len();
        append_range(&mut buf, last, ecol, llen);
        proof {
            assert(lines0[srow as int].take(scol as int) =~= lines0[srow as int].subrange(
                0,
                scol as int,
            ));
            assert(lines0[erow as int].skip(ecol as int) =~= lines0[erow as int].subrange(
                ecol as int,
                lines0[erow as int].len() as int,
            ));
            assert(buf@ =~= edited_text(lines0, edit.start_position, edit.old_end_position,
                new_text@));
        }
        let (mut lines, mut blens) = split_text(&buf);
        let ghost nv = lines_views(lines@);
        let ghost base = lines0.take(srow as int) + nv + lines0.skip(erow as int + 1);
        let ghost result = spec_apply(lines0, edit.start_position, edit.old_end_position,
            new_text@);
        proof {
            lemma_split_relines_ok(buf@);
            assert(buf@.len() > 0);
            assert(nv.len() > 0);
        }
        // decide whether the splice consumed the synthetic trailing line
        let need_synth = if erow + 1 < n0 {
            proof {
                assert(base.last() == lines0.skip(erow as int + 1).last());
                assert(base.last() == lines0.last());
            }
            false
        } else {
            let last_len = lines[lines.len() - 1].len();
            proof {
                assert(base.last() == nv[nv.len() - 1]);
                assert(line_ok(nv[nv.len() - 1]));
                if last_len == 1 {
                    assert(nv[nv.len() - 1] =~= seq!['\n']);
                } else {
                    assert(nv[nv.len() - 1] != seq!['\n']);
                }
            }
            last_len != 1
        };
        proof {
            assert(line_ok(seq!['\n'])) by {
                assert(seq!['\n'].len() == 1);
                assert(seq!['\n'][0] == '\n');
            }
            if need_synth {
                assert(result == base.push(seq!['\n']));
            } else {
                assert(result == base);
            }
            // every resulting line is well formed, so the count fits the word
            assert forall|i: int| 0 <= i < base.len() implies line_ok(#[trigger] base[i]) by {
                if i < srow as int {
                    assert(base[i] == lines0[i]);
                } else if i < srow as int + nv.len() {
                    assert(base[i] == nv[i - srow as int]);
                } else {
                    assert(base[i] == lines0[i - nv.len() + (erow - srow + 1)]);
                }
            }
            assert forall|i: int| 0 <= i < result.len() implies (#[trigger] result[i]).len()
                >= 1 by {
                if i < base.len() {
                    assert(result[i] == base[i]);
                    assert(line_ok(base[i]));
                } else {
                    assert(result[i] == seq!['\n']);
                }
            }
            lemma_count_le_blen(result);
        }
        let ghost borig = self.line_bytes@;
        proof {
            crate::treap::lemma_len_fits(self.content);
            crate::treap::lemma_len_fits(self.line_bytes);
        }
        // the rows of the old range leave the byte tree, the new rows enter
        self.line_bytes.remove_range(srow..erow + 1);
        let ghost b0 = self.line_bytes@;
        let ghost csnap = self.content;
        let mut idx: usize = 0;
        proof {
            assert(b0.take(srow as int) + blens@.take(0) + b0.skip(srow as int) =~= b0);
        }
        while idx < blens.len()
            invariant
                self.line_bytes.wf(),
                self.content == csnap,
                idx <= blens@.len(),
                blens@.len() == nv.len(),
                forall|j: int| 0 <= j < blens@.len() ==> blens@[j] as nat == str_blen(nv[j]),
                b0.len() + nv.len() <= usize::MAX,
                srow as int <= b0.len(),
                self.line_bytes@ == b0.take(srow as int) + blens@.take(idx as int) + b0.skip(
                    srow as int,
                ),
            decreases blens@.len() - idx,
        {
            let b = blens[idx];
            proof {
                assert(self.line_bytes@.len() == b0.len() + idx as int);
            }
            self.line_bytes.insert_after_k_nodes(b, srow + idx);
            idx += 1;
            proof {
                assert(self.line_bytes@ =~= b0.take(srow as int) + blens@.take(idx as int)
                    + b0.skip(srow as int));
            }
        }
        // the same rows leave and enter the content tree
        self.content.remove_range(srow..erow + 1);
        let ghost c0 = self.content@;
        let ghost bsnap = self.line_bytes;
        let mut jdx: usize = 0;
        proof {
            assert(c0.take(srow as int) + nv.take(0) + c0.skip(srow as int) =~= c0);
        }
        while lines.len() > 0
            invariant
                self.content.wf(),
                self.line_bytes == bsnap,
                jdx + lines@.len() == nv.len(),
                forall|j: int| 0 <= j < lines@.len() ==> lines@[j]@ == nv[jdx + j],
                c0.len() + nv.len() <= usize::MAX,
                srow as int <= c0.len(),
                self.content@ == c0.take(srow as int) + nv.take(jdx as int) + c0.skip(
                    srow as int,
                ),
            decreases lines@.len(),
        {
            let l = lines.remove(0);
            proof {
                assert(self.content@.len() == c0.len() + jdx as int);
                assert(l@ == nv[jdx as int]);
            }
            self.content.insert_after_k_nodes(l, srow + jdx);
            jdx += 1;
            proof {
                assert(self.content@ =~= c0.take(srow as int) + nv.take(jdx as int) + c0.skip(
                    srow as int,
                ));
            }
        }
        let ghost bfull = borig.take(srow as int) + blens@ + borig.skip(erow as int + 1);
        proof {
            assert(nv.take(nv.len() as int) =~= nv);
            assert(blens@.take(blens@.len() as int) =~= blens@);
            // the shapes of the two trees after the splice
            assert(c0 == lines0.take(srow as int) + lines0.skip(erow as int + 1));
            assert(b0 == borig.take(srow as int) + borig.skip(erow as int + 1));
            assert(c0.take(srow as int) =~= lines0.take(srow as int));
            assert(c0.skip(srow as int) =~= lines0.skip(erow as int + 1));
            assert(b0.take(srow as int) =~= borig.take(srow as int));
            assert(b0.skip(srow as int) =~= borig.skip(erow as int + 1));
            assert(self.content@ =~= base);
            assert(self.line_bytes@ =~= bfull);
            // byte counts match line by line across the splice
            assert forall|i: int|
                0 <= i < base.len() implies bfull[i] as nat == str_blen(#[trigger] base[i]) by {
                if i < srow as int {
                    assert(base[i] == lines0[i]);
                    assert(bfull[i] == borig[i]);
                } else if i < srow as int + nv.len() {
                    assert(base[i] == nv[i - srow as int]);
                    assert(bfull[i] == blens@[i - srow as int]);
                } else {
                    let k = i - srow - nv.len() + erow + 1;
                    assert(base[i] == lines0[k]);
                    assert(bfull[i] == borig[k]);
                }
            }
            assert(bfull.len() == base.len());
        }
        if need_synth {
            // restore the synthetic trailing empty line the splice consumed
            let mut nlv: Vec<char> = Vec::new();
            nlv.push('\n');
            let synth = Line::from_chars(nlv);
            proof {
                assert(synth@ =~= seq!['\n']);
                assert(base.len() + 1 == result.len());
                assert(base.len() < usize::MAX);
            }
            self.content.push(synth);
            self.line_bytes.push(1);
        }
        proof {
            if need_synth {
                assert(self.content@ =~= result);
                assert(self.line_bytes@ =~= bfull.push(1));
            } else {
                assert(self.content@ == base);
                assert(self.content@ == result);
                assert(self.line_bytes@ == bfull);
            }
            assert(str_blen(seq!['\n']) == 1) by {
                crate::line::lemma_nl_blen();
            }
            // well-formedness of the result, segment by segment
            assert(self.line_bytes@.len() == self.content@.len());
            assert forall|i: int|
                0 <= i < self.content@.len() implies self.line_bytes@[i] as nat == str_blen(
                #[trigger] self.content@[i],
            ) && line_ok(self.content@[i]) by {
                if i < base.len() {
                    assert(self.content@[i] == base[i]);
                    assert(self.line_bytes@[i] == bfull[i]);
                    assert(line_ok(base[i]));
                } else {
                    assert(self.content@[i] == seq!['\n']);
                    assert(self.line_bytes@[i] == 1);
                }
            }
            // the synthetic trailing line stands at the end again
            assert(self.content@.last() == seq!['\n']) by {
                if !need_synth {
                    assert(base.last() == seq!['\n']);
                }
            }
        }
    }
}

/// What a well-formed document guarantees about its line views.
pub proof fn lemma_wf_facts(doc: DynText)
    requires
        doc.wf(),
    ensures
        doc@.len() >= 1,
        total_blen(doc@) <= usize::MAX,
        forall|i: int| 0 <= i < doc@.len() ==> line_ok(#[trigger] doc@[i]),
{
}

/// A well-formed document's line count fits the machine word.
pub proof fn proof_doc_len_fits(doc: DynText)
    requires
        doc.wf(),
    ensures
        doc@.len() <= usize::MAX,
{
    crate::treap::lemma_len_fits(doc.content);
}

/// Concatenation of lines distributes over the first line.
pub proof fn lemma_concat_lines_first(lines: Seq<Seq<char>>)
    requires
        lines.len() > 0,
    ensures
        concat_lines(lines) == lines[0] + concat_lines(lines.drop_first()),
{
    assert(lines =~= seq![lines[0]] + lines.drop_first());
    crate::aggregate::lemma_agg_sum_concat::<Line>(seq![lines[0]], lines.drop_first());
    crate::aggregate::lemma_agg_sum_singleton::<Line>(lines[0]);
}

/// Splitting a newline-terminated text into lines and joining them again
/// gives the text back, as long as no carriage return stands before a
/// newline (the splitter would drop it).
pub proof fn lemma_split_join(t: Seq<char>)
    requires
        t.len() > 0 ==> t[t.len() - 1] == '\n',
        forall|j: int| 0 <= j < t.len() - 1 ==> !((#[trigger] t[j]) == '\r' && t[j + 1] == '\n'),
    ensures
        concat_lines(split_relines(t)) == t,
    decreases t.len(),
{
    lemma_first_nl(t);
    if t.len() == 0 {
        assert(split_relines(t) =~= Seq::<Seq<char>>::empty());
        assert(concat_lines(split_relines(t)) =~= t);
    } else {
        let i = first_nl(t) as int;
        assert(i < t.len());
        let seg = t.take(i);
        assert(seg.len() > 0 ==> seg[seg.len() - 1] != '\r') by {
            if seg.len() > 0 && seg[seg.len() - 1] == '\r' {
                assert(t[i - 1] == '\r' && t[i] == '\n');
            }
        }
        let l = seg.push('\n');
        let rest = t.skip(i + 1);
        assert(rest.len() > 0 ==> rest[rest.len() - 1] == '\n') by {
            if rest.len() > 0 {
                assert(rest[rest.len() - 1] == t[t.len() - 1]);
            }
        }
        assert forall|j: int| 0 <= j < rest.len() - 1 implies !((#[trigger] rest[j]) == '\r'
            && rest[j + 1] == '\n') by {
            assert(rest[j] == t[i + 1 + j]);
            assert(rest[j + 1] == t[i + 1 + j + 1]);
        }
        lemma_split_join(rest);
        assert(split_relines(t) == seq![l] + split_relines(rest));
        lemma_concat_lines_first(seq![l] + split_relines(rest));
        assert((seq![l] + split_relines(rest))[0] == l);
        assert((seq![l] + split_relines(rest)).drop_first() =~= split_relines(rest));
        assert(l + rest =~= t);
    }
}

/// Law: reading the whole extent of a document built from a text gives the
/// text back. The extent runs from the document start to the start of the
/// synthetic trailing line; the text must use bare newlines, since a
/// carriage return before a newline is normalized away when the document
/// is built.
pub proof fn lemma_round_trip(doc: DynText, t: Seq<char>)
    requires
        doc.wf(),
        doc@ == split_relines(t).push(seq!['\n']),
        t.len() > 0 ==> t[t.len() - 1] == '\n',
        forall|j: int| 0 <= j < t.len() - 1 ==> !((#[trigger] t[j]) == '\r' && t[j + 1] == '\n'),
    ensures
        spec_text_range(
            doc@,
            Point { row: 0, column: 0 },
            Point { row: (doc@.len() - 1) as usize, column: 0 },
        ) == t,
{
    let lines = doc@;
    proof_doc_len_fits(doc);
    let last = (lines.len() - 1) as usize;
    assert(last as int == lines.len() - 1);
    lemma_split_join(t);
    if last == 0 {
        assert(split_relines(t).len() == 0);
        assert(t.len() == 0) by {
            if t.len() > 0 {
                lemma_first_nl(t);
            }
        }
        assert(lines[0].subrange(0, 0) =~= t);
    } else {
        let sp = split_relines(t);
        assert(lines[0] == sp[0]);
        assert(lines.subrange(1, last as int) =~= sp.drop_first());
        lemma_concat_lines_first(sp);
        assert(lines[last as int].take(0) =~= Seq::<char>::empty());
        assert(lines[0].skip(0) =~= lines[0]);
        assert(lines[0] + concat_lines(sp.drop_first()) + Seq::<char>::empty() =~= concat_lines(
            sp,
        ));
    }
}

/// Law: an edit with an empty old range and empty new text leaves the
/// document — and with it every byte offset — unchanged. The lines must
/// end in the synthetic trailing empty line, as a well-formed document's
/// do, and the edited row must not hide a carriage return before its
/// final newline, since re-splitting would normalize that away.
pub proof fn lemma_zero_edit(lines: Seq<Seq<char>>, p: Point)
    requires
        (p.row as int) < lines.len(),
        line_ok(lines[p.row as int]),
        (p.column as int) < lines[p.row as int].len(),
        lines.last() == seq!['\n'],
        lines[p.row as int].len() >= 2 ==> lines[p.row as int][lines[p.row as int].len() - 2]
            != '\r',
    ensures
        spec_apply(lines, p, p, Seq::empty()) == lines,
{
    let l = lines[p.row as int];
    let c = p.column as int;
    let e = edited_text(lines, p, p, Seq::empty());
    assert(e =~= l);
    assert(split_relines(l) == seq![l]) by {
        let k = l.len() - 1;
        lemma_first_nl_at(l, k);
        assert(first_nl(l) == k);
        let seg = l.take(k);
        assert(seg.len() > 0 ==> seg[seg.len() - 1] != '\r') by {
            if seg.len() > 0 {
                assert(seg[seg.len() - 1] == l[l.len() - 2]);
            }
        }
        assert(l.skip(k + 1) =~= Seq::<char>::empty());
        assert(split_relines(Seq::<char>::empty()) =~= Seq::<Seq<char>>::empty());
        assert(seg.push('\n') =~= l);
        assert(seq![l] + split_relines(l.skip(k + 1)) =~= seq![l]);
    }
    let spliced = lines.take(p.row as int) + split_relines(e) + lines.skip(p.row as int + 1);
    assert(spliced =~= lines);
    assert(spliced.last() == seq!['\n']);
    assert(spec_apply(lines, p, p, Seq::empty()) == lines);
}

/// The characters that replace the old rows: the start row up to the
/// start column, the new text, then the old end row from the end column.
pub open spec fn edited_text(lines: Seq<Seq<char>>, s: Point, e: Point, t: Seq<char>) -> Seq<
    char,
> {
    lines[s.row as int].take(s.column as int) + t + lines[e.row as int].skip(e.column as int)
}

/// What one edit does to the stored lines: the old rows go, the re-split
/// replacement rows come in at the same index, and the synthetic trailing
/// empty line is restored where the splice consumed it — an edit at the
/// last row would otherwise leave the end-of-document position without a
/// row to address.
pub open spec fn spec_apply(lines: Seq<Seq<char>>, s: Point, e: Point, t: Seq<char>) -> Seq<
    Seq<char>,
> {
    let spliced = lines.take(s.row as int) + split_relines(edited_text(lines, s, e, t))
        + lines.skip(e.row as int + 1);
    if spliced.len() > 0 && spliced.last() == seq!['\n'] {
        spliced
    } else {
        spliced.push(seq!['\n'])
    }
}

/// A readable position range: rows in bounds, in order, columns at most
/// at their row's end.
pub open spec fn valid_range(lines: Seq<Seq<char>>, s: Point, e: Point) -> bool {
    &&& (s.row as int) < lines.len()
    &&& (e.row as int) < lines.len()
    &&& s.spec_le(e)
    &&& (s.column as int) <= lines[s.row as int].len()
    &&& (e.column as int) <= lines[e.row as int].len()
}

/// An editable position range: as readable, but the columns must point at
/// characters, never past them.
pub open spec fn valid_edit(lines: Seq<Seq<char>>, s: Point, e: Point) -> bool {
    &&& (s.row as int) < lines.len()
    &&& (e.row as int) < lines.len()
    &&& s.spec_le(e)
    &&& (s.column as int) < lines[s.row as int].len()
    &&& (e.column as int) < lines[e.row as int].len()
}

/// What reading one row from a column yields.
pub open spec fn spec_get_text(lines: Seq<Seq<char>>, row: int, col: int) -> Seq<char> {
    if 0 <= row < lines.len() && 0 <= col < lines[row].len() {
        lines[row].skip(col)
    } else {
        Seq::empty()
    }
}

/// The text between two positions.
pub open spec fn spec_text_range(lines: Seq<Seq<char>>, s: Point, e: Point) -> Seq<char> {
    if s.row == e.row {
        lines[s.row as int].subrange(s.column as int, e.column as int)
    } else {
        lines[s.row as int].skip(s.column as int) + concat_lines(
            lines.subrange(s.row as int + 1, e.row as int),
        ) + lines[e.row as int].take(e.column as int)
    }
}

/// Appends a slice of a line's characters to a buffer.
fn append_range(buf: &mut Vec<char>, l: &Line, from: usize, to: usize)
    requires
        from <= to <= l@.len(),
    ensures
        final(buf)@ == old(buf)@ + l@.subrange(from as int, to as int),
{
    let mut i = from;
    while i < to
        invariant
            from <= i <= to <= l@.len(),
            buf@ == old(buf)@ + l@.subrange(from as int, i as int),
        decreases to - i,
    {
        let c = l.char_at(i);
        buf.push(c);
        proof {
            assert(buf@ =~= old(buf)@ + l@.subrange(from as int, i + 1));
        }
        i += 1;
    }
    proof {
        assert(buf@ =~= old(buf)@ + l@.subrange(from as int, to as int));
    }
}

/// Splits a text into stored lines paired with their byte lengths.
fn split_text(chars: &Vec<char>) -> (r: (Vec<Line>, Vec<usize>))
    requires
        str_blen(chars@) + 1 <= usize::MAX,
    ensures
        lines_views(r.0@) == split_relines(chars@),
        r.1@.len() == r.0@.len(),
        forall|i: int| 0 <= i < r.0@.len() ==> r.1@[i] as nat == str_blen(r.0@[i]@),
{
    let ghost full = chars@;
    let mut out: Vec<Line> = Vec::new();
    let mut outb: Vec<usize> = Vec::new();
    let mut cur: Vec<char> = Vec::new();
    let mut cur_blen: usize = 0;
    let mut i: usize = 0;
    proof {
        assert(full.skip(0) =~= full);
        assert(cur@ + full.skip(0) =~= full);
        assert(vstd::utf8::encode_utf8(Seq::<char>::empty()) =~= Seq::<u8>::empty());
        assert(lines_views(out@) =~= Seq::<Seq<char>>::empty());
    }
    while i < chars.len()
        invariant
            i <= chars.len(),
            full == chars@,
            str_blen(full) + 1 <= usize::MAX,
            split_relines(full) == lines_views(out@) + split_relines(cur@ + full.skip(i as int)),
            forall|j: int| 0 <= j < cur@.len() ==> cur@[j] != '\n',
            cur_blen as nat == str_blen(cur@),
            outb@.len() == out@.len(),
            forall|j: int| 0 <= j < out@.len() ==> outb@[j] as nat == str_blen(out@[j]@),
            total_blen(lines_views(out@)) + str_blen(cur@) + str_blen(full.skip(i as int))
                <= str_blen(full),
        decreases chars.len() - i,
    {
        let c = chars[i];
        let ghost rest = full.skip(i as int);
        proof {
            assert(rest[0] == c);
            assert(rest.drop_first() =~= full.skip(i + 1));
            crate::line::lemma_str_blen_first(rest);
        }
        if c == '\n' {
            let ghost s_here = cur@ + rest;
            let ghost cur0 = cur@;
            let ghost out0 = out@;
            proof {
                assert(s_here[cur@.len() as int] == '\n');
                assert forall|j: int| 0 <= j < cur@.len() implies s_here[j] != '\n' by {
                    assert(s_here[j] == cur@[j]);
                }
                lemma_first_nl_at(s_here, cur@.len() as int);
                assert(s_here.take(cur@.len() as int) =~= cur@);
                assert(s_here.skip(cur@.len() as int + 1) =~= full.skip(i + 1));
            }
            if cur.len() > 0 && cur[cur.len() - 1] == '\r' {
                let _ = cur.pop();
                proof {
                    assert(cur@ =~= cur0.take(cur0.len() - 1));
                    lemma_str_blen_take(cur0, cur0.len() - 1);
                    crate::line::lemma_str_blen_first(cur0.skip(cur0.len() - 1));
                    assert(cur0.skip(cur0.len() - 1).drop_first() =~= Seq::<char>::empty());
                    assert(vstd::utf8::encode_utf8(Seq::<char>::empty()) =~= Seq::<u8>::empty());
                    assert(cur0.skip(cur0.len() - 1)[0] == cur0[cur0.len() - 1]);
                    assert(char_blen('\r') == 1);
                }
                cur_blen = cur_blen - 1;
            }
            let ghost core = cur@;
            let ghost c_before = cur@;
            cur.push('\n');
            let line_b = cur_blen + 1;
            proof {
                assert(cur@ =~= c_before + seq!['\n']);
                lemma_str_blen_concat(c_before, seq!['\n']);
                assert(str_blen(seq!['\n']) == 1) by {
                    crate::line::lemma_nl_blen();
                }
            }
            let line = Line::from_chars(cur);
            let ghost lv = line@;
            out.push(line);
            outb.push(line_b);
            cur = Vec::new();
            cur_blen = 0;
            proof {
                assert(vstd::utf8::encode_utf8(Seq::<char>::empty()) =~= Seq::<u8>::empty());
                // unfold the splitter on the text that remained at entry
                let k = cur0.len() as int;
                assert(s_here.len() > 0);
                assert(first_nl(s_here) == k);
                assert(k < s_here.len());
                let seg = s_here.take(k);
                assert(seg =~= cur0);
                let score = if seg.len() > 0 && seg[seg.len() - 1] == '\r' {
                    seg.take(seg.len() - 1)
                } else {
                    seg
                };
                assert(score =~= core);
                assert(lv =~= core.push('\n'));
                assert(split_relines(s_here) == seq![score.push('\n')] + split_relines(
                    s_here.skip(k + 1),
                ));
                assert(seq![score.push('\n')] =~= seq![lv]);
                assert(split_relines(s_here) == seq![lv] + split_relines(full.skip(i + 1)));
                // re-establish the shape invariant
                assert(lines_views(out@) =~= lines_views(out0) + seq![lv]);
                assert(cur@ + full.skip(i + 1) =~= full.skip(i + 1));
                assert(lines_views(out@) + split_relines(full.skip(i + 1)) =~= lines_views(out0)
                    + (seq![lv] + split_relines(full.skip(i + 1))));
                assert(seq![lv] + split_relines(full.skip(i + 1)) =~= split_relines(s_here));
                assert(split_relines(full) == lines_views(out@) + split_relines(
                    cur@ + full.skip(i + 1),
                ));
                // re-establish the byte accounting
                lemma_total_blen_concat(lines_views(out0), seq![lv]);
                assert(total_blen(seq![lv]) == str_blen(lv)) by {
                    assert(seq![lv][0] == lv);
                    assert(seq![lv].drop_first() =~= Seq::<Seq<char>>::empty());
                    assert(total_blen(seq![lv]) == str_blen(seq![lv][0]) + total_blen(
                        seq![lv].drop_first(),
                    ));
                }
                assert(str_blen(lv) <= str_blen(cur0) + 1);
                assert(char_blen('\n') == 1);
                assert(str_blen(rest) == 1 + str_blen(full.skip(i + 1)));
            }
        } else {
            let w = char_utf8_len(c);
            let ghost cur0 = cur@;
            proof {
                assert(cur@.push(c) =~= cur@ + seq![c]);
                lemma_str_blen_concat(cur@, seq![c]);
                assert(str_blen(seq![c]) == char_blen(c)) by {
                    crate::line::lemma_str_blen_first(seq![c]);
                    assert(seq![c].drop_first() =~= Seq::<char>::empty());
                    assert(vstd::utf8::encode_utf8(Seq::<char>::empty()) =~= Seq::<u8>::empty());
                }
            }
            cur.push(c);
            cur_blen = cur_blen + w;
            proof {
                assert(cur@ + full.skip(i + 1) =~= cur0 + full.skip(i as int));
            }
        }
        i += 1;
    }
    proof {
        assert(full.skip(i as int) =~= Seq::<char>::empty());
        assert(cur@ + full.skip(i as int) =~= cur@);
    }
    if cur.len() > 0 {
        proof {
            lemma_first_nl_none(cur@);
        }
        let ghost c0 = cur@;
        cur.push('\n');
        let line_b = cur_blen + 1;
        proof {
            assert(cur@ =~= c0 + seq!['\n']);
            lemma_str_blen_concat(c0, seq!['\n']);
            assert(str_blen(seq!['\n']) == 1) by {
                crate::line::lemma_nl_blen();
            }
            assert(split_relines(c0) =~= seq![c0.push('\n')]);
            assert(cur@ =~= c0.push('\n'));
        }
        let line = Line::from_chars(cur);
        out.push(line);
        outb.push(line_b);
        proof {
            assert(lines_views(out@) =~= split_relines(full));
        }
    } else {
        proof {
            assert(lines_views(out@) + split_relines(Seq::<char>::empty()) =~= lines_views(out@));
        }
    }
    (out, outb)
}

/// Moves split lines and their byte lengths into the two trees, keeping
/// the index correspondence.
fn build_trees(lines: Vec<Line>, blens: Vec<usize>) -> (r: (TreapList<Line>, TreapList<usize>))
    requires
        blens@.len() == lines@.len(),
        forall|i: int| 0 <= i < lines@.len() ==> blens@[i] as nat == str_blen(lines@[i]@),
        lines_views(lines@).len() <= total_blen(lines_views(lines@)),
        total_blen(lines_views(lines@)) <= usize::MAX,
    ensures
        r.0.wf(),
        r.1.wf(),
        r.0@ == lines_views(lines@),
        r.1@ == blens@,
{
    let ghost lviews = lines_views(lines@);
    let ghost ball = blens@;
    let mut content = TreapList::<Line>::new();
    let mut line_bytes = TreapList::<usize>::new();
    let mut lines = lines;
    let mut blens = blens;
    let mut i: usize = 0;
    let ghost n = lines@.len();
    while lines.len() > 0
        invariant
            content.wf(),
            line_bytes.wf(),
            i + lines@.len() == n,
            blens@.len() == lines@.len(),
            content@ == lviews.take(i as int),
            line_bytes@ == ball.take(i as int),
            lviews.len() == n,
            ball.len() == n,
            forall|j: int| 0 <= j < lines@.len() ==> lines@[j]@ == lviews[i + j],
            forall|j: int| 0 <= j < blens@.len() ==> blens@[j] == ball[i + j],
            n <= total_blen(lviews),
            total_blen(lviews) <= usize::MAX,
        decreases lines@.len(),
    {
        let l = lines.remove(0);
        let b = blens.remove(0);
        proof {
            assert(content@.len() < n);
            assert(n <= usize::MAX);
        }
        content.push(l);
        line_bytes.push(b);
        i += 1;
        proof {
            assert(content@ =~= lviews.take(i as int));
            assert(line_bytes@ =~= ball.take(i as int));
            assert forall|j: int| 0 <= j < lines@.len() implies lines@[j]@ == lviews[i + j] by {}
        }
    }
    proof {
        assert(content@ =~= lviews);
        assert(line_bytes@ =~= ball);
    }
    (content, line_bytes)
}

} // verus!
