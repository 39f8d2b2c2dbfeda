use vstd::prelude::*;

use crate::aggregate::Aggregate;
use vstd::string::StrSliceExecFns;
use vstd::utf8::{char_is_scalar, encode_scalar, encode_utf8};

verus! {

/// The UTF-8 byte length of one character.
pub open spec fn char_blen(c: char) -> nat {
    encode_scalar(c as u32).len()
}

/// The UTF-8 byte length of a character sequence.
pub open spec fn str_blen(s: Seq<char>) -> nat {
    encode_utf8(s).len()
}

/// Byte length distributes over the first character.
pub proof fn lemma_str_blen_first(s: Seq<char>)
    requires
        s.len() > 0,
    ensures
        str_blen(s) == char_blen(s[0]) + str_blen(s.drop_first()),
{
    assert(encode_utf8(s) == encode_scalar(s[0] as u32) + encode_utf8(s.drop_first()));
}

/// Byte length distributes over concatenation.
pub proof fn lemma_str_blen_concat(a: Seq<char>, b: Seq<char>)
    ensures
        str_blen(a + b) == str_blen(a) + str_blen(b),
    decreases a.len(),
{
    if a.len() == 0 {
        assert(a + b =~= b);
        assert(encode_utf8(a) =~= Seq::<u8>::empty());
    } else {
        assert((a + b).drop_first() =~= a.drop_first() + b);
        lemma_str_blen_first(a + b);
        lemma_str_blen_first(a);
        lemma_str_blen_concat(a.drop_first(), b);
        assert((a + b)[0] == a[0]);
    }
}

/// A prefix never has more bytes than the whole.
pub proof fn lemma_str_blen_take(s: Seq<char>, i: int)
    requires
        0 <= i <= s.len(),
    ensures
        str_blen(s.take(i)) <= str_blen(s),
        str_blen(s) == str_blen(s.take(i)) + str_blen(s.skip(i)),
{
    assert(s =~= s.take(i) + s.skip(i));
    lemma_str_blen_concat(s.take(i), s.skip(i));
}

/// Every character takes between one and four bytes.
pub proof fn lemma_char_blen_bounds(c: char)
    ensures
        1 <= char_blen(c) <= 4,
{
    char_is_scalar(c);
}

/// Computes the UTF-8 byte length of one character.
pub fn char_utf8_len(c: char) -> (r: usize)
    ensures
        r == char_blen(c),
        1 <= r <= 4,
{
    proof {
        char_is_scalar(c);
    }
    let u = c as u32;
    if u < 0x80 {
        1
    } else if u < 0x800 {
        2
    } else if u < 0x10000 {
        3
    } else {
        4
    }
}

/// The total UTF-8 byte length of a sequence of lines.
pub open spec fn total_blen(lines: Seq<Seq<char>>) -> nat
    decreases lines.len(),
{
    if lines.len() == 0 {
        0
    } else {
        str_blen(lines[0]) + total_blen(lines.drop_first())
    }
}

/// Total byte length distributes over concatenation of line sequences.
pub proof fn lemma_total_blen_concat(a: Seq<Seq<char>>, b: Seq<Seq<char>>)
    ensures
        total_blen(a + b) == total_blen(a) + total_blen(b),
    decreases a.len(),
{
    if a.len() == 0 {
        assert(a + b =~= b);
    } else {
        assert((a + b).drop_first() =~= a.drop_first() + b);
        assert((a + b)[0] == a[0]);
        lemma_total_blen_concat(a.drop_first(), b);
    }
}

/// Total byte length splits at any row.
pub proof fn lemma_total_blen_split(lines: Seq<Seq<char>>, i: int)
    requires
        0 <= i <= lines.len(),
    ensures
        total_blen(lines) == total_blen(lines.take(i)) + total_blen(lines.skip(i)),
{
    assert(lines =~= lines.take(i) + lines.skip(i));
    lemma_total_blen_concat(lines.take(i), lines.skip(i));
}

/// The byte length of one row is part of the total from that row on.
pub proof fn lemma_total_blen_row(lines: Seq<Seq<char>>, i: int)
    requires
        0 <= i < lines.len(),
    ensures
        total_blen(lines) >= total_blen(lines.take(i)) + str_blen(lines[i]),
{
    lemma_total_blen_split(lines, i);
    let rest = lines.skip(i);
    assert(rest[0] == lines[i]);
    assert(total_blen(rest) == str_blen(rest[0]) + total_blen(rest.drop_first()));
}

/// Two distinct rows together hold no more bytes than the whole document.
pub proof fn lemma_two_rows_bound(lines: Seq<Seq<char>>, i: int, j: int)
    requires
        0 <= i < j < lines.len(),
    ensures
        str_blen(lines[i]) + str_blen(lines[j]) <= total_blen(lines),
{
    lemma_total_blen_split(lines, j);
    lemma_total_blen_row(lines, j);
    lemma_total_blen_row(lines.take(j), i);
    assert(lines.take(j)[i] == lines[i]);
}

/// Dropping the rows between two indices never grows the total.
pub proof fn lemma_take_skip_bound(lines: Seq<Seq<char>>, i: int, j: int)
    requires
        0 <= i <= j <= lines.len(),
    ensures
        total_blen(lines.take(i)) + total_blen(lines.skip(j)) <= total_blen(lines),
{
    lemma_total_blen_split(lines, j);
    lemma_total_blen_split(lines.take(j), i);
    assert(lines.take(j).take(i) =~= lines.take(i));
}

/// The position of the first newline in a character sequence, or its
/// length when it has none.
pub open spec fn first_nl(s: Seq<char>) -> nat
    decreases s.len(),
{
    if s.len() == 0 {
        0
    } else if s[0] == '\n' {
        0
    } else {
        1 + first_nl(s.drop_first())
    }
}

/// What `first_nl` finds: no newline before it, one at it if in range.
pub proof fn lemma_first_nl(s: Seq<char>)
    ensures
        0 <= first_nl(s) <= s.len(),
        forall|j: int| 0 <= j < first_nl(s) ==> s[j] != '\n',
        first_nl(s) < s.len() ==> s[first_nl(s) as int] == '\n',
    decreases s.len(),
{
    if s.len() == 0 {
    } else if s[0] == '\n' {
    } else {
        lemma_first_nl(s.drop_first());
        assert forall|j: int| 0 <= j < first_nl(s) implies s[j] != '\n' by {
            if j > 0 {
                assert(s[j] == s.drop_first()[j - 1]);
            }
        }
        if first_nl(s) < s.len() {
            assert(s[first_nl(s) as int] == s.drop_first()[first_nl(s) as int - 1]);
        }
    }
}

/// A sequence with a newline-free prefix of length `k` followed by a
/// newline has its first newline exactly at `k`.
pub proof fn lemma_first_nl_at(s: Seq<char>, k: int)
    requires
        0 <= k < s.len(),
        forall|j: int| 0 <= j < k ==> s[j] != '\n',
        s[k] == '\n',
    ensures
        first_nl(s) == k,
    decreases k,
{
    if k == 0 {
    } else {
        assert(s[0] != '\n');
        assert forall|j: int| 0 <= j < k - 1 implies s.drop_first()[j] != '\n' by {
            assert(s.drop_first()[j] == s[j + 1]);
        }
        assert(s.drop_first()[k - 1] == s[k]);
        lemma_first_nl_at(s.drop_first(), k - 1);
    }
}

/// A sequence without any newline has `first_nl` equal to its length.
pub proof fn lemma_first_nl_none(s: Seq<char>)
    requires
        forall|j: int| 0 <= j < s.len() ==> s[j] != '\n',
    ensures
        first_nl(s) == s.len(),
    decreases s.len(),
{
    if s.len() > 0 {
        assert forall|j: int| 0 <= j < s.drop_first().len() implies s.drop_first()[j] != '\n' by {
            assert(s.drop_first()[j] == s[j + 1]);
        }
        lemma_first_nl_none(s.drop_first());
    }
}

/// A well-formed stored line: nonempty, ends with a newline, and holds no
/// other newline.
pub open spec fn line_ok(l: Seq<char>) -> bool {
    &&& l.len() >= 1
    &&& l[l.len() - 1] == '\n'
    &&& forall|j: int| 0 <= j < l.len() - 1 ==> l[j] != '\n'
}

/// Splits a text into stored lines: each segment before a newline, with a
/// carriage return dropped ahead of the terminator, gets the newline back;
/// a last unterminated segment gets one added.
pub open spec fn split_relines(s: Seq<char>) -> Seq<Seq<char>>
    decreases s.len(),
{
    if s.len() == 0 {
        Seq::empty()
    } else {
        let i = first_nl(s) as int;
        if i >= s.len() {
            seq![s.push('\n')]
        } else {
            let seg = s.take(i);
            let core = if seg.len() > 0 && seg[seg.len() - 1] == '\r' {
                seg.take(seg.len() - 1)
            } else {
                seg
            };
            seq![core.push('\n')] + split_relines(s.skip(i + 1))
        }
    }
}

/// Every line the splitter produces is well formed.
pub proof fn lemma_split_relines_ok(s: Seq<char>)
    ensures
        forall|i: int|
            0 <= i < split_relines(s).len() ==> #[trigger] line_ok(split_relines(s)[i]),
    decreases s.len(),
{
    lemma_first_nl(s);
    if s.len() == 0 {
    } else {
        let i = first_nl(s) as int;
        if i >= s.len() {
            let l = s.push('\n');
            assert(line_ok(l)) by {
                assert(forall|j: int| 0 <= j < l.len() - 1 ==> l[j] == s[j]);
            }
        } else {
            let seg = s.take(i);
            let core = if seg.len() > 0 && seg[seg.len() - 1] == '\r' {
                seg.take(seg.len() - 1)
            } else {
                seg
            };
            let l = core.push('\n');
            assert(line_ok(l)) by {
                assert(forall|j: int| 0 <= j < core.len() ==> core[j] == s[j]);
            }
            lemma_split_relines_ok(s.skip(i + 1));
            assert forall|k: int|
                0 <= k < split_relines(s).len() implies #[trigger] line_ok(
                split_relines(s)[k],
            ) by {
                if k == 0 {
                } else {
                    assert(split_relines(s)[k] == split_relines(s.skip(i + 1))[k - 1]);
                }
            }
        }
    }
}

/// The stored newline terminator is a single byte.
pub proof fn lemma_nl_blen()
    ensures
        str_blen(seq!['\n']) == 1,
{
    lemma_str_blen_first(seq!['\n']);
    assert(seq!['\n'].drop_first() =~= Seq::<char>::empty());
    assert(encode_utf8(Seq::<char>::empty()) =~= Seq::<u8>::empty());
    assert(char_blen('\n') == 1);
}

/// The split lines hold at most one byte more than the text itself.
pub proof fn lemma_split_relines_blen(s: Seq<char>)
    ensures
        total_blen(split_relines(s)) <= str_blen(s) + 1,
    decreases s.len(),
{
    lemma_first_nl(s);
    if s.len() == 0 {
    } else {
        let i = first_nl(s) as int;
        if i >= s.len() {
            let l = s.push('\n');
            assert(l =~= s + seq!['\n']);
            lemma_str_blen_concat(s, seq!['\n']);
            assert(str_blen(seq!['\n']) == 1) by {
                lemma_nl_blen();
            }
            assert(total_blen(seq![l]) == str_blen(l)) by {
                assert(seq![l][0] == l);
                assert(seq![l].drop_first() =~= Seq::<Seq<char>>::empty());
                assert(total_blen(seq![l]) == str_blen(seq![l][0]) + total_blen(
                    seq![l].drop_first(),
                ));
            }
        } else {
            let seg = s.take(i);
            let core = if seg.len() > 0 && seg[seg.len() - 1] == '\r' {
                seg.take(seg.len() - 1)
            } else {
                seg
            };
            let l = core.push('\n');
            let rest = s.skip(i + 1);
            lemma_split_relines_blen(rest);
            lemma_total_blen_concat(seq![l], split_relines(rest));
            assert(total_blen(seq![l]) == str_blen(l)) by {
                assert(seq![l][0] == l);
                assert(seq![l].drop_first() =~= Seq::<Seq<char>>::empty());
                assert(total_blen(seq![l]) == str_blen(seq![l][0]) + total_blen(
                    seq![l].drop_first(),
                ));
            }
            // str_blen(l) <= str_blen(seg) + 1
            assert(l =~= core + seq!['\n']);
            lemma_str_blen_concat(core, seq!['\n']);
            assert(str_blen(seq!['\n']) == 1) by {
                lemma_nl_blen();
            }
            if core.len() < seg.len() {
                lemma_str_blen_take(seg, core.len() as int);
            }
            // s = seg + [nl] + rest
            assert(s =~= seg + seq![s[i]] + rest);
            lemma_str_blen_concat(seg + seq![s[i]], rest);
            lemma_str_blen_concat(seg, seq![s[i]]);
            assert(str_blen(seq![s[i]]) == char_blen(s[i])) by {
                lemma_str_blen_first(seq![s[i]]);
                assert(seq![s[i]].drop_first() =~= Seq::<char>::empty());
                assert(encode_utf8(Seq::<char>::empty()) =~= Seq::<u8>::empty());
            }
            assert(char_blen('\n') == 1);
        }
    }
}

/// One stored line of the document: its characters, including the
/// trailing newline; lines combine by concatenation.
pub struct Line {
    chars: Vec<char>,
}

impl View for Line {
    type V = Seq<char>;

    closed spec fn view(&self) -> Seq<char> {
        self.chars@
    }
}

impl Line {
    /// Wraps a character vector as a line.
    pub fn from_chars(chars: Vec<char>) -> (r: Line)
        ensures
            r@ == chars@,
    {
        Line { chars }
    }

    /// The empty line.
    pub fn empty() -> (r: Line)
        ensures
            r@ == Seq::<char>::empty(),
    {
        Line { chars: Vec::new() }
    }

    /// The number of characters in the line.
    pub fn len(&self) -> (r: usize)
        ensures
            r == self@.len(),
    {
        self.chars.len()
    }

    /// The character at a position.
    pub fn char_at(&self, i: usize) -> (c: char)
        requires
            i < self@.len(),
        ensures
            c == self@[i as int],
    {
        self.chars[i]
    }

    /// Appends one character.
    pub fn push_char(&mut self, c: char)
        ensures
            final(self)@ == old(self)@.push(c),
    {
        self.chars.push(c);
    }

    /// Appends the characters of a slice of another line.
    pub fn push_range(&mut self, other: &Line, from: usize, to: usize)
        requires
            from <= to <= other@.len(),
        ensures
            final(self)@ == old(self)@ + other@.subrange(from as int, to as int),
    {
        let mut i = from;
        while i < to
            invariant
                from <= i <= to <= other@.len(),
                self@ == old(self)@ + other@.subrange(from as int, i as int),
            decreases to - i,
        {
            let c = other.chars[i];
            self.chars.push(c);
            proof {
                assert(self@ =~= old(self)@ + other@.subrange(from as int, i + 1));
            }
            i += 1;
        }
        proof {
            assert(self@ =~= old(self)@ + other@.subrange(from as int, to as int));
        }
    }
}

impl Aggregate for Line {
    open spec fn m_id() -> Seq<char> {
        Seq::empty()
    }

    open spec fn m_op(a: Seq<char>, b: Seq<char>) -> Seq<char> {
        a + b
    }

    proof fn lemma_m_assoc(a: Seq<char>, b: Seq<char>, c: Seq<char>) {
        assert((a + b) + c =~= a + (b + c));
    }

    proof fn lemma_m_id(a: Seq<char>) {
        assert(a + Seq::<char>::empty() =~= a);
        assert(Seq::<char>::empty() + a =~= a);
    }

    fn identity() -> (r: Line) {
        Line { chars: Vec::new() }
    }

    fn combine(&self, other: &Line) -> (r: Line) {
        let mut out = Line { chars: Vec::new() };
        let n = self.chars.len();
        let m = other.chars.len();
        out.push_range(self, 0, n);
        out.push_range(other, 0, m);
        proof {
            assert(out@ =~= self@ + other@);
        }
        out
    }

    fn copy_value(&self) -> (r: Line) {
        let mut out = Line { chars: Vec::new() };
        let n = self.chars.len();
        out.push_range(self, 0, n);
        proof {
            assert(out@ =~= self@);
        }
        out
    }
}

/// The characters of a string slice, in order.
pub fn str_chars(s: &str) -> (r: Vec<char>)
    ensures
        r@ == s@,
{
    let n = s.unicode_len();
    let mut v: Vec<char> = Vec::new();
    let mut i: usize = 0;
    while i < n
        invariant
            i <= n,
            n == s@.len(),
            v@ == s@.take(i as int),
        decreases n - i,
    {
        let c = s.get_char(i);
        v.push(c);
        proof {
            assert(v@ =~= s@.take(i + 1));
        }
        i += 1;
    }
    proof {
        assert(v@ =~= s@);
    }
    v
}

/// Relies on std's `FromIterator` for `String`: collects the characters
/// into a string holding exactly them.
#[verifier::external_body]
pub fn chars_to_string(v: &Vec<char>) -> (r: String)
    ensures
        r@ == v@,
{
    v.iter().collect()
}

} // verus!
