//! The structure of a document's stored full text: the description split
//! into headings and paragraphs, the claims split into claims with their
//! references to other claims. Offsets are UTF-16 code units into the
//! section's text, the unit the webview's strings and selections use.
use vstd::prelude::*;
use crate::text::{
    alpha, alphabetic, ascii_space, chars_of, lower_all, decimal, digits_in, parse_u32_exec, trim_end_index, is_alpha, is_ascii_space, lower_seq, parse_u32, trim_end, decimal_chars, digit, find_char, find_char_exec, is_alphabetic,
    is_digit, is_uppercase, lemma_find_char, lemma_split_on_nonempty, lemma_utf16_bounds,
    lemma_utf16_concat, lemma_utf16_sub, only_digits, slice_vec, split_chars, split_on, string_of,
    trim, trim_bounds, trim_start, trim_start_index, uppercase, utf16_count, utf16_range, views,
    white_space,
};

verus! {

/// Longest line still taken for a heading when it has no paragraph number.
pub const MAX_HEADING_LEN: usize = 120;

#[derive(Debug, Clone, PartialEq, Eq)]
pub enum BlockKind {
    Heading,
    Paragraph,
    Claim,
}

#[derive(Debug, Clone, PartialEq, Eq)]
pub struct ClaimRef {
    pub start: usize,
    pub end: usize,
    pub claim: u32,
}

#[derive(Debug, Clone, PartialEq, Eq)]
pub struct Block {
    pub kind: BlockKind,
    /// Paragraph number without brackets (`0001`) or claim number (`1`);
    /// none for headings and unnumbered paragraphs.
    pub label: Option<String>,
    pub start: usize,
    pub end: usize,
    /// Claims only: the earlier claims this one refers to, ascending.
    pub depends_on: Vec<u32>,
    /// Claims only: the spans of text that name another claim.
    pub claim_refs: Vec<ClaimRef>,
}

/// A block over character sequences.
pub struct BlockModel {
    pub kind: BlockKind,
    pub label: Option<Seq<char>>,
    pub start: int,
    pub end: int,
    pub depends_on: Seq<u32>,
    pub claim_refs: Seq<ClaimRef>,
}

pub open spec fn label_view(l: Option<String>) -> Option<Seq<char>> {
    match l {
        Some(s) => Some(s@),
        None => None,
    }
}

impl View for Block {
    type V = BlockModel;

    open spec fn view(&self) -> BlockModel {
        BlockModel {
            kind: self.kind,
            label: label_view(self.label),
            start: self.start as int,
            end: self.end as int,
            depends_on: self.depends_on@,
            claim_refs: self.claim_refs@,
        }
    }
}

pub open spec fn blocks_view(bs: Seq<Block>) -> Seq<BlockModel> {
    bs.map_values(|b: Block| b@)
}

/// The UTF-16 spans of the lines (split on `\n`), each line's end being
/// followed by one unit of line break.
pub open spec fn line_spans(lines: Seq<Seq<char>>) -> Seq<(int, int)>
    decreases lines.len(),
{
    if lines.len() == 0 {
        Seq::empty()
    } else {
        let s = line_spans(lines.drop_last());
        let start = if s.len() == 0 {
            0
        } else {
            s.last().1 + 1
        };
        s.push((start, start + utf16_count(lines.last())))
    }
}

pub proof fn lemma_line_spans(lines: Seq<Seq<char>>)
    ensures
        line_spans(lines).len() == lines.len(),
        lines.len() > 0 ==> line_spans(lines)[0].0 == 0,
        forall|k: int| 0 <= k < lines.len() ==> 0 <= #[trigger] line_spans(lines)[k].0 && line_spans(lines)[k].1
            == line_spans(lines)[k].0 + utf16_count(lines[k]),
        forall|k: int, m: int| 0 <= k < m < lines.len() ==> #[trigger] line_spans(lines)[k].1 < #[trigger] line_spans(lines)[m].0,
    decreases lines.len(),
{
    if lines.len() > 0 {
        let d = lines.drop_last();
        lemma_line_spans(d);
        let s = line_spans(d);
        let r = line_spans(lines);
        let n = lines.len() - 1;
        assert(r == s.push(r[n]));
        assert forall|k: int| 0 <= k < lines.len() implies 0 <= #[trigger] r[k].0 && r[k].1 == r[k].0 + utf16_count(lines[k]) by {
            if k < n {
                assert(r[k] == s[k]);
                assert(lines[k] == d[k]);
                assert(0 <= s[k].0 && s[k].1 == s[k].0 + utf16_count(d[k]));
            } else {
                assert(lines[k] == lines.last());
                if s.len() > 0 {
                    assert(0 <= s[n - 1].0 && s[n - 1].1 == s[n - 1].0 + utf16_count(d[n - 1]));
                }
            }
        }
        assert forall|k: int, m: int| 0 <= k < m < lines.len() implies #[trigger] r[k].1 < #[trigger] r[m].0 by {
            assert(r[k] == s[k]);
            if m < n {
                assert(r[m] == s[m]);
                assert(s[k].1 < s[m].0);
            } else if k < n - 1 {
                assert(s[k].1 < s[n - 1].0);
                assert(s[n - 1].0 <= s[n - 1].1);
            }
        }
    }
}

/// The spans of the lines of `s` end at the UTF-16 length of `s`.
pub proof fn lemma_line_spans_total(s: Seq<char>)
    ensures
        line_spans(split_on(s, '\n')).len() >= 1,
        line_spans(split_on(s, '\n')).last().1 == utf16_count(s),
    decreases s.len(),
{
    lemma_split_on_nonempty(s, '\n');
    lemma_line_spans(split_on(s, '\n'));
    if s.len() > 0 {
        let d = s.drop_last();
        lemma_line_spans_total(d);
        lemma_split_on_nonempty(d, '\n');
        let p = split_on(d, '\n');
        if s.last() != '\n' {
            let u = p.update(p.len() - 1, p.last().push(s.last()));
            assert(u.drop_last() =~= p.drop_last());
            lemma_utf16_concat(p.last(), seq![s.last()]);
            assert(p.last().push(s.last()) =~= p.last() + seq![s.last()]);
            assert(utf16_count(seq![s.last()]) == crate::text::unit_len(s.last())) by {
                assert(seq![s.last()].drop_last() =~= Seq::<char>::empty());
                assert(seq![s.last()].last() == s.last());
                assert(utf16_count(Seq::<char>::empty()) == 0);
            }
            if p.len() > 1 {
                assert(line_spans(p).last().0 == line_spans(p.drop_last()).last().1 + 1);
            }
        } else {
            assert(p.push(Seq::empty()).drop_last() =~= p);
            assert((s.last() as u32) < 0x10000);
        }
    }
}

/// A numbered paragraph's number: a line starting (after whitespace) with
/// `[`, digits and `]`.
pub open spec fn paragraph_number(line: Seq<char>) -> Option<Seq<char>> {
    let t = trim_start(line);
    if t.len() == 0 || t[0] != '[' {
        None
    } else {
        let rest = t.drop_first();
        match find_char(rest, ']') {
            None => None,
            Some(c) => {
                let n = rest.take(c);
                if n.len() > 0 && only_digits(n) {
                    Some(n)
                } else {
                    None
                }
            },
        }
    }
}

/// Whether the first alphabetic character of `t` exists and is uppercase.
pub open spec fn first_alpha_upper(t: Seq<char>) -> bool
    decreases t.len(),
{
    if t.len() == 0 {
        false
    } else if alphabetic(t[0]) {
        uppercase(t[0])
    } else {
        first_alpha_upper(t.drop_first())
    }
}

/// A heading: a short line (at most 120 characters once trimmed) that does
/// not end like a sentence and whose first letter is a capital.
pub open spec fn looks_like_heading(line: Seq<char>) -> bool {
    let t = trim(line);
    t.len() <= MAX_HEADING_LEN && !(t.len() > 0 && (t.last() == '.' || t.last() == ',' || t.last() == ';'))
        && first_alpha_upper(t)
}

pub open spec fn is_blank(line: Seq<char>) -> bool {
    trim(line).len() == 0
}

/// The description blocks of the lines with their spans: one per
/// non-blank line.
pub open spec fn description_model_of(lines: Seq<Seq<char>>, spans: Seq<(int, int)>) -> Seq<BlockModel>
    decreases lines.len(),
{
    if lines.len() == 0 {
        Seq::empty()
    } else {
        let prev = description_model_of(lines.drop_last(), spans.take(lines.len() - 1));
        let l = lines.last();
        let sp = spans[lines.len() - 1];
        if is_blank(l) {
            prev
        } else {
            let (kind, label) = match paragraph_number(l) {
                Some(n) => (BlockKind::Paragraph, Some(n)),
                None => if looks_like_heading(l) {
                    (BlockKind::Heading, None)
                } else {
                    (BlockKind::Paragraph, None)
                },
            };
            prev.push(BlockModel { kind, label, start: sp.0, end: sp.1, depends_on: Seq::empty(), claim_refs: Seq::empty() })
        }
    }
}

pub open spec fn description_model(text: Seq<char>) -> Seq<BlockModel> {
    let lines = split_on(text, '\n');
    description_model_of(lines, line_spans(lines))
}

/// The lines of the text with their UTF-16 spans.
fn lines(text: &[char]) -> (r: (Vec<Vec<char>>, Vec<(usize, usize)>))
    requires
        utf16_count(text@) < usize::MAX,
    ensures
        views(r.0@) == split_on(text@, '\n'),
        r.1@.len() == r.0@.len(),
        forall|k: int| 0 <= k < r.1@.len() ==> (#[trigger] r.1@[k]).0 as int == line_spans(split_on(text@, '\n'))[k].0
            && r.1@[k].1 as int == line_spans(split_on(text@, '\n'))[k].1,
{
    let pieces = split_chars(text, '\n');
    let ghost ls = views(pieces@);
    let ghost sp = line_spans(ls);
    proof {
        lemma_line_spans_total(text@);
        lemma_line_spans(ls);
    }
    let mut spans: Vec<(usize, usize)> = Vec::new();
    let mut pos: usize = 0;
    let mut i: usize = 0;
    while i < pieces.len()
        invariant
            i <= pieces.len(),
            ls == views(pieces@),
            sp == line_spans(ls),
            sp.len() == ls.len(),
            ls.len() >= 1,
            sp.last().1 == utf16_count(text@),
            utf16_count(text@) < usize::MAX,
            forall|k: int| 0 <= k < ls.len() ==> 0 <= #[trigger] sp[k].0 && sp[k].1 == sp[k].0 + utf16_count(ls[k]),
            forall|k: int, m: int| 0 <= k < m < ls.len() ==> #[trigger] sp[k].1 < #[trigger] sp[m].0,
            spans@.len() == i,
            i < pieces.len() ==> pos == sp[i as int].0,
            forall|k: int| 0 <= k < i ==> (#[trigger] spans@[k]).0 as int == sp[k].0 && spans@[k].1 as int == sp[k].1,
        decreases pieces.len() - i,
    {
        proof {
            if i + 1 < ls.len() {
                assert(sp[i as int].1 < sp[ls.len() - 1].0);
            }
            assert(sp[i as int].1 <= sp.last().1);
            assert(ls[i as int] == pieces@[i as int]@);
            lemma_utf16_bounds(ls[i as int]);
        }
        let piece_len = pieces[i].len();
        let len = utf16_range(pieces[i].as_slice(), 0, piece_len);
        assert(pieces@[i as int]@.subrange(0, piece_len as int) =~= pieces@[i as int]@);
        spans.push((pos, pos + len));
        proof {
            if i + 1 < ls.len() {
                let t = ls.take(i + 2);
                assert(t.drop_last() =~= ls.take(i + 1));
            }
        }
        pos = pos + len + 1;
        i += 1;
        proof {
            if i < ls.len() {
                lemma_span_next(ls, i as int);
            }
        }
    }
    (pieces, spans)
}

proof fn lemma_span_next(ls: Seq<Seq<char>>, i: int)
    requires
        0 < i < ls.len(),
    ensures
        line_spans(ls)[i].0 == line_spans(ls)[i - 1].1 + 1,
    decreases ls.len(),
{
    lemma_line_spans(ls);
    if i < ls.len() - 1 {
        lemma_span_next(ls.drop_last(), i);
        lemma_line_spans(ls.drop_last());
        assert(line_spans(ls)[i] == line_spans(ls.drop_last())[i]);
        assert(line_spans(ls)[i - 1] == line_spans(ls.drop_last())[i - 1]);
    }
}

/// The length of `s` in UTF-16 code units.
pub fn utf16_len(s: &str) -> (r: usize)
    requires
        utf16_count(s@) <= usize::MAX,
    ensures
        r == utf16_count(s@),
{
    let v = chars_of(s);
    assert(v@.subrange(0, v@.len() as int) =~= v@);
    utf16_range(v.as_slice(), 0, v.len())
}


/// The paragraph number of a line, as `paragraph_number` says.
fn paragraph_number_exec(line: &[char]) -> (r: Option<Vec<char>>)
    ensures
        match (r, paragraph_number(line@)) {
            (Some(v), Some(n)) => v@ == n,
            (None, None) => true,
            _ => false,
        },
{
    let len = line.len();
    let a = trim_start_index(line, 0, len);
    assert(line@.subrange(0, len as int) =~= line@);
    if a == len || line[a] != '[' {
        return None;
    }
    let ghost t = line@.subrange(a as int, len as int);
    assert(t.drop_first() =~= line@.subrange(a + 1, len as int));
    match find_char_exec(line, a + 1, len, ']') {
        None => None,
        Some(c) => {
            proof {
                lemma_find_char(t.drop_first(), ']');
            }
            assert(t.drop_first().take(c as int) =~= line@.subrange(a + 1, a + 1 + c));
            if c > 0 && digits_in(line, a + 1, a + 1 + c) {
                Some(slice_vec(line, a + 1, a + 1 + c))
            } else {
                None
            }
        },
    }
}

/// Whether a line reads as a heading, as `looks_like_heading` says.
fn looks_like_heading_exec(line: &[char]) -> (r: bool)
    ensures
        r == looks_like_heading(line@),
{
    let (a, b) = trim_bounds(line, 0, line.len());
    assert(line@.subrange(0, line.len() as int) =~= line@);
    if b - a > MAX_HEADING_LEN {
        return false;
    }
    if b > a && (line[b - 1] == '.' || line[b - 1] == ',' || line[b - 1] == ';') {
        return false;
    }
    assert(b > a ==> line@.subrange(a as int, b as int).last() == line@[b - 1]);
    assert(looks_like_heading(line@) == first_alpha_upper(line@.subrange(a as int, b as int)));
    let mut i = a;
    while i < b
        invariant
            a <= i <= b <= line.len(),
            looks_like_heading(line@) == first_alpha_upper(line@.subrange(i as int, b as int)),
        decreases b - i,
    {
        assert(line@.subrange(i as int, b as int)[0] == line@[i as int]);
        if is_alphabetic(line[i]) {
            assert(first_alpha_upper(line@.subrange(i as int, b as int)) == uppercase(line@[i as int]));
            return is_uppercase(line[i]);
        }
        assert(line@.subrange(i as int, b as int).drop_first() =~= line@.subrange(i + 1, b as int));
        i += 1;
    }
    false
}

/// The description, one block per non-blank line (`fulltext` stores one
/// paragraph or heading per line). A line starting with `[0001]` is a
/// numbered paragraph; an unnumbered line is a heading when it is short,
/// starts with a capital letter and does not end like a sentence, and a
/// paragraph otherwise.
#[verifier::rlimit(30)]
pub fn description_blocks(text: &str) -> (r: Vec<Block>)
    requires
        utf16_count(text@) < usize::MAX,
    ensures
        blocks_view(r@) == description_model(text@),
{
    let chars = chars_of(text);
    let (ls, spans) = lines(chars.as_slice());
    let ghost lines_s = split_on(text@, '\n');
    let ghost sp = line_spans(lines_s);
    proof {
        lemma_line_spans(lines_s);
    }
    let mut out: Vec<Block> = Vec::new();
    let mut i: usize = 0;
    while i < ls.len()
        invariant
            i <= ls.len(),
            views(ls@) == lines_s,
            sp == line_spans(lines_s),
            spans@.len() == ls@.len(),
            sp.len() == lines_s.len(),
            forall|k: int| 0 <= k < spans@.len() ==> (#[trigger] spans@[k]).0 as int == sp[k].0 && spans@[k].1 as int
                == sp[k].1,
            blocks_view(out@) == description_model_of(lines_s.take(i as int), sp.take(i as int)),
        decreases ls.len() - i,
    {
        let line = ls[i].as_slice();
        let ghost before = out@;
        proof {
            assert(lines_s.take(i + 1).drop_last() =~= lines_s.take(i as int));
            assert(sp.take(i + 1).take(i as int) =~= sp.take(i as int));
            assert(lines_s.take(i + 1).last() == line@);
            assert(sp.take(i + 1)[i as int] == sp[i as int]);
        }
        let (a, b) = trim_bounds(line, 0, line.len());
        assert(line@.subrange(0, line.len() as int) =~= line@);
        if a < b {
            let (kind, label) = match paragraph_number_exec(line) {
                Some(n) => (BlockKind::Paragraph, Some(string_of(n.as_slice()))),
                None => if looks_like_heading_exec(line) {
                    (BlockKind::Heading, None)
                } else {
                    (BlockKind::Paragraph, None)
                },
            };
            let (start, end) = spans[i];
            let block = Block { kind, label, start, end, depends_on: Vec::new(), claim_refs: Vec::new() };
            out.push(block);
            assert(blocks_view(out@) =~= blocks_view(before).push(block@));
        }
        i += 1;
    }
    assert(lines_s.take(ls.len() as int) =~= lines_s);
    assert(sp.take(ls.len() as int) =~= sp);
    out
}


// ---------------------------------------------------------------------------
// Claims
// ---------------------------------------------------------------------------

/// Whether the word `w` stands in `s` at `pos`.
pub open spec fn word_at(s: Seq<char>, pos: int, w: Seq<char>) -> bool {
    0 <= pos && pos + w.len() <= s.len() && s.subrange(pos, pos + w.len()) == w
}

pub open spec fn ends_with(t: Seq<char>, w: Seq<char>) -> bool {
    w.len() <= t.len() && word_at(t, t.len() - w.len(), w)
}

/// The first position at or after `pos` that is not ASCII whitespace.
pub open spec fn skip_spaces(s: Seq<char>, pos: int) -> int
    decreases s.len() - pos,
{
    if 0 <= pos < s.len() && is_ascii_space(s[pos]) {
        skip_spaces(s, pos + 1)
    } else {
        pos
    }
}

/// The end of the run of ASCII digits that starts at `pos`.
pub open spec fn digits_end(s: Seq<char>, pos: int) -> int
    decreases s.len() - pos,
{
    if 0 <= pos < s.len() && is_digit(s[pos]) {
        digits_end(s, pos + 1)
    } else {
        pos
    }
}

pub proof fn lemma_skip_spaces(s: Seq<char>, pos: int)
    requires
        0 <= pos <= s.len(),
    ensures
        pos <= skip_spaces(s, pos) <= s.len(),
    decreases s.len() - pos,
{
    if pos < s.len() && is_ascii_space(s[pos]) {
        lemma_skip_spaces(s, pos + 1);
    }
}

pub proof fn lemma_digits_end(s: Seq<char>, pos: int)
    requires
        0 <= pos <= s.len(),
    ensures
        pos <= digits_end(s, pos) <= s.len(),
        only_digits(s.subrange(pos, digits_end(s, pos))),
    decreases s.len() - pos,
{
    if pos < s.len() && is_digit(s[pos]) {
        lemma_digits_end(s, pos + 1);
        let e = digits_end(s, pos);
        assert forall|i: int| 0 <= i < e - pos implies is_digit(#[trigger] s.subrange(pos, e)[i]) by {
            if i > 0 {
                assert(s.subrange(pos, e)[i] == s.subrange(pos + 1, e)[i - 1]);
            }
        }
    }
}

/// The claim number a line opens with: digits after leading whitespace,
/// followed by `.` or `)`.
pub open spec fn claim_number(line: Seq<char>) -> Option<u32> {
    let t = trim_start(line);
    let d = digits_end(t, 0);
    if d == 0 || !(d < t.len() && (t[d] == '.' || t[d] == ')')) {
        None
    } else {
        parse_u32(t.take(d))
    }
}

/// The numbers `from..=to`.
pub open spec fn range_set(from: int, to: int) -> Set<u32> {
    Set::new(|x: u32| from <= x <= to)
}

/// The numbers of `s` a claim numbered `own` may depend on: the earlier
/// ones; all of them for an unnumbered block.
pub open spec fn allowed(own: Option<u32>, s: Set<u32>) -> Set<u32> {
    match own {
        Some(o) => s.filter(|n: u32| n < o),
        None => s,
    }
}

pub open spec fn word_to() -> Seq<char> {
    seq!['t', 'o']
}

pub open spec fn word_or() -> Seq<char> {
    seq!['o', 'r']
}

pub open spec fn word_and() -> Seq<char> {
    seq!['a', 'n', 'd']
}

pub open spec fn word_claim() -> Seq<char> {
    seq!['c', 'l', 'a', 'i', 'm']
}

/// A reference span in UTF-16 units: the characters `a..e` of `line`,
/// which starts at `base` in the whole text.
pub open spec fn ref_span(line: Seq<char>, base: int, a: int, e: int, n: u32) -> (int, int, u32) {
    (base + utf16_count(line.take(a)), base + utf16_count(line.take(e)), n)
}

/// The references of a list of claim numbers that starts at `pos` of
/// `line`: each number, then a separator (`to`, `-` or an en dash for a
/// range; `,`, `or` or `and` for another item) before the next one. The
/// first number's span starts at `span_from` (the word "claim"), the
/// others at the number. Returns the spans and the claims depended on.
pub open spec fn number_list(
    line: Seq<char>,
    base: int,
    pos: int,
    span_from: Option<int>,
    range_from: Option<u32>,
) -> (Seq<(int, int, u32)>, Set<u32>)
    decreases line.len() - pos,
{
    let low = lower_seq(line);
    if pos < 0 || pos > line.len() {
        (Seq::empty(), Set::empty())
    } else {
        let s = skip_spaces(low, pos);
        let e = digits_end(low, s);
        match parse_u32(low.subrange(s, e)) {
            None => (Seq::empty(), Set::empty()),
            Some(n) => {
                let a = match span_from {
                    Some(a) => a,
                    None => s,
                };
                let deps = match range_from {
                    Some(f) => if f < n {
                        range_set(f as int, n as int)
                    } else {
                        set![n]
                    },
                    None => set![n],
                };
                let nx = skip_spaces(low, e);
                let (go_on, next, rf) = if word_at(low, nx, word_to()) {
                    (true, nx + 2, Some(n))
                } else if word_at(low, nx, seq!['-']) || word_at(low, nx, seq!['\u{2013}']) {
                    (true, nx + 1, Some(n))
                } else if word_at(low, nx, seq![',']) {
                    (true, nx + 1, None)
                } else if word_at(low, nx, word_or()) {
                    (true, nx + 2, None)
                } else if word_at(low, nx, word_and()) {
                    (true, nx + 3, None)
                } else {
                    (false, nx, None)
                };
                let this = ref_span(line, base, a, e, n);
                if go_on {
                    proof {
                        assert(low.len() == line.len());
                        lemma_skip_spaces(low, pos);
                        lemma_digits_end(low, s);
                        lemma_skip_spaces(low, e);
                        assert(low.subrange(s, e).len() > 0);
                        assert(pos < next <= line.len());
                    }
                    let rest = number_list(line, base, next, None, rf);
                    (seq![this] + rest.0, deps.union(rest.1))
                } else {
                    (seq![this], deps)
                }
            },
        }
    }
}

/// Whether the words just before "claims" say "the preceding", "the
/// foregoing", "the previous" or "the above".
pub open spec fn all_earlier(before: Seq<char>) -> bool {
    let t = trim_end(before);
    ends_with(t, seq!['p', 'r', 'e', 'c', 'e', 'd', 'i', 'n', 'g']) || ends_with(
        t,
        seq!['f', 'o', 'r', 'e', 'g', 'o', 'i', 'n', 'g'],
    ) || ends_with(t, seq!['p', 'r', 'e', 'v', 'i', 'o', 'u', 's']) || ends_with(t, seq!['a', 'b', 'o', 'v', 'e'])
}

/// The references to other claims in `line` from position `from` on,
/// matching the word "claim" in any case: `claim 1`, `claims 1 or 2`,
/// `claims 1 to 3`, `claims 1-3`, `any one of claims 1, 2 and 5`, and
/// `any of the preceding claims` (every earlier claim, with no span).
/// "claimed" and words ending in "claim" are no references.
pub open spec fn scan_refs(line: Seq<char>, base: int, from: int, own: Option<u32>) -> (
    Seq<(int, int, u32)>,
    Set<u32>,
)
    decreases line.len() - from,
{
    let low = lower_seq(line);
    if from < 0 || from >= line.len() {
        (Seq::empty(), Set::empty())
    } else if !word_at(low, from, word_claim()) {
        scan_refs(line, base, from + 1, own)
    } else {
        let rest = scan_refs(line, base, from + 5, own);
        let after = from + 5;
        let pos = if after < low.len() && low[after] == 's' {
            after + 1
        } else {
            after
        };
        if from > 0 && is_alpha(low[from - 1]) {
            rest
        } else if pos < low.len() && is_alpha(low[pos]) {
            rest
        } else if all_earlier(low.take(from)) {
            let every = match own {
                Some(o) => range_set(1, o - 1),
                None => Set::empty(),
            };
            (rest.0, every.union(rest.1))
        } else {
            let l = number_list(line, base, pos, Some(from), None);
            (l.0 + rest.0, l.1.union(rest.1))
        }
    }
}

/// A claim block in the making: its number, span, reference spans and the
/// claims it names.
pub struct ClaimModel {
    pub own: Option<u32>,
    pub start: int,
    pub end: int,
    pub refs: Seq<(int, int, u32)>,
    pub deps: Set<u32>,
}

/// The claim blocks of the lines with their spans. A line that opens with a
/// claim number starts a block; any other non-blank line continues the
/// previous block (or starts an unnumbered one when there is none yet).
pub open spec fn claims_of(lines: Seq<Seq<char>>, spans: Seq<(int, int)>) -> Seq<ClaimModel>
    decreases lines.len(),
{
    if lines.len() == 0 {
        Seq::empty()
    } else {
        let prev = claims_of(lines.drop_last(), spans.take(lines.len() - 1));
        let l = lines.last();
        let sp = spans[lines.len() - 1];
        if is_blank(l) {
            prev
        } else {
            let num = claim_number(l);
            let joins = num is None && prev.len() > 0;
            let cur = if joins {
                ClaimModel {
                    own: prev.last().own,
                    start: prev.last().start,
                    end: sp.1,
                    refs: prev.last().refs,
                    deps: prev.last().deps,
                }
            } else {
                ClaimModel { own: num, start: sp.0, end: sp.1, refs: Seq::empty(), deps: Set::empty() }
            };
            let found = scan_refs(l, sp.0, 0, cur.own);
            let base = if joins {
                prev.drop_last()
            } else {
                prev
            };
            base.push(
                ClaimModel {
                    own: cur.own,
                    start: cur.start,
                    end: cur.end,
                    refs: cur.refs + found.0,
                    deps: cur.deps.union(found.1),
                },
            )
        }
    }
}

pub open spec fn claim_model(text: Seq<char>) -> Seq<ClaimModel> {
    let lines = split_on(text, '\n');
    claims_of(lines, line_spans(lines))
}

pub open spec fn ascending(s: Seq<u32>) -> bool {
    forall|i: int, j: int| 0 <= i < j < s.len() ==> s[i] < s[j]
}

pub open spec fn refs_view(r: Seq<ClaimRef>) -> Seq<(int, int, u32)> {
    r.map_values(|c: ClaimRef| (c.start as int, c.end as int, c.claim))
}

pub open spec fn claim_label(own: Option<u32>) -> Option<Seq<char>> {
    match own {
        Some(n) => Some(decimal(n as nat)),
        None => None,
    }
}

/// Whether `b` is the block that the model `m` describes.
pub open spec fn claim_block_matches(b: Block, m: ClaimModel) -> bool {
    &&& b.kind == BlockKind::Claim
    &&& label_view(b.label) == claim_label(m.own)
    &&& b.start == m.start
    &&& b.end == m.end
    &&& refs_view(b.claim_refs@) == m.refs
    &&& ascending(b.depends_on@)
    &&& b.depends_on@.to_set() == allowed(m.own, m.deps)
}


fn skip_spaces_exec(s: &[char], pos: usize) -> (r: usize)
    requires
        pos <= s.len(),
    ensures
        r == skip_spaces(s@, pos as int),
{
    let mut i = pos;
    while i < s.len() && ascii_space(s[i])
        invariant
            pos <= i <= s.len(),
            skip_spaces(s@, pos as int) == skip_spaces(s@, i as int),
        decreases s.len() - i,
    {
        i += 1;
    }
    i
}

fn digits_end_exec(s: &[char], pos: usize) -> (r: usize)
    requires
        pos <= s.len(),
    ensures
        r == digits_end(s@, pos as int),
{
    let mut i = pos;
    while i < s.len() && digit(s[i])
        invariant
            pos <= i <= s.len(),
            digits_end(s@, pos as int) == digits_end(s@, i as int),
        decreases s.len() - i,
    {
        i += 1;
    }
    i
}

pub fn word_at_exec(s: &[char], pos: usize, w: &[char]) -> (r: bool)
    ensures
        r == word_at(s@, pos as int, w@),
{
    if pos > s.len() || w.len() > s.len() - pos {
        return false;
    }
    let mut k: usize = 0;
    while k < w.len()
        invariant
            pos + w.len() <= s.len(),
            k <= w.len(),
            forall|j: int| 0 <= j < k ==> s@[pos + j] == w@[j],
        decreases w.len() - k,
    {
        if s[pos + k] != w[k] {
            assert(s@.subrange(pos as int, pos + w.len())[k as int] != w@[k as int]);
            return false;
        }
        k += 1;
    }
    assert(s@.subrange(pos as int, pos + w.len()) =~= w@);
    true
}

fn ends_with_exec(s: &[char], to: usize, w: &[char]) -> (r: bool)
    requires
        to <= s.len(),
    ensures
        r == ends_with(s@.take(to as int), w@),
{
    if w.len() > to {
        return false;
    }
    let r = word_at_exec(s, to - w.len(), w);
    assert(r == word_at(s@.take(to as int), to - w.len(), w@)) by {
        if to - w.len() + w.len() <= to {
            assert(s@.take(to as int).subrange(to - w.len(), to as int) =~= s@.subrange(
                to - w.len(),
                to as int,
            ));
        }
    }
    r
}

/// The claim number a line opens with, as `claim_number` says.
fn claim_number_exec(line: &[char]) -> (r: Option<u32>)
    ensures
        r == claim_number(line@),
{
    let a = trim_start_index(line, 0, line.len());
    assert(line@.subrange(0, line.len() as int) =~= line@);
    let t = slice_vec(line, a, line.len());
    let d = digits_end_exec(t.as_slice(), 0);
    if d == 0 || !(d < t.len() && (t[d] == '.' || t[d] == ')')) {
        return None;
    }
    proof {
        lemma_digits_end(t@, 0);
    }
    assert(t@.take(d as int) =~= t@.subrange(0, d as int));
    parse_u32_exec(t.as_slice(), 0, d)
}

/// Whether the text of `low[..at]` ends with "preceding", "foregoing",
/// "previous" or "above" once trailing whitespace is dropped.
fn all_earlier_exec(low: &[char], at: usize) -> (r: bool)
    requires
        at <= low.len(),
    ensures
        r == all_earlier(low@.take(at as int)),
{
    let b = trim_end_index(low, 0, at);
    assert(low@.subrange(0, at as int) =~= low@.take(at as int));
    assert(low@.subrange(0, b as int) =~= low@.take(b as int));
    let r = ends_with_exec(low, b, &['p', 'r', 'e', 'c', 'e', 'd', 'i', 'n', 'g']) || ends_with_exec(
        low,
        b,
        &['f', 'o', 'r', 'e', 'g', 'o', 'i', 'n', 'g'],
    ) || ends_with_exec(low, b, &['p', 'r', 'e', 'v', 'i', 'o', 'u', 's']) || ends_with_exec(
        low,
        b,
        &['a', 'b', 'o', 'v', 'e'],
    );
    assert(['p', 'r', 'e', 'c', 'e', 'd', 'i', 'n', 'g']@ =~= seq!['p', 'r', 'e', 'c', 'e', 'd', 'i', 'n', 'g']);
    assert(['f', 'o', 'r', 'e', 'g', 'o', 'i', 'n', 'g']@ =~= seq!['f', 'o', 'r', 'e', 'g', 'o', 'i', 'n', 'g']);
    assert(['p', 'r', 'e', 'v', 'i', 'o', 'u', 's']@ =~= seq!['p', 'r', 'e', 'v', 'i', 'o', 'u', 's']);
    assert(['a', 'b', 'o', 'v', 'e']@ =~= seq!['a', 'b', 'o', 'v', 'e']);
    r
}


/// Adds `x` to an ascending list of claim numbers, unless it is there.
fn insert_sorted(v: &mut Vec<u32>, x: u32)
    requires
        ascending(old(v)@),
    ensures
        ascending(final(v)@),
        final(v)@.to_set() == old(v)@.to_set().insert(x),
{
    let mut i: usize = 0;
    while i < v.len() && v[i] < x
        invariant
            i <= v.len(),
            forall|k: int| 0 <= k < i ==> v@[k] < x,
        decreases v.len() - i,
    {
        i += 1;
    }
    if i < v.len() && v[i] == x {
        assert(v@.to_set().insert(x) =~= v@.to_set());
        return;
    }
    let ghost old_v = v@;
    v.insert(i, x);
    proof {
        old_v.insert_ensures(i as int, x);
        let n = v@;
        assert forall|p: int, q: int| 0 <= p < q < n.len() implies n[p] < n[q] by {
            if q < i {
            } else if q == i {
            } else if p < i {
                assert(old_v[q - 1] >= old_v[i as int] || q - 1 == i);
            } else if p == i {
                assert(old_v[q - 1] >= old_v[i as int]);
            } else {
            }
        }
        assert forall|y: u32| n.to_set().contains(y) <==> old_v.to_set().insert(x).contains(y) by {
            if n.to_set().contains(y) {
                let k = choose|k: int| 0 <= k < n.len() && n[k] == y;
                if k < i {
                    assert(old_v[k] == y);
                } else if k > i {
                    assert(old_v[k - 1] == y);
                }
            }
            if old_v.to_set().contains(y) {
                let k = choose|k: int| 0 <= k < old_v.len() && old_v[k] == y;
                if k < i {
                    assert(n[k] == y);
                } else {
                    assert(n[k + 1] == y);
                }
            }
            if y == x {
                assert(n[i as int] == x);
            }
        }
        assert(n.to_set() =~= old_v.to_set().insert(x));
    }
}

/// Records that the claim depends on claim `x`, when `x` may be depended
/// on by a claim numbered `own`.
fn add_dependency(v: &mut Vec<u32>, own: Option<u32>, x: u32)
    requires
        ascending(old(v)@),
    ensures
        ascending(final(v)@),
        final(v)@.to_set() == old(v)@.to_set().union(allowed(own, set![x])),
{
    let ok = match own {
        Some(o) => x < o,
        None => true,
    };
    if ok {
        insert_sorted(v, x);
        assert(allowed(own, set![x]) =~= set![x]);
        assert(old(v)@.to_set().insert(x) =~= old(v)@.to_set().union(set![x]));
    } else {
        assert(allowed(own, set![x]) =~= Set::empty());
        assert(old(v)@.to_set().union(Set::empty()) =~= old(v)@.to_set());
    }
}

/// Records that the claim depends on the claims `from..=to`, those of them
/// that a claim numbered `own` may depend on.
fn add_range(v: &mut Vec<u32>, own: Option<u32>, from: u32, to: u32)
    requires
        ascending(old(v)@),
    ensures
        ascending(final(v)@),
        final(v)@.to_set() == old(v)@.to_set().union(allowed(own, range_set(from as int, to as int))),
{
    if own == Some(0u32) || from > to {
        assert(allowed(own, range_set(from as int, to as int)) =~= Set::empty());
        assert(old(v)@.to_set().union(Set::empty()) =~= old(v)@.to_set());
        return;
    }
    let hi: u64 = match own {
        Some(o) => if (o as u64) <= (to as u64) {
            (o as u64) - 1
        } else {
            to as u64
        },
        None => to as u64,
    };
    let ghost target = old(v)@.to_set().union(allowed(own, range_set(from as int, to as int)));
    assert(hi + 1 <= u32::MAX + 1);
    if (from as u64) > hi {
        assert(allowed(own, range_set(from as int, to as int)) =~= Set::empty());
        assert(old(v)@.to_set().union(Set::empty()) =~= old(v)@.to_set());
        return;
    }
    assert(range_set(from as int, from - 1) =~= Set::empty());
    assert(old(v)@.to_set().union(Set::empty()) =~= old(v)@.to_set());
    let mut x: u64 = from as u64;
    while x <= hi
        invariant
            from <= x <= hi + 1,
            hi <= to,
            hi + 1 <= u32::MAX + 1,
            own is Some ==> hi < own->0,
            own is Some ==> (own->0 <= to ==> hi + 1 == own->0),
            own is Some ==> (own->0 > to ==> hi == to),
            own is None ==> hi == to,
            ascending(v@),
            target == old(v)@.to_set().union(allowed(own, range_set(from as int, to as int))),
            v@.to_set() == old(v)@.to_set().union(range_set(from as int, x - 1)),
        decreases hi + 1 - x,
    {
        let ghost before = v@.to_set();
        insert_sorted(v, x as u32);
        assert(v@.to_set() =~= old(v)@.to_set().union(range_set(from as int, x as int)));
        x = x + 1;
    }
    assert(allowed(own, range_set(from as int, to as int)) =~= range_set(from as int, hi as int));
}


pub proof fn lemma_allowed_union(own: Option<u32>, a: Set<u32>, b: Set<u32>)
    ensures
        allowed(own, a.union(b)) == allowed(own, a).union(allowed(own, b)),
{
    assert(allowed(own, a.union(b)) =~= allowed(own, a).union(allowed(own, b)));
}

pub open spec fn opt_int(o: Option<usize>) -> Option<int> {
    match o {
        Some(a) => Some(a as int),
        None => None,
    }
}

/// Appends the references of the list of claim numbers at `pos`, as
/// `number_list` says.
#[verifier::rlimit(30)]
fn number_list_exec(
    refs: &mut Vec<ClaimRef>,
    deps: &mut Vec<u32>,
    own: Option<u32>,
    line: &[char],
    low: &[char],
    base: usize,
    pos: usize,
    span_from: Option<usize>,
    range_from: Option<u32>,
)
    requires
        low@ == lower_seq(line@),
        pos <= line.len(),
        base + utf16_count(line@) <= usize::MAX,
        ascending(old(deps)@),
        span_from matches Some(a) ==> a <= line.len(),
    ensures
        refs_view(final(refs)@) == refs_view(old(refs)@) + number_list(
            line@,
            base as int,
            pos as int,
            opt_int(span_from),
            range_from,
        ).0,
        ascending(final(deps)@),
        final(deps)@.to_set() == old(deps)@.to_set().union(
            allowed(own, number_list(line@, base as int, pos as int, opt_int(span_from), range_from).1),
        ),
    decreases line.len() - pos,
{
    let ghost spec_low = lower_seq(line@);
    assert(spec_low.len() == line@.len());
    let s = skip_spaces_exec(low, pos);
    proof {
        lemma_skip_spaces(low@, pos as int);
    }
    let e = digits_end_exec(low, s);
    proof {
        lemma_digits_end(low@, s as int);
    }
    let ghost whole = number_list(line@, base as int, pos as int, opt_int(span_from), range_from);
    match parse_u32_exec(low, s, e) {
        None => {
            assert(refs_view(refs@) + Seq::<(int, int, u32)>::empty() =~= refs_view(refs@));
            assert(allowed(own, Set::<u32>::empty()) =~= Set::empty());
            assert(deps@.to_set().union(Set::empty()) =~= deps@.to_set());
        },
        Some(n) => {
            let a = match span_from {
                Some(a) => a,
                None => s,
            };
            proof {
                lemma_utf16_sub(line@, 0, a as int);
                lemma_utf16_sub(line@, 0, e as int);
                assert(line@.subrange(0, a as int) =~= line@.take(a as int));
                assert(line@.subrange(0, e as int) =~= line@.take(e as int));
            }
            let ua = utf16_range(line, 0, a);
            let ue = utf16_range(line, 0, e);
            let ghost refs0 = refs@;
            let ghost deps0 = deps@.to_set();
            refs.push(ClaimRef { start: base + ua, end: base + ue, claim: n });
            let ghost this = ref_span(line@, base as int, a as int, e as int, n);
            assert(refs_view(refs@) =~= refs_view(refs0).push(this));
            let ghost d = match range_from {
                Some(f) => if f < n {
                    range_set(f as int, n as int)
                } else {
                    set![n]
                },
                None => set![n],
            };
            match range_from {
                Some(f) => {
                    if f < n {
                        add_range(deps, own, f, n);
                    } else {
                        add_dependency(deps, own, n);
                    }
                },
                None => {
                    add_dependency(deps, own, n);
                },
            }
            assert(deps@.to_set() == deps0.union(allowed(own, d)));
            let nx = skip_spaces_exec(low, e);
            proof {
                lemma_skip_spaces(low@, e as int);
                assert(['t', 'o']@ =~= word_to());
                assert(['o', 'r']@ =~= word_or());
                assert(['a', 'n', 'd']@ =~= word_and());
                assert(['-']@ =~= seq!['-']);
                assert(['\u{2013}']@ =~= seq!['\u{2013}']);
                assert([',']@ =~= seq![',']);
            }
            let (go_on, next, rf): (bool, usize, Option<u32>) = if word_at_exec(low, nx, &['t', 'o']) {
                (true, nx + 2, Some(n))
            } else if word_at_exec(low, nx, &['-']) || word_at_exec(low, nx, &['\u{2013}']) {
                (true, nx + 1, Some(n))
            } else if word_at_exec(low, nx, &[',']) {
                (true, nx + 1, None)
            } else if word_at_exec(low, nx, &['o', 'r']) {
                (true, nx + 2, None)
            } else if word_at_exec(low, nx, &['a', 'n', 'd']) {
                (true, nx + 3, None)
            } else {
                (false, nx, None)
            };
            if go_on {
                let ghost refs1 = refs@;
                let ghost deps1 = deps@.to_set();
                number_list_exec(refs, deps, own, line, low, base, next, None, rf);
                proof {
                    let rest = number_list(line@, base as int, next as int, None, rf);
                    assert(whole.0 == seq![this] + rest.0);
                    assert(whole.1 == d.union(rest.1));
                    assert(refs_view(refs@) =~= refs_view(refs0) + whole.0);
                    lemma_allowed_union(own, d, rest.1);
                    assert(deps@.to_set() =~= deps0.union(allowed(own, whole.1)));
                }
            } else {
                assert(whole.0 == seq![this]);
                assert(whole.1 == d);
                assert(refs_view(refs@) =~= refs_view(refs0) + whole.0);
            }
        },
    }
}


/// Adds to `block` the references that `line` (starting at `base` in the
/// whole text) makes to other claims, as `scan_refs` says; a claim numbered
/// `own` keeps only the earlier claims among its dependencies. The
/// references it had stay first and unchanged, each added one lies within
/// the line, and the block's kind, label and span stay as they were.
pub fn add_references(block: &mut Block, own: Option<u32>, line: &[char], base: usize)
    requires
        ascending(old(block).depends_on@),
        base + utf16_count(line@) <= usize::MAX,
    ensures
        final(block).kind == old(block).kind,
        final(block).label == old(block).label,
        final(block).start == old(block).start,
        final(block).end == old(block).end,
        refs_view(final(block).claim_refs@) == refs_view(old(block).claim_refs@) + scan_refs(
            line@,
            base as int,
            0,
            own,
        ).0,
        ascending(final(block).depends_on@),
        final(block).depends_on@.to_set() == old(block).depends_on@.to_set().union(
            allowed(own, scan_refs(line@, base as int, 0, own).1),
        ),
        forall|k: int|
            old(block).claim_refs@.len() <= k < final(block).claim_refs@.len() ==> within_line(
                #[trigger] refs_view(final(block).claim_refs@)[k],
                line@,
                base as int,
            ),
        final(block).claim_refs@.len() == old(block).claim_refs@.len() + scan_refs(line@, base as int, 0, own).0.len(),
        forall|k: int| 0 <= k < old(block).claim_refs@.len() ==> #[trigger] final(block).claim_refs@[k] == old(
            block,
        ).claim_refs@[k],
        forall|n: u32|
            own == Some(n) && (forall|i: int| 0 <= i < old(block).depends_on@.len() ==> #[trigger] old(
                block,
            ).depends_on@[i] < n) ==> forall|i: int|
                0 <= i < final(block).depends_on@.len() ==> #[trigger] final(block).depends_on@[i] < n,
{
    proof {
        law_claim_references_lie_within_their_line(line@, base as int, own);
    }
    let low = lower_all(line);
    let ghost all = scan_refs(line@, base as int, 0, own);
    let ghost refs0 = refs_view(block.claim_refs@);
    let ghost deps0 = block.depends_on@.to_set();
    assert(low@.len() == line@.len());
    assert(refs_view(block.claim_refs@) + scan_refs(line@, base as int, 0, own).0 == refs0 + all.0);
    let mut from: usize = 0;
    while from < low.len()
        invariant
            low@ == lower_seq(line@),
            low@.len() == line@.len(),
            from <= line.len(),
            base + utf16_count(line@) <= usize::MAX,
            all == scan_refs(line@, base as int, 0, own),
            block.kind == old(block).kind,
            block.label == old(block).label,
            block.start == old(block).start,
            block.end == old(block).end,
            refs0 == refs_view(old(block).claim_refs@),
            deps0 == old(block).depends_on@.to_set(),
            refs_view(block.claim_refs@) + scan_refs(line@, base as int, from as int, own).0 == refs0 + all.0,
            ascending(block.depends_on@),
            block.depends_on@.to_set().union(allowed(own, scan_refs(line@, base as int, from as int, own).1))
                == deps0.union(allowed(own, all.1)),
        decreases line.len() - from,
    {
        let ghost here = scan_refs(line@, base as int, from as int, own);
        let ghost refs1 = refs_view(block.claim_refs@);
        let ghost deps1 = block.depends_on@.to_set();
        assert(['c', 'l', 'a', 'i', 'm']@ =~= word_claim());
        if !word_at_exec(low.as_slice(), from, &['c', 'l', 'a', 'i', 'm']) {
            assert(here == scan_refs(line@, base as int, from + 1, own));
            from += 1;
            continue;
        }
        let at = from;
        from = at + 5;
        let ghost rest = scan_refs(line@, base as int, from as int, own);
        if at > 0 && alpha(low[at - 1]) {
            assert(here == rest);
            continue;
        }
        let mut pos = at + 5;
        if pos < low.len() && low[pos] == 's' {
            pos += 1;
        }
        if pos < low.len() && alpha(low[pos]) {
            assert(here == rest);
            continue;
        }
        if all_earlier_exec(low.as_slice(), at) {
            let ghost every = match own {
                Some(o) => range_set(1, o - 1),
                None => Set::<u32>::empty(),
            };
            assert(here == (rest.0, every.union(rest.1)));
            match own {
                Some(o) => {
                    if o > 0 {
                        add_range(&mut block.depends_on, own, 1, o - 1);
                    } else {
                        assert(allowed(own, every) =~= Set::empty());
                        assert(deps1.union(Set::empty()) =~= deps1);
                    }
                },
                None => {
                    assert(allowed(own, every) =~= Set::empty());
                    assert(deps1.union(Set::empty()) =~= deps1);
                },
            }
            proof {
                lemma_allowed_union(own, every, rest.1);
                assert(block.depends_on@.to_set().union(allowed(own, rest.1)) =~= deps1.union(
                    allowed(own, here.1),
                ));
            }
            continue;
        }
        let ghost l = number_list(line@, base as int, pos as int, Some(at as int), None);
        assert(here == (l.0 + rest.0, l.1.union(rest.1)));
        assert(opt_int(Some(at)) == Some(at as int));
        number_list_exec(
            &mut block.claim_refs,
            &mut block.depends_on,
            own,
            line,
            low.as_slice(),
            base,
            pos,
            Some(at),
            None,
        );
        proof {
            assert(refs_view(block.claim_refs@) + rest.0 =~= refs1 + here.0);
            lemma_allowed_union(own, l.1, rest.1);
            assert(block.depends_on@.to_set().union(allowed(own, rest.1)) =~= deps1.union(allowed(own, here.1)));
        }
    }
    proof {
        assert(scan_refs(line@, base as int, from as int, own).0 =~= Seq::<(int, int, u32)>::empty());
        assert(refs_view(block.claim_refs@) + Seq::<(int, int, u32)>::empty() =~= refs_view(block.claim_refs@));
        assert(allowed(own, Set::<u32>::empty()) =~= Set::empty());
        assert(block.depends_on@.to_set().union(Set::empty()) =~= block.depends_on@.to_set());
        let ghost oldr = old(block).claim_refs@;
        let ghost newr = block.claim_refs@;
        let ghost extra = scan_refs(line@, base as int, 0, own).0;
        assert(refs_view(newr) == refs_view(oldr) + extra);
        assert(refs_view(newr).len() == newr.len() && refs_view(oldr).len() == oldr.len());
        assert forall|k: int| 0 <= k < oldr.len() implies #[trigger] newr[k] == oldr[k] by {
            assert(refs_view(newr)[k] == refs_view(oldr)[k]);
        }
        assert forall|n: u32|
            own == Some(n) && (forall|i: int| 0 <= i < old(block).depends_on@.len() ==> #[trigger] old(
                block,
            ).depends_on@[i] < n) implies forall|i: int|
                0 <= i < block.depends_on@.len() ==> #[trigger] block.depends_on@[i] < n by {
            assert forall|i: int| 0 <= i < block.depends_on@.len() implies #[trigger] block.depends_on@[i] < n by {
                let d = block.depends_on@[i];
                assert(block.depends_on@.to_set().contains(d));
                if old(block).depends_on@.to_set().contains(d) {
                    let j = choose|j: int| 0 <= j < old(block).depends_on@.len() && old(block).depends_on@[j] == d;
                    assert(old(block).depends_on@[j] < n);
                }
            }
        }
    }
}


/// The claims, one block per claim. A line starting with a number followed
/// by `.` or `)` opens a claim; any other non-blank line continues the
/// previous one (text before the first numbered line forms an unnumbered
/// block). Each claim lists the earlier claims it refers to, ascending and
/// without repeats, and the spans of text that name another claim.
#[verifier::rlimit(40)]
pub fn claim_blocks(text: &str) -> (r: Vec<Block>)
    requires
        utf16_count(text@) < usize::MAX,
    ensures
        r@.len() == claim_model(text@).len(),
        forall|k: int| 0 <= k < r@.len() ==> claim_block_matches(#[trigger] r@[k], claim_model(text@)[k]),
{
    let chars = chars_of(text);
    let (ls, spans) = lines(chars.as_slice());
    let ghost lines_s = split_on(text@, '\n');
    let ghost sp = line_spans(lines_s);
    proof {
        lemma_line_spans(lines_s);
        lemma_line_spans_total(text@);
        assert forall|k: int| 0 <= k < sp.len() implies #[trigger] sp[k].1 <= utf16_count(text@) by {
            if k < sp.len() - 1 {
                assert(sp[k].1 < sp[sp.len() - 1].0);
            }
        }
    }
    let mut blocks: Vec<Block> = Vec::new();
    let mut owns: Vec<Option<u32>> = Vec::new();
    let mut i: usize = 0;
    while i < ls.len()
        invariant
            i <= ls.len(),
            views(ls@) == lines_s,
            lines_s == split_on(text@, '\n'),
            sp == line_spans(lines_s),
            spans@.len() == ls@.len(),
            sp.len() == lines_s.len(),
            utf16_count(text@) < usize::MAX,
            forall|k: int| 0 <= k < spans@.len() ==> (#[trigger] spans@[k]).0 as int == sp[k].0 && spans@[k].1 as int
                == sp[k].1,
            forall|k: int| 0 <= k < sp.len() ==> 0 <= #[trigger] sp[k].0 && sp[k].1 == sp[k].0 + utf16_count(lines_s[k]),
            forall|k: int| 0 <= k < sp.len() ==> #[trigger] sp[k].1 <= utf16_count(text@),
            blocks@.len() == claims_of(lines_s.take(i as int), sp.take(i as int)).len(),
            owns@.len() == blocks@.len(),
            forall|k: int| 0 <= k < blocks@.len() ==> claim_block_matches(#[trigger] blocks@[k], claims_of(lines_s.take(i as int), sp.take(i as int))[k]),
            forall|k: int| 0 <= k < owns@.len() ==> #[trigger] owns@[k] == claims_of(lines_s.take(i as int), sp.take(i as int))[k].own,
        decreases ls.len() - i,
    {
        let line = ls[i].as_slice();
        let ghost prev = claims_of(lines_s.take(i as int), sp.take(i as int));
        let ghost now = claims_of(lines_s.take(i + 1), sp.take(i + 1));
        proof {
            assert(lines_s.take(i + 1).drop_last() =~= lines_s.take(i as int));
            assert(sp.take(i + 1).take(i as int) =~= sp.take(i as int));
            assert(lines_s.take(i + 1).last() == line@);
            assert(sp.take(i + 1)[i as int] == sp[i as int]);
        }
        let (a, b) = trim_bounds(line, 0, line.len());
        assert(line@.subrange(0, line.len() as int) =~= line@);
        if a == b {
            assert(now == prev);
            i += 1;
            continue;
        }
        let number = claim_number_exec(line);
        let (start, end) = spans[i];
        let joins = number.is_none() && blocks.len() > 0;
        proof {
            if blocks@.len() > 0 {
                let last = blocks@.len() - 1;
                assert(claim_block_matches(blocks@[last], prev[last]));
                assert(owns@[last] == prev[last].own);
                assert(prev.last() == prev[last]);
            }
        }
        let (mut block, own) = if joins {
            let mut b = blocks.pop().unwrap();
            let o = owns.pop().unwrap();
            b.end = end;
            assert(refs_view(b.claim_refs@) == prev.last().refs);
            (b, o)
        } else {
            let label = match number {
                Some(n) => Some(string_of(decimal_chars(n as u64).as_slice())),
                None => None,
            };
            let b = Block {
                kind: BlockKind::Claim,
                label,
                start,
                end,
                depends_on: Vec::new(),
                claim_refs: Vec::new(),
            };
            assert(b.depends_on@.to_set() =~= Set::<u32>::empty());
            assert(allowed(number, Set::<u32>::empty()) =~= Set::<u32>::empty());
            assert(refs_view(b.claim_refs@) =~= Seq::<(int, int, u32)>::empty());
            (b, number)
        };
        let ghost kept = blocks@;
        let ghost cur = if joins {
            ClaimModel {
                own: prev.last().own,
                start: prev.last().start,
                end: sp[i as int].1,
                refs: prev.last().refs,
                deps: prev.last().deps,
            }
        } else {
            ClaimModel { own: number, start: sp[i as int].0, end: sp[i as int].1, refs: Seq::empty(), deps: Set::empty() }
        };
        assert(own == cur.own);
        assert(claim_block_matches(block, cur));
        proof {
            assert(sp[i as int].1 <= utf16_count(text@));
            assert(lines_s[i as int] == line@);
        }
        let ghost found = scan_refs(line@, start as int, 0, own);
        let ghost deps_before = block.depends_on@.to_set();
        add_references(&mut block, own, line, start);
        proof {
            lemma_allowed_union(own, cur.deps, found.1);
        }
        let ghost made = ClaimModel {
            own: cur.own,
            start: cur.start,
            end: cur.end,
            refs: cur.refs + found.0,
            deps: cur.deps.union(found.1),
        };
        assert(claim_block_matches(block, made));
        blocks.push(block);
        owns.push(own);
        proof {
            let base = if joins {
                prev.drop_last()
            } else {
                prev
            };
            assert(now == base.push(made));
            assert forall|k: int| 0 <= k < blocks@.len() implies claim_block_matches(#[trigger] blocks@[k], now[k])
                && owns@[k] == now[k].own by {
                if k < blocks@.len() - 1 {
                    assert(blocks@[k] == kept[k]);
                    assert(now[k] == prev[k]);
                }
            }
        }
        i += 1;
    }
    assert(lines_s.take(ls.len() as int) =~= lines_s);
    assert(sp.take(ls.len() as int) =~= sp);
    blocks
}

/// Spans in text order within `0..=bound`: each starts no later than it
/// ends, and ends before the next one starts.
pub open spec fn spans_in_order(spans: Seq<(int, int)>, bound: int) -> bool {
    &&& forall|k: int| 0 <= k < spans.len() ==> 0 <= (#[trigger] spans[k]).0 <= spans[k].1 <= bound
    &&& forall|j: int, k: int| 0 <= j < k < spans.len() ==> (#[trigger] spans[j]).1 < (#[trigger] spans[k]).0
}

pub open spec fn block_spans_of(m: Seq<BlockModel>) -> Seq<(int, int)> {
    m.map_values(|b: BlockModel| (b.start, b.end))
}

pub open spec fn claim_spans_of(m: Seq<ClaimModel>) -> Seq<(int, int)> {
    m.map_values(|c: ClaimModel| (c.start, c.end))
}

/// The lines of a text have their spans in text order within it.
proof fn lemma_text_line_spans(text: Seq<char>)
    ensures
        spans_in_order(line_spans(split_on(text, '\n')), utf16_count(text) as int),
        line_spans(split_on(text, '\n')).len() == split_on(text, '\n').len(),
{
    let ls = split_on(text, '\n');
    let sp = line_spans(ls);
    lemma_line_spans(ls);
    lemma_line_spans_total(text);
    assert forall|k: int| 0 <= k < sp.len() implies 0 <= (#[trigger] sp[k]).0 <= sp[k].1 <= utf16_count(text) by {
        if k < sp.len() - 1 {
            assert(sp[k].1 < sp[sp.len() - 1].0);
        }
    }
}

proof fn lemma_description_in_order(lines: Seq<Seq<char>>, spans: Seq<(int, int)>, bound: int)
    requires
        spans.len() == lines.len(),
        spans_in_order(spans, bound),
    ensures
        spans_in_order(block_spans_of(description_model_of(lines, spans)), bound),
        description_model_of(lines, spans).len() > 0 ==> lines.len() > 0 && description_model_of(
            lines,
            spans,
        ).last().end <= spans.last().1,
    decreases lines.len(),
{
    if lines.len() > 0 {
        let n = lines.len() - 1;
        let pre = spans.take(n);
        assert(spans_in_order(pre, bound)) by {
            assert forall|j: int, k: int| 0 <= j < k < pre.len() implies (#[trigger] pre[j]).1 < (
            #[trigger] pre[k]).0 by {
                assert(pre[j] == spans[j] && pre[k] == spans[k]);
            }
        }
        lemma_description_in_order(lines.drop_last(), pre, bound);
        let prev = description_model_of(lines.drop_last(), pre);
        let m = description_model_of(lines, spans);
        if prev.len() > 0 {
            assert(spans[n - 1] == pre.last());
            assert(spans[n - 1].1 < spans[n].0);
        }
        assert(spans_in_order(block_spans_of(m), bound)) by {
            let bs = block_spans_of(m);
            let pb = block_spans_of(prev);
            if m.len() > prev.len() {
                assert forall|k: int| 0 <= k < bs.len() implies 0 <= (#[trigger] bs[k]).0 <= bs[k].1 <= bound by {
                    if k < pb.len() {
                        assert(bs[k] == pb[k]);
                    } else {
                        assert(bs[k] == spans[n]);
                    }
                }
                assert forall|j: int, k: int| 0 <= j < k < bs.len() implies (#[trigger] bs[j]).1 < (
                #[trigger] bs[k]).0 by {
                    assert(bs[j] == pb[j]);
                    if k < pb.len() {
                        assert(bs[k] == pb[k]);
                    } else {
                        assert(bs[k] == spans[n]);
                        assert(pb[pb.len() - 1] == (prev.last().start, prev.last().end));
                        if j < pb.len() - 1 {
                            assert(pb[j].1 < pb[pb.len() - 1].0);
                        }
                    }
                }
            } else {
                assert(bs =~= pb);
            }
        }
        if m.len() > 0 && m.len() == prev.len() {
            assert(spans[n - 1].1 <= spans[n].1);
        }
    }
}

/// The description's blocks lie within the text, in text order and
/// without overlapping.
pub proof fn law_description_blocks_in_text_order(text: Seq<char>)
    ensures
        spans_in_order(block_spans_of(description_model(text)), utf16_count(text) as int),
{
    lemma_text_line_spans(text);
    let ls = split_on(text, '\n');
    lemma_description_in_order(ls, line_spans(ls), utf16_count(text) as int);
}

proof fn lemma_claims_in_order(lines: Seq<Seq<char>>, spans: Seq<(int, int)>, bound: int)
    requires
        spans.len() == lines.len(),
        spans_in_order(spans, bound),
    ensures
        spans_in_order(claim_spans_of(claims_of(lines, spans)), bound),
        claims_of(lines, spans).len() > 0 ==> lines.len() > 0 && claims_of(lines, spans).last().end
            <= spans.last().1,
    decreases lines.len(),
{
    if lines.len() > 0 {
        let n = lines.len() - 1;
        let pre = spans.take(n);
        assert(spans_in_order(pre, bound)) by {
            assert forall|j: int, k: int| 0 <= j < k < pre.len() implies (#[trigger] pre[j]).1 < (
            #[trigger] pre[k]).0 by {
                assert(pre[j] == spans[j] && pre[k] == spans[k]);
            }
        }
        lemma_claims_in_order(lines.drop_last(), pre, bound);
        let prev = claims_of(lines.drop_last(), pre);
        let m = claims_of(lines, spans);
        let pb = claim_spans_of(prev);
        let bs = claim_spans_of(m);
        if prev.len() > 0 {
            assert(spans[n - 1] == pre.last());
            assert(spans[n - 1].1 < spans[n].0);
            assert(pb[pb.len() - 1] == (prev.last().start, prev.last().end));
        }
        if is_blank(lines.last()) {
            assert(bs =~= pb);
            if m.len() > 0 {
                assert(spans[n - 1].1 <= spans[n].1);
            }
        } else {
            let joins = claim_number(lines.last()) is None && prev.len() > 0;
            if joins {
                assert(m.len() == prev.len());
                assert forall|k: int| 0 <= k < bs.len() implies 0 <= (#[trigger] bs[k]).0 <= bs[k].1 <= bound by {
                    if k < pb.len() - 1 {
                        assert(bs[k] == pb[k]);
                    } else {
                        assert(bs[k] == (prev.last().start, spans[n].1));
                    }
                }
                assert forall|j: int, k: int| 0 <= j < k < bs.len() implies (#[trigger] bs[j]).1 < (
                #[trigger] bs[k]).0 by {
                    assert(bs[j] == pb[j]);
                    if k < pb.len() - 1 {
                        assert(bs[k] == pb[k]);
                    } else {
                        assert(bs[k] == (prev.last().start, spans[n].1));
                    }
                }
            } else {
                assert(m.len() == prev.len() + 1);
                assert forall|k: int| 0 <= k < bs.len() implies 0 <= (#[trigger] bs[k]).0 <= bs[k].1 <= bound by {
                    if k < pb.len() {
                        assert(bs[k] == pb[k]);
                    } else {
                        assert(bs[k] == spans[n]);
                    }
                }
                assert forall|j: int, k: int| 0 <= j < k < bs.len() implies (#[trigger] bs[j]).1 < (
                #[trigger] bs[k]).0 by {
                    assert(bs[j] == pb[j]);
                    if k < pb.len() {
                        assert(bs[k] == pb[k]);
                    } else {
                        assert(bs[k] == spans[n]);
                        if j < pb.len() - 1 {
                            assert(pb[j].1 < pb[pb.len() - 1].0);
                        }
                    }
                }
            }
        }
    }
}

/// The claims lie within the text, in text order and without overlapping.
pub proof fn law_claim_blocks_in_text_order(text: Seq<char>)
    ensures
        spans_in_order(claim_spans_of(claim_model(text)), utf16_count(text) as int),
{
    lemma_text_line_spans(text);
    let ls = split_on(text, '\n');
    lemma_claims_in_order(ls, line_spans(ls), utf16_count(text) as int);
}

/// A reference span lies within its line, which starts at `base` in the
/// whole text: it starts at or after the line's start, ends after it starts
/// and ends by the line's end.
pub open spec fn within_line(r: (int, int, u32), line: Seq<char>, base: int) -> bool {
    base <= r.0 < r.1 <= base + utf16_count(line)
}

proof fn lemma_number_list_within(line: Seq<char>, base: int, pos: int, span_from: Option<int>, range_from: Option<u32>)
    requires
        match span_from {
            Some(a) => 0 <= a <= pos,
            None => true,
        },
    ensures
        forall|k: int|
            0 <= k < number_list(line, base, pos, span_from, range_from).0.len() ==> within_line(
                #[trigger] number_list(line, base, pos, span_from, range_from).0[k],
                line,
                base,
            ),
    decreases line.len() - pos,
{
    let low = lower_seq(line);
    assert(low.len() == line.len());
    if 0 <= pos <= line.len() {
        let s = skip_spaces(low, pos);
        lemma_skip_spaces(low, pos);
        let e = digits_end(low, s);
        lemma_digits_end(low, s);
        match parse_u32(low.subrange(s, e)) {
            None => {},
            Some(n) => {
                let a = match span_from {
                    Some(a) => a,
                    None => s,
                };
                assert(low.subrange(s, e).len() > 0);
                lemma_utf16_sub(line, a, e);
                lemma_utf16_sub(line, e, e);
                let nx = skip_spaces(low, e);
                lemma_skip_spaces(low, e);
                let (go_on, next, rf) = if word_at(low, nx, word_to()) {
                    (true, nx + 2, Some(n))
                } else if word_at(low, nx, seq!['-']) || word_at(low, nx, seq!['\u{2013}']) {
                    (true, nx + 1, Some(n))
                } else if word_at(low, nx, seq![',']) {
                    (true, nx + 1, None)
                } else if word_at(low, nx, word_or()) {
                    (true, nx + 2, None)
                } else if word_at(low, nx, word_and()) {
                    (true, nx + 3, None)
                } else {
                    (false, nx, None)
                };
                let this = ref_span(line, base, a, e, n);
                assert(within_line(this, line, base));
                let r = number_list(line, base, pos, span_from, range_from);
                if go_on {
                    lemma_number_list_within(line, base, next, None, rf);
                    let rest = number_list(line, base, next, None, rf);
                    assert(r.0 == seq![this] + rest.0);
                    assert forall|k: int| 0 <= k < r.0.len() implies within_line(#[trigger] r.0[k], line, base) by {
                        if k > 0 {
                            assert(r.0[k] == rest.0[k - 1]);
                        }
                    }
                } else {
                    assert(r.0 == seq![this]);
                }
            },
        }
    }
}

proof fn lemma_scan_refs_within(line: Seq<char>, base: int, from: int, own: Option<u32>)
    ensures
        forall|k: int|
            0 <= k < scan_refs(line, base, from, own).0.len() ==> within_line(
                #[trigger] scan_refs(line, base, from, own).0[k],
                line,
                base,
            ),
    decreases line.len() - from,
{
    let low = lower_seq(line);
    assert(low.len() == line.len());
    if 0 <= from < line.len() {
        if !word_at(low, from, word_claim()) {
            lemma_scan_refs_within(line, base, from + 1, own);
            assert(scan_refs(line, base, from, own) == scan_refs(line, base, from + 1, own));
        } else {
            lemma_scan_refs_within(line, base, from + 5, own);
            let rest = scan_refs(line, base, from + 5, own);
            let after = from + 5;
            let pos = if after < low.len() && low[after] == 's' {
                after + 1
            } else {
                after
            };
            let r = scan_refs(line, base, from, own);
            if from > 0 && is_alpha(low[from - 1]) {
                assert(r == rest);
            } else if pos < low.len() && is_alpha(low[pos]) {
                assert(r == rest);
            } else if all_earlier(low.take(from)) {
                assert(r.0 == rest.0);
            } else {
                lemma_number_list_within(line, base, pos, Some(from), None);
                let l = number_list(line, base, pos, Some(from), None);
                assert(r.0 == l.0 + rest.0);
                assert forall|k: int| 0 <= k < r.0.len() implies within_line(#[trigger] r.0[k], line, base) by {
                    if k < l.0.len() {
                        assert(r.0[k] == l.0[k]);
                    } else {
                        assert(r.0[k] == rest.0[k - l.0.len()]);
                    }
                }
            }
        }
    }
}

/// Every reference a line makes to another claim lies within that line.
pub proof fn law_claim_references_lie_within_their_line(line: Seq<char>, base: int, own: Option<u32>)
    ensures
        forall|k: int|
            0 <= k < scan_refs(line, base, 0, own).0.len() ==> within_line(
                #[trigger] scan_refs(line, base, 0, own).0[k],
                line,
                base,
            ),
{
    lemma_scan_refs_within(line, base, 0, own);
}

/// A claim depends only on claims with a lower number, listed once each in
/// ascending order: a reference to a later claim is linked in the text but
/// is no dependency.
pub proof fn law_claims_depend_only_on_earlier_claims(b: Block, m: ClaimModel)
    requires
        claim_block_matches(b, m),
    ensures
        forall|i: int, j: int| 0 <= i < j < b.depends_on@.len() ==> b.depends_on@[i] < b.depends_on@[j],
        m.own matches Some(o) ==> forall|i: int| 0 <= i < b.depends_on@.len() ==> #[trigger] b.depends_on@[i] < o,
{
    if let Some(o) = m.own {
        assert forall|i: int| 0 <= i < b.depends_on@.len() implies #[trigger] b.depends_on@[i] < o by {
            assert(b.depends_on@.to_set().contains(b.depends_on@[i]));
        }
    }
}

} // verus!
