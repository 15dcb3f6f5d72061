//! Local parsing of patent and publication numbers. EP, WO and US forms are
//! handled here; anything else that still looks like a publication number
//! is left for the OPS number service, and anything else is unparseable.
use vstd::prelude::*;
use crate::text::{
    alnum, alpha, chars_of, digit, extend_str, is_alnum, is_alpha, is_digit, lower, lower_seq, slice_vec, string_of, trim,
    trim_end, trim_start, trimmed, upper, upper_all, upper_seq, white_space,
};

verus! {

#[derive(Debug, Clone, PartialEq, Eq)]
pub struct ParsedNumber {
    pub country: String,
    pub number: String,
    pub kind_code: Option<String>,
}

#[derive(Debug, Clone, PartialEq, Eq)]
pub enum ParseOutcome {
    Parsed(ParsedNumber),
    /// Looks like a publication number, but not one of the forms handled
    /// here; the OPS number service has to normalise it.
    NeedsNormalisation(String),
    /// Does not look like a publication number at all.
    Unparseable(String),
}

/// The meaning of a [`ParseOutcome`], over character sequences.
pub enum OutcomeModel {
    Parsed { country: Seq<char>, number: Seq<char>, kind_code: Option<Seq<char>> },
    NeedsNormalisation(Seq<char>),
    Unparseable(Seq<char>),
}

pub open spec fn opt_view(o: Option<String>) -> Option<Seq<char>> {
    match o {
        Some(s) => Some(s@),
        None => None,
    }
}

impl View for ParseOutcome {
    type V = OutcomeModel;

    open spec fn view(&self) -> OutcomeModel {
        match self {
            ParseOutcome::Parsed(p) => OutcomeModel::Parsed {
                country: p.country@,
                number: p.number@,
                kind_code: opt_view(p.kind_code),
            },
            ParseOutcome::NeedsNormalisation(s) => OutcomeModel::NeedsNormalisation(s@),
            ParseOutcome::Unparseable(s) => OutcomeModel::Unparseable(s@),
        }
    }
}

impl ParsedNumber {
    /// Country code plus number, without the kind code.
    pub fn pub_key(&self) -> (r: String)
        ensures
            r@ == self.country@ + self.number@,
    {
        let mut v = chars_of(self.country.as_str());
        extend_str(&mut v, self.number.as_str());
        string_of(v.as_slice())
    }
}

/// The separators tolerated inside a number.
pub open spec fn is_separator(c: char) -> bool {
    c == ' ' || c == '.' || c == '/' || c == ','
}

/// `s` with every separator removed.
pub open spec fn without_separators(s: Seq<char>) -> Seq<char>
    decreases s.len(),
{
    if s.len() == 0 {
        s
    } else if is_separator(s.last()) {
        without_separators(s.drop_last())
    } else {
        without_separators(s.drop_last()).push(s.last())
    }
}

/// How many ASCII letters `s` starts with.
pub open spec fn leading_alpha(s: Seq<char>) -> nat
    decreases s.len(),
{
    if s.len() > 0 && is_alpha(s[0]) {
        1 + leading_alpha(s.drop_first())
    } else {
        0
    }
}

/// Where the run of ASCII digits at the end of `s` starts.
pub open spec fn trailing_digits_start(s: Seq<char>) -> nat
    decreases s.len(),
{
    if s.len() > 0 && is_digit(s.last()) {
        trailing_digits_start(s.drop_last())
    } else {
        s.len()
    }
}

pub open spec fn all_digits(s: Seq<char>) -> bool {
    forall|i: int| 0 <= i < s.len() ==> is_digit(#[trigger] s[i])
}

pub open spec fn all_alnum(s: Seq<char>) -> bool {
    forall|i: int| 0 <= i < s.len() ==> is_alnum(#[trigger] s[i])
}

/// A number followed by an optional kind code: all digits, or digits, one
/// letter and digits, the kind code being the letter and what follows it
/// (upper-cased).
pub open spec fn split_kind(c: Seq<char>) -> Option<(Seq<char>, Option<Seq<char>>)> {
    let t = trailing_digits_start(c) as int;
    if t == 0 {
        if c.len() == 0 {
            None
        } else {
            Some((c, None))
        }
    } else if !is_alpha(c[t - 1]) || t - 1 == 0 || !all_digits(c.take(t - 1)) {
        None
    } else {
        Some((c.take(t - 1), Some(upper_seq(c.skip(t - 1)))))
    }
}

pub open spec fn is_local_country(c: Seq<char>) -> bool {
    c == seq!['E', 'P'] || c == seq!['U', 'S'] || c == seq!['W', 'O']
}

/// What [`parse`] makes of `raw`.
pub open spec fn parse_model(raw: Seq<char>) -> OutcomeModel {
    let t = trim(raw);
    let n = leading_alpha(t);
    let compact = without_separators(t.skip(n as int));
    if t.len() == 0 || n == 0 || compact.len() == 0 || !all_alnum(compact) {
        OutcomeModel::Unparseable(t)
    } else {
        match split_kind(compact) {
            None => OutcomeModel::Unparseable(t),
            Some((number, kind_code)) => if !is_local_country(upper_seq(t.take(n as int))) {
                OutcomeModel::NeedsNormalisation(t)
            } else {
                OutcomeModel::Parsed { country: upper_seq(t.take(n as int)), number, kind_code }
            },
        }
    }
}

proof fn lemma_leading_alpha_bound(s: Seq<char>)
    ensures
        leading_alpha(s) <= s.len(),
        forall|i: int| 0 <= i < leading_alpha(s) ==> is_alpha(#[trigger] s[i]),
    decreases s.len(),
{
    if s.len() > 0 && is_alpha(s[0]) {
        lemma_leading_alpha_bound(s.drop_first());
        assert forall|i: int| 0 <= i < leading_alpha(s) implies is_alpha(#[trigger] s[i]) by {
            if i > 0 {
                assert(s[i] == s.drop_first()[i - 1]);
            }
        }
    }
}

proof fn lemma_trailing_digits(s: Seq<char>)
    ensures
        trailing_digits_start(s) <= s.len(),
        all_digits(s.skip(trailing_digits_start(s) as int)),
        trailing_digits_start(s) > 0 ==> !is_digit(s[trailing_digits_start(s) - 1]),
    decreases s.len(),
{
    if s.len() > 0 && is_digit(s.last()) {
        lemma_trailing_digits(s.drop_last());
        let t = trailing_digits_start(s) as int;
        assert forall|i: int| 0 <= i < s.skip(t).len() implies is_digit(#[trigger] s.skip(t)[i]) by {
            if t + i < s.len() - 1 {
                assert(s.skip(t)[i] == s.drop_last().skip(t)[i]);
            }
        }
    } else {
        assert(s.skip(s.len() as int).len() == 0);
    }
}

fn count_leading_alpha(t: &[char]) -> (n: usize)
    ensures
        n == leading_alpha(t@),
        n <= t.len(),
{
    proof {
        lemma_leading_alpha_bound(t@);
    }
    let mut i: usize = 0;
    assert(t@.skip(0) =~= t@);
    while i < t.len() && alpha(t[i])
        invariant
            i <= t.len(),
            leading_alpha(t@) == i + leading_alpha(t@.skip(i as int)),
        decreases t.len() - i,
    {
        assert(t@.skip(i as int).drop_first() =~= t@.skip(i + 1));
        i += 1;
    }
    i
}

fn remove_separators(t: &[char], from: usize) -> (r: Vec<char>)
    requires
        from <= t.len(),
    ensures
        r@ == without_separators(t@.skip(from as int)),
{
    let mut r: Vec<char> = Vec::new();
    let mut i = from;
    while i < t.len()
        invariant
            from <= i <= t.len(),
            r@ == without_separators(t@.subrange(from as int, i as int)),
        decreases t.len() - i,
    {
        let c = t[i];
        assert(t@.subrange(from as int, i + 1).drop_last() =~= t@.subrange(from as int, i as int));
        if !(c == ' ' || c == '.' || c == '/' || c == ',') {
            r.push(c);
        }
        i += 1;
    }
    assert(t@.subrange(from as int, t.len() as int) =~= t@.skip(from as int));
    r
}

fn all_alnum_exec(c: &[char]) -> (r: bool)
    ensures
        r == all_alnum(c@),
{
    let mut i: usize = 0;
    while i < c.len()
        invariant
            i <= c.len(),
            forall|k: int| 0 <= k < i ==> is_alnum(#[trigger] c@[k]),
        decreases c.len() - i,
    {
        if !alnum(c[i]) {
            return false;
        }
        i += 1;
    }
    true
}

fn all_digits_exec(c: &[char], to: usize) -> (r: bool)
    requires
        to <= c.len(),
    ensures
        r == all_digits(c@.take(to as int)),
{
    let mut i: usize = 0;
    while i < to
        invariant
            i <= to <= c.len(),
            forall|k: int| 0 <= k < i ==> is_digit(#[trigger] c@[k]),
        decreases to - i,
    {
        if !digit(c[i]) {
            assert(c@.take(to as int)[i as int] == c@[i as int]);
            return false;
        }
        i += 1;
    }
    assert forall|k: int| 0 <= k < c@.take(to as int).len() implies is_digit(#[trigger] c@.take(to as int)[k]) by {
        assert(c@.take(to as int)[k] == c@[k]);
    }
    true
}

/// Splits a separator-free number such as `1234567B1` into the number and
/// the kind code (`B1`); `None` when it is not of that shape.
fn split_number_and_kind_code(c: &[char]) -> (r: Option<(Vec<char>, Option<Vec<char>>)>)
    ensures
        match (r, split_kind(c@)) {
            (None, None) => true,
            (Some((n, None)), Some((m, None))) => n@ == m,
            (Some((n, Some(k))), Some((m, Some(l)))) => n@ == m && k@ == l,
            _ => false,
        },
{
    let mut t = c.len();
    assert(c@.take(c@.len() as int) =~= c@);
    while t > 0 && digit(c[t - 1])
        invariant
            t <= c.len(),
            trailing_digits_start(c@) == trailing_digits_start(c@.take(t as int)),
        decreases t,
    {
        assert(c@.take(t as int).drop_last() =~= c@.take(t - 1));
        t -= 1;
    }
    assert(c@.take(c@.len() as int) =~= c@);
    if t == 0 {
        if c.len() == 0 {
            return None;
        }
        return Some((slice_vec(c, 0, c.len()), None));
    }
    if !alpha(c[t - 1]) || t - 1 == 0 || !all_digits_exec(c, t - 1) {
        return None;
    }
    let number = slice_vec(c, 0, t - 1);
    let tail = slice_vec(c, t - 1, c.len());
    let kind = upper_all(tail.as_slice());
    assert(c@.subrange(0, c@.len() as int) =~= c@);
    Some((number, Some(kind)))
}

fn is_local_country_exec(c: &[char]) -> (r: bool)
    ensures
        r == is_local_country(c@),
{
    if c.len() != 2 {
        assert(seq!['E', 'P'].len() == 2);
        assert(seq!['U', 'S'].len() == 2);
        assert(seq!['W', 'O'].len() == 2);
        return false;
    }
    let r = (c[0] == 'E' && c[1] == 'P') || (c[0] == 'U' && c[1] == 'S') || (c[0] == 'W' && c[1] == 'O');
    proof {
        if c[0] == 'E' && c[1] == 'P' {
            assert(c@ =~= seq!['E', 'P']);
        }
        if c[0] == 'U' && c[1] == 'S' {
            assert(c@ =~= seq!['U', 'S']);
        }
        if c[0] == 'W' && c[1] == 'O' {
            assert(c@ =~= seq!['W', 'O']);
        }
        if !r {
            assert(c@[0] != seq!['E', 'P'][0] || c@[1] != seq!['E', 'P'][1]);
            assert(c@[0] != seq!['U', 'S'][0] || c@[1] != seq!['U', 'S'][1]);
            assert(c@[0] != seq!['W', 'O'][0] || c@[1] != seq!['W', 'O'][1]);
        }
    }
    r
}

/// Parses a publication number such as `EP 1 234 567 B1`.
pub fn parse(raw: &str) -> (r: ParseOutcome)
    ensures
        r@ == parse_model(raw@),
{
    let t = trimmed(raw);
    let n = count_leading_alpha(t.as_slice());
    let compact = remove_separators(t.as_slice(), n);
    proof {
        lemma_leading_alpha_bound(t@);
    }
    if t.len() == 0 || n == 0 || compact.len() == 0 || !all_alnum_exec(compact.as_slice()) {
        return ParseOutcome::Unparseable(string_of(t.as_slice()));
    }
    let split = split_number_and_kind_code(compact.as_slice());
    match split {
        None => ParseOutcome::Unparseable(string_of(t.as_slice())),
        Some((number, kind_code)) => {
            let head = slice_vec(t.as_slice(), 0, n);
            let country = upper_all(head.as_slice());
            assert(t@.subrange(0, n as int) =~= t@.take(n as int));
            if !is_local_country_exec(country.as_slice()) {
                return ParseOutcome::NeedsNormalisation(string_of(t.as_slice()));
            }
            let kind = match kind_code {
                Some(k) => Some(string_of(k.as_slice())),
                None => None,
            };
            ParseOutcome::Parsed(ParsedNumber {
                country: string_of(country.as_slice()),
                number: string_of(number.as_slice()),
                kind_code: kind,
            })
        },
    }
}

/// A change of letter case: letters stay letters and upper-case alike,
/// every other character stays as it is.
pub open spec fn changes_case_only(f: spec_fn(char) -> char) -> bool {
    forall|c: char|
        #![trigger f(c)]
        if is_alpha(c) {
            is_alpha(f(c)) && upper(f(c)) == upper(c)
        } else {
            f(c) == c
        }
}

proof fn lemma_ascii_case_changes(c: char)
    ensures
        is_alpha(c) ==> is_alpha(lower(c)) && upper(lower(c)) == upper(c),
        is_alpha(c) ==> is_alpha(upper(c)) && upper(upper(c)) == upper(c),
        !is_alpha(c) ==> lower(c) == c && upper(c) == c,
{
}

proof fn lemma_case_keeps_kinds(f: spec_fn(char) -> char, c: char)
    requires
        changes_case_only(f),
    ensures
        white_space(f(c)) == white_space(c),
        is_alpha(f(c)) == is_alpha(c),
        is_digit(f(c)) == is_digit(c),
        is_alnum(f(c)) == is_alnum(c),
        is_separator(f(c)) == is_separator(c),
        is_digit(c) ==> f(c) == c,
        upper(f(c)) == upper(c),
{
    if is_alpha(c) {
        assert(is_alpha(f(c)));
    } else {
        assert(f(c) == c);
    }
}

proof fn lemma_case_trim(f: spec_fn(char) -> char, s: Seq<char>)
    requires
        changes_case_only(f),
    ensures
        trim_start(s.map_values(f)) == trim_start(s).map_values(f),
        trim_end(s.map_values(f)) == trim_end(s).map_values(f),
    decreases s.len(),
{
    if s.len() > 0 {
        lemma_case_keeps_kinds(f, s[0]);
        lemma_case_keeps_kinds(f, s.last());
        lemma_case_trim(f, s.drop_first());
        lemma_case_trim(f, s.drop_last());
        assert(s.map_values(f).drop_first() =~= s.drop_first().map_values(f));
        assert(s.map_values(f).drop_last() =~= s.drop_last().map_values(f));
    }
}

proof fn lemma_case_leading_alpha(f: spec_fn(char) -> char, s: Seq<char>)
    requires
        changes_case_only(f),
    ensures
        leading_alpha(s.map_values(f)) == leading_alpha(s),
    decreases s.len(),
{
    if s.len() > 0 {
        lemma_case_keeps_kinds(f, s[0]);
        lemma_case_leading_alpha(f, s.drop_first());
        assert(s.map_values(f).drop_first() =~= s.drop_first().map_values(f));
    }
}

proof fn lemma_case_separators(f: spec_fn(char) -> char, s: Seq<char>)
    requires
        changes_case_only(f),
    ensures
        without_separators(s.map_values(f)) == without_separators(s).map_values(f),
    decreases s.len(),
{
    if s.len() > 0 {
        lemma_case_keeps_kinds(f, s.last());
        lemma_case_separators(f, s.drop_last());
        assert(s.map_values(f).drop_last() =~= s.drop_last().map_values(f));
        assert(without_separators(s.drop_last()).push(s.last()).map_values(f) =~= without_separators(
            s.drop_last(),
        ).map_values(f).push(f(s.last())));
    }
}

proof fn lemma_case_trailing_digits(f: spec_fn(char) -> char, s: Seq<char>)
    requires
        changes_case_only(f),
    ensures
        trailing_digits_start(s.map_values(f)) == trailing_digits_start(s),
    decreases s.len(),
{
    if s.len() > 0 {
        lemma_case_keeps_kinds(f, s.last());
        lemma_case_trailing_digits(f, s.drop_last());
        assert(s.map_values(f).drop_last() =~= s.drop_last().map_values(f));
    }
}

proof fn lemma_case_sequence(f: spec_fn(char) -> char, s: Seq<char>)
    requires
        changes_case_only(f),
    ensures
        all_alnum(s.map_values(f)) == all_alnum(s),
        all_digits(s.map_values(f)) == all_digits(s),
        all_digits(s) ==> s.map_values(f) == s,
        upper_seq(s.map_values(f)) == upper_seq(s),
{
    assert forall|i: int| 0 <= i < s.len() implies #[trigger] s.map_values(f)[i] == f(s[i]) by {}
    assert forall|i: int| 0 <= i < s.len() implies (is_alnum(#[trigger] s.map_values(f)[i]) == is_alnum(s[i]) && is_digit(
        s.map_values(f)[i],
    ) == is_digit(s[i]) && (is_digit(s[i]) ==> s.map_values(f)[i] == s[i]) && upper(s.map_values(f)[i]) == upper(
        s[i],
    )) by {
        lemma_case_keeps_kinds(f, s[i]);
    }
    if all_alnum(s) {
        assert forall|i: int| 0 <= i < s.len() implies is_alnum(#[trigger] s.map_values(f)[i]) by {
            assert(is_alnum(s[i]));
        }
    }
    if all_alnum(s.map_values(f)) {
        assert forall|i: int| 0 <= i < s.len() implies is_alnum(#[trigger] s[i]) by {
            assert(is_alnum(s.map_values(f)[i]));
        }
    }
    if all_digits(s) {
        assert forall|i: int| 0 <= i < s.len() implies is_digit(#[trigger] s.map_values(f)[i]) by {
            assert(is_digit(s[i]));
        }
        assert(s.map_values(f) =~= s);
    }
    if all_digits(s.map_values(f)) {
        assert forall|i: int| 0 <= i < s.len() implies is_digit(#[trigger] s[i]) by {
            assert(is_digit(s.map_values(f)[i]));
        }
    }
    assert(upper_seq(s.map_values(f)) =~= upper_seq(s));
}

proof fn lemma_parse_case(f: spec_fn(char) -> char, raw: Seq<char>)
    requires
        changes_case_only(f),
        parse_model(raw) is Parsed,
    ensures
        parse_model(raw.map_values(f)) == parse_model(raw),
{
    let t = trim(raw);
    lemma_case_trim(f, raw);
    lemma_case_trim(f, trim_start(raw));
    let ft = trim(raw.map_values(f));
    assert(ft == t.map_values(f));
    let n = leading_alpha(t);
    lemma_case_leading_alpha(f, t);
    lemma_leading_alpha_bound(t);
    assert(t.map_values(f).skip(n as int) =~= t.skip(n as int).map_values(f));
    assert(t.map_values(f).take(n as int) =~= t.take(n as int).map_values(f));
    let compact = without_separators(t.skip(n as int));
    lemma_case_separators(f, t.skip(n as int));
    let fc = compact.map_values(f);
    lemma_case_sequence(f, compact);
    lemma_case_sequence(f, t.take(n as int));
    let k = trailing_digits_start(compact) as int;
    lemma_case_trailing_digits(f, compact);
    lemma_trailing_digits(compact);
    if k > 0 {
        lemma_case_keeps_kinds(f, compact[k - 1]);
        assert(fc[k - 1] == f(compact[k - 1]));
        assert(fc.take(k - 1) =~= compact.take(k - 1).map_values(f));
        assert(fc.skip(k - 1) =~= compact.skip(k - 1).map_values(f));
        lemma_case_sequence(f, compact.take(k - 1));
        lemma_case_sequence(f, compact.skip(k - 1));
    } else {
        assert(compact == fc) by {
            assert(all_digits(compact.skip(0)));
            assert(compact.skip(0) =~= compact);
        }
    }
}

proof fn lemma_all_space_trims_away(w: Seq<char>)
    requires
        forall|i: int| 0 <= i < w.len() ==> white_space(#[trigger] w[i]),
    ensures
        trim_start(w).len() == 0,
    decreases w.len(),
{
    if w.len() > 0 {
        assert(white_space(w[0]));
        assert forall|i: int| 0 <= i < w.drop_first().len() implies white_space(#[trigger] w.drop_first()[i]) by {
            assert(w.drop_first()[i] == w[i + 1]);
        }
        lemma_all_space_trims_away(w.drop_first());
    }
}

proof fn lemma_trim_start_concat(a: Seq<char>, b: Seq<char>)
    ensures
        trim_start(a).len() > 0 ==> trim_start(a + b) == trim_start(a) + b,
        trim_start(a).len() == 0 ==> trim_start(a + b) == trim_start(b),
    decreases a.len(),
{
    if a.len() > 0 {
        assert((a + b)[0] == a[0]);
        assert((a + b).drop_first() =~= a.drop_first() + b);
        lemma_trim_start_concat(a.drop_first(), b);
    } else {
        assert(a + b =~= b);
    }
}

proof fn lemma_trim_end_space(a: Seq<char>, w: Seq<char>)
    requires
        forall|i: int| 0 <= i < w.len() ==> white_space(#[trigger] w[i]),
    ensures
        trim_end(a + w) == trim_end(a),
    decreases w.len(),
{
    if w.len() > 0 {
        assert((a + w).last() == w.last());
        assert(white_space(w[w.len() - 1]));
        assert((a + w).drop_last() =~= a + w.drop_last());
        assert forall|i: int| 0 <= i < w.drop_last().len() implies white_space(#[trigger] w.drop_last()[i]) by {
            assert(w.drop_last()[i] == w[i]);
        }
        lemma_trim_end_space(a, w.drop_last());
    } else {
        assert(a + w =~= a);
    }
}

/// A number reads the same whatever whitespace surrounds it; and a number
/// that parses reads the same in lower or upper case (ASCII).
pub proof fn law_parse_ignores_case_and_surrounding_space(raw: Seq<char>, before: Seq<char>, after: Seq<char>)
    requires
        forall|i: int| 0 <= i < before.len() ==> white_space(#[trigger] before[i]),
        forall|i: int| 0 <= i < after.len() ==> white_space(#[trigger] after[i]),
    ensures
        parse_model(before + raw + after) == parse_model(raw),
        parse_model(raw) is Parsed ==> parse_model(lower_seq(raw)) == parse_model(raw) && parse_model(upper_seq(raw))
            == parse_model(raw),
{
    lemma_all_space_trims_away(before);
    lemma_trim_start_concat(before, raw + after);
    assert(before + raw + after =~= before + (raw + after));
    lemma_trim_start_concat(raw, after);
    if trim_start(raw).len() > 0 {
        lemma_trim_end_space(trim_start(raw), after);
    } else {
        lemma_all_space_trims_away(after);
    }
    assert(trim(before + raw + after) == trim(raw));
    if parse_model(raw) is Parsed {
        let lo = |c: char| lower(c);
        let up = |c: char| upper(c);
        assert forall|c: char| #![trigger lo(c)] #![trigger up(c)] true implies (if is_alpha(c) {
            is_alpha(lo(c)) && upper(lo(c)) == upper(c)
        } else {
            lo(c) == c
        }) && (if is_alpha(c) {
            is_alpha(up(c)) && upper(up(c)) == upper(c)
        } else {
            up(c) == c
        }) by {
            lemma_ascii_case_changes(c);
        }
        assert(changes_case_only(lo));
        assert(changes_case_only(up));
        lemma_parse_case(lo, raw);
        lemma_parse_case(up, raw);
        assert(lower_seq(raw) =~= raw.map_values(lo));
        assert(upper_seq(raw) =~= raw.map_values(up));
    }
}

/// Only EP, US and WO numbers are parsed here: a parsed number's country is
/// one of them, the number and kind code are digits (and the kind's letter
/// first), and a number handed on to be normalised is the input trimmed.
pub proof fn law_only_local_countries_are_parsed(raw: Seq<char>)
    ensures
        parse_model(raw) matches OutcomeModel::Parsed { country, .. } ==> country == seq!['E', 'P'] || country
            == seq!['U', 'S'] || country == seq!['W', 'O'],
        parse_model(raw) matches OutcomeModel::NeedsNormalisation(t) ==> t == trim(raw),
        parse_model(raw) matches OutcomeModel::Unparseable(t) ==> t == trim(raw),
{
}

proof fn lemma_leading_letters(c: Seq<char>, s: Seq<char>)
    requires
        forall|i: int| 0 <= i < c.len() ==> is_alpha(#[trigger] c[i]),
        s.len() == 0 || !is_alpha(s[0]),
    ensures
        leading_alpha(c + s) == c.len(),
    decreases c.len(),
{
    if c.len() == 0 {
        assert(c + s =~= s);
    } else {
        assert((c + s)[0] == c[0]);
        assert((c + s).drop_first() =~= c.drop_first() + s);
        assert forall|i: int| 0 <= i < c.drop_first().len() implies is_alpha(#[trigger] c.drop_first()[i]) by {
            assert(c.drop_first()[i] == c[i + 1]);
        }
        lemma_leading_letters(c.drop_first(), s);
    }
}

proof fn lemma_trim_of_letters_first(c: Seq<char>, s: Seq<char>)
    requires
        0 < c.len(),
        is_alpha(c[0]),
        0 < s.len(),
        !white_space(s.last()),
    ensures
        trim(c + s) == c + s,
{
    let x = c + s;
    assert(x[0] == c[0]);
    assert(!white_space(x[0]));
    assert(trim_start(x) == x);
    assert(x.last() == s.last());
    assert(trim_end(x) == x);
}

/// The letters in front decide where a number is read: put other letters
/// in front of the same number, and it is parsed alike (with the new
/// country, upper-cased) when they name EP, US or WO, and handed on whole
/// to be normalised when they name any other country.
pub proof fn law_the_country_decides(c1: Seq<char>, c2: Seq<char>, s: Seq<char>)
    requires
        0 < c1.len(),
        0 < c2.len(),
        forall|i: int| 0 <= i < c1.len() ==> is_alpha(#[trigger] c1[i]),
        forall|i: int| 0 <= i < c2.len() ==> is_alpha(#[trigger] c2[i]),
        0 < s.len(),
        !is_alpha(s[0]),
        !white_space(s.last()),
        parse_model(c1 + s) is Parsed,
    ensures
        match parse_model(c1 + s) {
            OutcomeModel::Parsed { number, kind_code, .. } => parse_model(c2 + s) == if upper_seq(c2) == seq!['E', 'P']
                || upper_seq(c2) == seq!['U', 'S'] || upper_seq(c2) == seq!['W', 'O'] {
                OutcomeModel::Parsed { country: upper_seq(c2), number, kind_code }
            } else {
                OutcomeModel::NeedsNormalisation(c2 + s)
            },
            _ => true,
        },
{
    lemma_trim_of_letters_first(c1, s);
    lemma_trim_of_letters_first(c2, s);
    lemma_leading_letters(c1, s);
    lemma_leading_letters(c2, s);
    assert((c1 + s).skip(c1.len() as int) =~= s);
    assert((c2 + s).skip(c2.len() as int) =~= s);
    assert((c1 + s).take(c1.len() as int) =~= c1);
    assert((c2 + s).take(c2.len() as int) =~= c2);
}

} // verus!
