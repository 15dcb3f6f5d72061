//! The `X-Throttling-Control` response header: the overall service state
//! and a colour per category, e.g. `idle (retrieval=green:200,
//! search=yellow:20, inpadoc=red:30, images=green:200, other=green:1000)`.
use vstd::prelude::*;
use std::time::Duration;
use crate::ops::error::OpsError;
use crate::text::{
    chars_eq, chars_eq_str, chars_of, extend_all, extend_str, find_char, find_char_exec, lemma_seq_lt_order,
    lemma_find_char, lemma_rfind_char, lemma_split_on_nonempty, parse_u32, parse_u32_exec,
    rfind_char, rfind_char_exec, slice_vec, split_chars, split_on, string_of, trim, trim_bounds,
    str_lt, seq_lt, trimmed, views,
};

verus! {

#[derive(Debug, Clone, Copy, PartialEq, Eq)]
pub enum ServiceState {
    Idle,
    Busy,
    Overloaded,
}

#[derive(Debug, Clone, Copy, PartialEq, Eq)]
pub enum Colour {
    Green,
    Yellow,
    Red,
    Black,
}

/// What a caller does before its next request to a category at a colour:
/// normal on green, slow down on yellow, pause on red, stop on black.
#[derive(Debug, Clone, Copy, PartialEq, Eq)]
pub enum Action {
    Continue,
    SlowDown,
    Pause,
    Stop,
}

pub open spec fn colour_action(c: Colour) -> Action {
    match c {
        Colour::Green => Action::Continue,
        Colour::Yellow => Action::SlowDown,
        Colour::Red => Action::Pause,
        Colour::Black => Action::Stop,
    }
}

/// How restrictive an action is.
pub open spec fn severity(a: Action) -> int {
    match a {
        Action::Continue => 0,
        Action::SlowDown => 1,
        Action::Pause => 2,
        Action::Stop => 3,
    }
}

impl Colour {
    pub fn action(self) -> (r: Action)
        ensures
            r == colour_action(self),
    {
        match self {
            Colour::Green => Action::Continue,
            Colour::Yellow => Action::SlowDown,
            Colour::Red => Action::Pause,
            Colour::Black => Action::Stop,
        }
    }
}

#[derive(Debug, Clone, Copy, PartialEq, Eq)]
pub struct CategoryStatus {
    pub colour: Colour,
    pub limit: u32,
}

/// The header's content. `categories` is a map from category name, held in
/// the order of the names: each name occurs once, a later entry for a name
/// replacing the earlier one.
#[derive(Debug, Clone, PartialEq, Eq)]
pub struct ThrottleControl {
    pub state: ServiceState,
    pub categories: Vec<(String, CategoryStatus)>,
}

pub open spec fn entries_view(v: Seq<(String, CategoryStatus)>) -> Seq<(Seq<char>, CategoryStatus)> {
    v.map_values(|e: (String, CategoryStatus)| (e.0@, e.1))
}

/// The most restrictive action of the categories, `Continue` without any.
pub open spec fn strictest(cats: Seq<(Seq<char>, CategoryStatus)>) -> Action
    decreases cats.len(),
{
    if cats.len() == 0 {
        Action::Continue
    } else {
        let rest = strictest(cats.drop_last());
        let a = colour_action(cats.last().1.colour);
        if severity(a) >= severity(rest) {
            a
        } else {
            rest
        }
    }
}

/// The delay to wait, in seconds, before the next request.
pub open spec fn delay_secs(a: Action) -> Option<u64> {
    match a {
        Action::Continue => None,
        Action::SlowDown => Some(2),
        Action::Pause => Some(30),
        Action::Stop => None,
    }
}

/// A `Duration` of `secs` seconds.
pub uninterp spec fn seconds(secs: u64) -> Duration;

/// std `Duration::from_secs`: a duration of `secs` seconds.
#[verifier::external_body]
fn duration_from_secs(secs: u64) -> (d: Duration)
    ensures
        d == seconds(secs),
{
    Duration::from_secs(secs)
}

impl ThrottleControl {
    /// The most restrictive action over every category: a client honours
    /// the strictest one that applies to any service it may call next.
    pub fn strictest_action(&self) -> (r: Action)
        ensures
            r == strictest(entries_view(self.categories@)),
            forall|i: int| 0 <= i < self.categories@.len()
                ==> severity(colour_action(#[trigger] self.categories@[i].1.colour)) <= severity(r),
    {
        let mut best = Action::Continue;
        let mut i: usize = 0;
        while i < self.categories.len()
            invariant
                i <= self.categories.len(),
                best == strictest(entries_view(self.categories@).take(i as int)),
                forall|k: int| 0 <= k < i ==> severity(colour_action(#[trigger] self.categories@[k].1.colour))
                    <= severity(best),
            decreases self.categories.len() - i,
        {
            let a = self.categories[i].1.colour.action();
            assert(entries_view(self.categories@).take(i + 1).drop_last() =~= entries_view(self.categories@).take(i as int));
            let sa: u8 = match a {
                Action::Continue => 0,
                Action::SlowDown => 1,
                Action::Pause => 2,
                Action::Stop => 3,
            };
            let sb: u8 = match best {
                Action::Continue => 0,
                Action::SlowDown => 1,
                Action::Pause => 2,
                Action::Stop => 3,
            };
            if sa >= sb {
                best = a;
            }
            i += 1;
        }
        assert(entries_view(self.categories@).take(self.categories@.len() as int) =~= entries_view(self.categories@));
        best
    }

    /// A conservative pause before the next request: 2 s when slowing down,
    /// 30 s when pausing, none otherwise.
    pub fn recommended_delay(&self) -> (r: Option<Duration>)
        ensures
            match delay_secs(strictest(entries_view(self.categories@))) {
                Some(s) => r == Some(seconds(s)),
                None => r is None,
            },
    {
        match self.strictest_action() {
            Action::Continue => None,
            Action::SlowDown => Some(duration_from_secs(2)),
            Action::Pause => Some(duration_from_secs(30)),
            Action::Stop => None,
        }
    }

    /// The status of the category `name`.
    pub fn category(&self, name: &str) -> (r: Option<CategoryStatus>)
        ensures
            r == lookup(entries_view(self.categories@), name@),
    {
        let key = chars_of(name);
        match index_of(&self.categories, key.as_slice()) {
            Some(i) => Some(self.categories[i].1),
            None => None,
        }
    }
}

/// The index of the entry named `k`.
pub open spec fn key_index(cats: Seq<(Seq<char>, CategoryStatus)>, k: Seq<char>) -> Option<int>
    decreases cats.len(),
{
    if cats.len() == 0 {
        None
    } else {
        match key_index(cats.drop_last(), k) {
            Some(i) => Some(i),
            None => if cats.last().0 == k {
                Some(cats.len() - 1)
            } else {
                None
            },
        }
    }
}

pub open spec fn lookup(cats: Seq<(Seq<char>, CategoryStatus)>, k: Seq<char>) -> Option<CategoryStatus> {
    match key_index(cats, k) {
        Some(i) => Some(cats[i].1),
        None => None,
    }
}

/// How many entries at the front have a name that comes before `k`.
pub open spec fn names_before(cats: Seq<(Seq<char>, CategoryStatus)>, k: Seq<char>) -> nat
    decreases cats.len(),
{
    if cats.len() > 0 && seq_lt(cats[0].0, k) {
        1 + names_before(cats.drop_first(), k)
    } else {
        0
    }
}

/// The names come in the order of `str`: a map ordered by key.
pub open spec fn names_ascending(cats: Seq<(Seq<char>, CategoryStatus)>) -> bool {
    forall|i: int, j: int| 0 <= i < j < cats.len() ==> seq_lt((#[trigger] cats[i]).0, (#[trigger] cats[j]).0)
}

/// `cats` with `k` mapped to `v`: the entry replaced in place, or a new one
/// put where its name falls among the names.
pub open spec fn insert(cats: Seq<(Seq<char>, CategoryStatus)>, k: Seq<char>, v: CategoryStatus) -> Seq<(Seq<char>, CategoryStatus)> {
    match key_index(cats, k) {
        Some(i) => cats.update(i, (k, v)),
        None => cats.insert(names_before(cats, k) as int, (k, v)),
    }
}

proof fn lemma_names_before(cats: Seq<(Seq<char>, CategoryStatus)>, k: Seq<char>)
    ensures
        names_before(cats, k) <= cats.len(),
        forall|j: int| 0 <= j < names_before(cats, k) ==> seq_lt((#[trigger] cats[j]).0, k),
        names_before(cats, k) < cats.len() ==> !seq_lt(cats[names_before(cats, k) as int].0, k),
    decreases cats.len(),
{
    if cats.len() > 0 && seq_lt(cats[0].0, k) {
        let d = cats.drop_first();
        lemma_names_before(d, k);
        assert forall|j: int| 0 <= j < names_before(cats, k) implies seq_lt((#[trigger] cats[j]).0, k) by {
            if j > 0 {
                assert(cats[j] == d[j - 1]);
            }
        }
        if names_before(cats, k) < cats.len() {
            assert(cats[names_before(cats, k) as int] == d[names_before(d, k) as int]);
        }
    }
}

/// No category name occurs twice.
pub open spec fn distinct_keys(cats: Seq<(Seq<char>, CategoryStatus)>) -> bool {
    forall|i: int, j: int| 0 <= i < j < cats.len() ==> (#[trigger] cats[i]).0 != (#[trigger] cats[j]).0
}

proof fn lemma_insert_keeps_names_ascending(cats: Seq<(Seq<char>, CategoryStatus)>, k: Seq<char>, v: CategoryStatus)
    requires
        names_ascending(cats),
    ensures
        names_ascending(insert(cats, k, v)),
{
    lemma_key_index(cats, k);
    let r = insert(cats, k, v);
    match key_index(cats, k) {
        Some(x) => {
            assert forall|i: int, j: int| 0 <= i < j < r.len() implies seq_lt((#[trigger] r[i]).0, (#[trigger] r[j]).0) by {
                assert(r[i].0 == cats[i].0 && r[j].0 == cats[j].0);
            }
        },
        None => {
            let p = names_before(cats, k) as int;
            lemma_names_before(cats, k);
            if p < cats.len() {
                lemma_seq_lt_order(cats[p].0, k, k);
                lemma_seq_lt_order(k, cats[p].0, k);
            }
            assert forall|i: int, j: int| 0 <= i < j < r.len() implies seq_lt((#[trigger] r[i]).0, (#[trigger] r[j]).0) by {
                if j < p {
                    assert(r[i] == cats[i] && r[j] == cats[j]);
                } else if j == p {
                    assert(r[i] == cats[i] && r[j] == (k, v));
                } else if i < p {
                    assert(r[i] == cats[i] && r[j] == cats[j - 1]);
                    lemma_seq_lt_order(cats[i].0, k, cats[j - 1].0);
                    if j - 1 > p {
                        lemma_seq_lt_order(k, cats[p].0, cats[j - 1].0);
                    }
                } else if i == p {
                    assert(r[i] == (k, v) && r[j] == cats[j - 1]);
                    if j - 1 > p {
                        lemma_seq_lt_order(k, cats[p].0, cats[j - 1].0);
                    }
                } else {
                    assert(r[i] == cats[i - 1] && r[j] == cats[j - 1]);
                }
            }
        },
    }
}

proof fn lemma_entries_ascending(es: Seq<Seq<char>>)
    ensures
        entries_model(es) matches Ok(c) ==> names_ascending(c) && distinct_keys(c),
    decreases es.len(),
{
    if es.len() > 0 {
        lemma_entries_ascending(es.drop_last());
        match entries_model(es.drop_last()) {
            Ok(cats) => match entry_model(es.last()) {
                EntryModel::Category(n, s) => lemma_insert_keeps_names_ascending(cats, n, s),
                _ => {},
            },
            Err(_) => {},
        }
    }
    match entries_model(es) {
        Ok(c) => {
            assert forall|i: int, j: int| 0 <= i < j < c.len() implies (#[trigger] c[i]).0 != (#[trigger] c[j]).0 by {
                lemma_seq_lt_order(c[i].0, c[j].0, c[j].0);
            }
        },
        Err(_) => {},
    }
}

/// The strictest action is that of the worst colour present: `Continue`
/// (and no delay) when every category is green or there is none, `Stop`
/// as soon as one category is black, and never milder than any category's
/// own action.
pub proof fn law_strictest_is_the_worst_colour(cats: Seq<(Seq<char>, CategoryStatus)>)
    ensures
        forall|i: int| 0 <= i < cats.len() ==> severity(colour_action(#[trigger] cats[i].1.colour)) <= severity(
            strictest(cats),
        ),
        (forall|i: int| 0 <= i < cats.len() ==> (#[trigger] cats[i]).1.colour == Colour::Green) ==> strictest(cats)
            == Action::Continue && delay_secs(strictest(cats)) is None,
        (exists|i: int| 0 <= i < cats.len() && (#[trigger] cats[i]).1.colour == Colour::Black) ==> strictest(cats)
            == Action::Stop,
        cats.len() > 0 ==> exists|i: int| 0 <= i < cats.len() && colour_action(#[trigger] cats[i].1.colour) == strictest(cats),
    decreases cats.len(),
{
    if cats.len() > 0 {
        let pre = cats.drop_last();
        law_strictest_is_the_worst_colour(pre);
        assert forall|i: int| 0 <= i < cats.len() implies severity(colour_action(#[trigger] cats[i].1.colour)) <= severity(
            strictest(cats),
        ) by {
            if i < pre.len() {
                assert(cats[i] == pre[i]);
            }
        }
        if forall|i: int| 0 <= i < cats.len() ==> (#[trigger] cats[i]).1.colour == Colour::Green {
            assert forall|i: int| 0 <= i < pre.len() implies (#[trigger] pre[i]).1.colour == Colour::Green by {
                assert(pre[i] == cats[i]);
            }
            assert(cats[cats.len() - 1] == cats.last());
        }
        if exists|i: int| 0 <= i < cats.len() && (#[trigger] cats[i]).1.colour == Colour::Black {
            let i = choose|i: int| 0 <= i < cats.len() && (#[trigger] cats[i]).1.colour == Colour::Black;
            if i < pre.len() {
                assert(pre[i] == cats[i]);
            }
        }
        if pre.len() > 0 && severity(colour_action(cats.last().1.colour)) < severity(strictest(pre)) {
            let i = choose|i: int| 0 <= i < pre.len() && colour_action(#[trigger] pre[i].1.colour) == strictest(pre);
            assert(cats[i] == pre[i]);
        } else {
            assert(cats[cats.len() - 1] == cats.last());
        }
    }
}

proof fn lemma_key_index(cats: Seq<(Seq<char>, CategoryStatus)>, k: Seq<char>)
    ensures
        match key_index(cats, k) {
            Some(i) => 0 <= i < cats.len() && cats[i].0 == k && forall|j: int| 0 <= j < i ==> cats[j].0 != k,
            None => forall|j: int| 0 <= j < cats.len() ==> cats[j].0 != k,
        },
    decreases cats.len(),
{
    if cats.len() > 0 {
        lemma_key_index(cats.drop_last(), k);
        assert(forall|j: int| 0 <= j < cats.len() - 1 ==> cats[j] == cats.drop_last()[j]);
    }
}

fn index_of(cats: &Vec<(String, CategoryStatus)>, k: &[char]) -> (r: Option<usize>)
    ensures
        match (r, key_index(entries_view(cats@), k@)) {
            (Some(i), Some(j)) => i == j && i < cats@.len(),
            (None, None) => true,
            _ => false,
        },
{
    let ghost e = entries_view(cats@);
    let mut i: usize = 0;
    while i < cats.len()
        invariant
            i <= cats.len(),
            e == entries_view(cats@),
            key_index(e.take(i as int), k@) is None,
        decreases cats.len() - i,
    {
        let name = chars_of(cats[i].0.as_str());
        assert(e.take(i + 1).drop_last() =~= e.take(i as int));
        if chars_eq(name.as_slice(), k) {
            proof {
                lemma_key_index(e, k@);
                lemma_key_index(e.take(i as int), k@);
                assert(e[i as int].0 == k@);
                match key_index(e, k@) {
                    Some(j) => {
                        if j < i {
                            assert(e.take(i as int)[j] == e[j]);
                            assert(e.take(i as int)[j].0 != k@);
                        } else if j > i {
                            assert(e[i as int].0 != k@);
                        }
                    },
                    None => {
                        assert(e[i as int].0 != k@);
                    },
                }
            }
            return Some(i);
        }
        i += 1;
    }
    proof {
        assert(e.take(i as int) =~= e);
    }
    None
}

fn insert_exec(cats: &mut Vec<(String, CategoryStatus)>, k: Vec<char>, v: CategoryStatus)
    ensures
        entries_view(final(cats)@) == insert(entries_view(old(cats)@), k@, v),
{
    match index_of(cats, k.as_slice()) {
        Some(i) => {
            cats.set(i, (string_of(k.as_slice()), v));
            assert(entries_view(cats@) =~= entries_view(old(cats)@).update(i as int, (k@, v)));
        },
        None => {
            let name = string_of(k.as_slice());
            let ghost e = entries_view(cats@);
            let mut p: usize = 0;
            assert(e.skip(0) =~= e);
            while p < cats.len() && str_lt(cats[p].0.as_str(), name.as_str())
                invariant
                    p <= cats.len(),
                    e == entries_view(cats@),
                    name@ == k@,
                    names_before(e, k@) == p + names_before(e.skip(p as int), k@),
                decreases cats.len() - p,
            {
                assert(e.skip(p as int)[0] == e[p as int]);
                assert(e.skip(p as int).drop_first() =~= e.skip(p + 1));
                p += 1;
            }
            if p < cats.len() {
                assert(e.skip(p as int)[0] == e[p as int]);
            }
            assert(names_before(e, k@) == p);
            cats.insert(p, (name, v));
            assert(entries_view(cats@) =~= e.insert(p as int, (k@, v)));
        },
    }
}

/// What one category entry holds: nothing (blank), a name and status, or
/// the error message.
pub enum EntryModel {
    Blank,
    Category(Seq<char>, CategoryStatus),
    Invalid(Seq<char>),
}

pub open spec fn colour_named(c: Seq<char>) -> Option<Colour> {
    if c == "green"@ {
        Some(Colour::Green)
    } else if c == "yellow"@ {
        Some(Colour::Yellow)
    } else if c == "red"@ {
        Some(Colour::Red)
    } else if c == "black"@ {
        Some(Colour::Black)
    } else {
        None
    }
}

pub open spec fn entry_model(raw: Seq<char>) -> EntryModel {
    let e = trim(raw);
    if e.len() == 0 {
        EntryModel::Blank
    } else {
        entry_fields(e)
    }
}

/// The categories of the entries, in order, or the first entry's error.
pub open spec fn entries_model(es: Seq<Seq<char>>) -> Result<Seq<(Seq<char>, CategoryStatus)>, Seq<char>>
    decreases es.len(),
{
    if es.len() == 0 {
        Ok(Seq::empty())
    } else {
        match entries_model(es.drop_last()) {
            Err(m) => Err(m),
            Ok(cats) => match entry_model(es.last()) {
                EntryModel::Blank => Ok(cats),
                EntryModel::Invalid(m) => Err(m),
                EntryModel::Category(n, s) => Ok(insert(cats, n, s)),
            },
        }
    }
}

pub open spec fn state_named(s: Seq<char>) -> Option<ServiceState> {
    if s == "idle"@ {
        Some(ServiceState::Idle)
    } else if s == "busy"@ {
        Some(ServiceState::Busy)
    } else if s == "overloaded"@ {
        Some(ServiceState::Overloaded)
    } else {
        None
    }
}

/// What [`parse`] makes of a header: the state and categories, or the
/// message of the parse error.
pub open spec fn parse_model(header: Seq<char>) -> Result<(ServiceState, Seq<(Seq<char>, CategoryStatus)>), Seq<char>> {
    let value = trim(header);
    match (find_char(value, '('), rfind_char(value, ')')) {
        (None, _) => Err("no '(' in throttling header: "@ + value),
        (Some(_), None) => Err("no ')' in throttling header: "@ + value),
        (Some(open), Some(close)) => if close < open {
            Err("malformed throttling header: "@ + value)
        } else {
            match state_named(trim(value.take(open))) {
                None => Err("unknown service state: "@ + trim(value.take(open))),
                Some(state) => match entries_model(split_on(value.subrange(open + 1, close), ',')) {
                    Err(m) => Err(m),
                    Ok(cats) => Ok((state, cats)),
                },
            }
        },
    }
}

fn message(prefix: &str, tail: &[char]) -> (r: String)
    ensures
        r@ == prefix@ + tail@,
{
    let mut v = chars_of(prefix);
    extend_all(&mut v, tail);
    string_of(v.as_slice())
}

fn colour_exec(c: &[char]) -> (r: Option<Colour>)
    ensures
        r == colour_named(c@),
{
    if chars_eq_str(c, "green") {
        Some(Colour::Green)
    } else if chars_eq_str(c, "yellow") {
        Some(Colour::Yellow)
    } else if chars_eq_str(c, "red") {
        Some(Colour::Red)
    } else if chars_eq_str(c, "black") {
        Some(Colour::Black)
    } else {
        None
    }
}

/// What a trimmed, non-blank entry holds.
pub open spec fn entry_fields(e: Seq<char>) -> EntryModel {
    match find_char(e, '=') {
        None => EntryModel::Invalid("malformed category entry: "@ + e),
        Some(i) => {
            let rest = e.skip(i + 1);
            match find_char(rest, ':') {
                None => EntryModel::Invalid("malformed category entry: "@ + e),
                Some(j) => match colour_named(trim(rest.take(j))) {
                    None => EntryModel::Invalid("unknown colour: "@ + trim(rest.take(j))),
                    Some(colour) => match parse_u32(trim(rest.skip(j + 1))) {
                        None => EntryModel::Invalid("non-numeric limit in: "@ + e),
                        Some(limit) => EntryModel::Category(trim(e.take(i)), CategoryStatus { colour, limit }),
                    },
                },
            }
        },
    }
}

#[verifier::rlimit(40)]
fn entry_fields_exec(e: &[char]) -> (r: Result<(Vec<char>, CategoryStatus), String>)
    ensures
        match (r, entry_fields(e@)) {
            (Ok((n, s)), EntryModel::Category(m, t)) => n@ == m && s == t,
            (Err(x), EntryModel::Invalid(m)) => x@ == m,
            _ => false,
        },
{
    let n = e.len();
    assert(e@.subrange(0, n as int) =~= e@);
    let eq = match find_char_exec(e, 0, n, '=') {
        None => {
            return Err(message("malformed category entry: ", e));
        },
        Some(i) => i,
    };
    proof {
        lemma_find_char(e@, '=');
    }
    let ghost rest = e@.skip(eq + 1);
    assert(e@.subrange(eq + 1, n as int) =~= rest);
    let colon = match find_char_exec(e, eq + 1, n, ':') {
        None => {
            return Err(message("malformed category entry: ", e));
        },
        Some(j) => j,
    };
    proof {
        lemma_find_char(rest, ':');
    }
    let (ca, cb) = trim_bounds(e, eq + 1, eq + 1 + colon);
    assert(e@.subrange(eq + 1, eq + 1 + colon) =~= rest.take(colon as int));
    let cname = slice_vec(e, ca, cb);
    let colour = match colour_exec(cname.as_slice()) {
        None => return Err(message("unknown colour: ", cname.as_slice())),
        Some(c) => c,
    };
    let (la, lb) = trim_bounds(e, eq + 2 + colon, n);
    assert(e@.subrange(eq + 2 + colon, n as int) =~= rest.skip(colon + 1));
    let limit = match parse_u32_exec(e, la, lb) {
        None => return Err(message("non-numeric limit in: ", e)),
        Some(l) => l,
    };
    let (na, nb) = trim_bounds(e, 0, eq);
    assert(e@.subrange(0, eq as int) =~= e@.take(eq as int));
    let name = slice_vec(e, na, nb);
    Ok((name, CategoryStatus { colour, limit }))
}

fn entry_exec(raw: &[char]) -> (r: Result<Option<(Vec<char>, CategoryStatus)>, String>)
    ensures
        match (r, entry_model(raw@)) {
            (Ok(None), EntryModel::Blank) => true,
            (Ok(Some((n, s))), EntryModel::Category(m, t)) => n@ == m && s == t,
            (Err(e), EntryModel::Invalid(m)) => e@ == m,
            _ => false,
        },
{
    let (a, b) = trim_bounds(raw, 0, raw.len());
    assert(raw@.subrange(0, raw@.len() as int) =~= raw@);
    let e = slice_vec(raw, a, b);
    if e.len() == 0 {
        return Ok(None);
    }
    assert(entry_model(raw@) == entry_fields(e@));
    match entry_fields_exec(e.as_slice()) {
        Ok(x) => Ok(Some(x)),
        Err(m) => Err(m),
    }
}

fn state_exec(s: &[char]) -> (r: Option<ServiceState>)
    ensures
        r == state_named(s@),
{
    if chars_eq_str(s, "idle") {
        Some(ServiceState::Idle)
    } else if chars_eq_str(s, "busy") {
        Some(ServiceState::Busy)
    } else if chars_eq_str(s, "overloaded") {
        Some(ServiceState::Overloaded)
    } else {
        None
    }
}

/// The name before the header's `(`, trimmed.
pub open spec fn named_state_text(h: Seq<char>) -> Seq<char> {
    let v = trim(h);
    let open = match find_char(v, '(') {
        Some(i) => i,
        None => 0,
    };
    trim(v.take(open))
}

/// A parsed header is in the state its text names before the `(`: idle,
/// busy or overloaded, each name giving its own state.
pub proof fn law_state_is_the_one_named(h: Seq<char>)
    ensures
        parse_model(h) matches Ok((st, _)) ==> {
            &&& (st == ServiceState::Idle <==> named_state_text(h) == "idle"@)
            &&& (st == ServiceState::Busy <==> named_state_text(h) == "busy"@)
            &&& (st == ServiceState::Overloaded <==> named_state_text(h) == "overloaded"@)
        },
{
    reveal_strlit("idle");
    reveal_strlit("busy");
    reveal_strlit("overloaded");
    assert("idle"@.len() == 4 && "busy"@.len() == 4 && "overloaded"@.len() == 10);
    assert("idle"@[0] == 'i' && "busy"@[0] == 'b');
}

pub open spec fn control_view(t: ThrottleControl) -> (ServiceState, Seq<(Seq<char>, CategoryStatus)>) {
    (t.state, entries_view(t.categories@))
}

/// Parses the header value.
#[verifier::rlimit(40)]
pub fn parse(header_value: &str) -> (r: Result<ThrottleControl, OpsError>)
    ensures
        match (r, parse_model(header_value@)) {
            (Ok(t), Ok(m)) => control_view(t) == m,
            (Err(OpsError::Parse(e)), Err(m)) => e@ == m,
            _ => false,
        },
        r matches Ok(t) ==> names_ascending(entries_view(t.categories@)) && distinct_keys(entries_view(t.categories@)),
        r matches Ok(t) ==> {
            &&& (t.state == ServiceState::Idle <==> named_state_text(header_value@) == "idle"@)
            &&& (t.state == ServiceState::Busy <==> named_state_text(header_value@) == "busy"@)
            &&& (t.state == ServiceState::Overloaded <==> named_state_text(header_value@) == "overloaded"@)
        },
{
    proof {
        law_state_is_the_one_named(header_value@);
    }
    let value = trimmed(header_value);
    let n = value.len();
    assert(value@.subrange(0, n as int) =~= value@);
    let open = match find_char_exec(value.as_slice(), 0, n, '(') {
        None => return Err(OpsError::Parse(message("no '(' in throttling header: ", value.as_slice()))),
        Some(i) => i,
    };
    let close = match rfind_char_exec(value.as_slice(), 0, n, ')') {
        None => return Err(OpsError::Parse(message("no ')' in throttling header: ", value.as_slice()))),
        Some(i) => i,
    };
    proof {
        lemma_find_char(value@, '(');
        lemma_rfind_char(value@, ')');
    }
    if close < open {
        return Err(OpsError::Parse(message("malformed throttling header: ", value.as_slice())));
    }
    let (sa, sb) = trim_bounds(value.as_slice(), 0, open);
    assert(value@.subrange(0, open as int) =~= value@.take(open as int));
    let sname = slice_vec(value.as_slice(), sa, sb);
    let state = match state_exec(sname.as_slice()) {
        None => return Err(OpsError::Parse(message("unknown service state: ", sname.as_slice()))),
        Some(s) => s,
    };
    let inner = slice_vec(value.as_slice(), open + 1, close);
    let entries = split_chars(inner.as_slice(), ',');
    let ghost es = views(entries@);
    let mut categories: Vec<(String, CategoryStatus)> = Vec::new();
    let mut i: usize = 0;
    assert(es.take(0) =~= Seq::<Seq<char>>::empty());
    assert(entries_view(categories@) =~= Seq::<(Seq<char>, CategoryStatus)>::empty());
    assert(inner@ =~= value@.subrange(open + 1, close as int));
    let ghost want = parse_model(header_value@);
    assert(want == match entries_model(es) {
        Err(m) => Err(m),
        Ok(c) => Ok((state, c)),
    });
    while i < entries.len()
        invariant
            i <= entries.len(),
            es == views(entries@),
            want == parse_model(header_value@),
            want == match entries_model(es) {
                Err(m) => Err(m),
                Ok(c) => Ok((state, c)),
            },
            entries_model(es.take(i as int)) == Ok::<Seq<(Seq<char>, CategoryStatus)>, Seq<char>>(
                entries_view(categories@),
            ),
        decreases entries.len() - i,
    {
        assert(es.take(i + 1).drop_last() =~= es.take(i as int));
        assert(es.take(i + 1).last() == entries@[i as int]@);
        match entry_exec(entries[i].as_slice()) {
            Err(m) => {
                proof {
                    assert(entry_model(es.take(i + 1).last()) == EntryModel::Invalid(m@));
                    assert(entries_model(es.take(i + 1)) == Err::<Seq<(Seq<char>, CategoryStatus)>, Seq<char>>(m@));
                    lemma_entries_err(es, i as int + 1);
                }
                return Err(OpsError::Parse(m));
            },
            Ok(None) => {},
            Ok(Some((name, status))) => {
                insert_exec(&mut categories, name, status);
            },
        }
        i += 1;
    }
    assert(es.take(entries.len() as int) =~= es);
    proof {
        lemma_entries_ascending(es);
    }
    Ok(ThrottleControl { state, categories })
}

/// Once an entry fails, so does every longer list of entries.
proof fn lemma_entries_err(es: Seq<Seq<char>>, k: int)
    requires
        0 <= k <= es.len(),
        entries_model(es.take(k)) is Err,
    ensures
        entries_model(es) == entries_model(es.take(k)),
    decreases es.len() - k,
{
    if k < es.len() {
        assert(es.take(k + 1).drop_last() =~= es.take(k));
        lemma_entries_err(es, k + 1);
    } else {
        assert(es.take(k) =~= es);
    }
}

} // verus!
