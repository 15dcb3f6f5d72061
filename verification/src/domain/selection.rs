//! The source cascades: which publication supplies the English title or
//! abstract, the full text, and the drawings of a document.
//! 1. the requested publication itself;
//! 2. another publication of the same application;
//! 3. a family member, preferring WO, then US, GB, EP, then any other;
//! 4. otherwise none.
use vstd::prelude::*;
use crate::text::{
    chars_eq_str, chars_lt, chars_of, eq_ignore_ascii_case, eq_ignore_case, opt_seq, opt_str_eq,
    seq_lt, str_eq,
};

verus! {

/// Texts by language code, a map held as pairs: each language occurs once,
/// and the parsers give them in the order of the codes.
pub type LangTexts = Vec<(String, String)>;

#[derive(Debug, Clone, PartialEq, Eq)]
pub struct Candidate {
    pub docdb_id: String,
    pub country: String,
    pub application_number: Option<String>,
    pub titles: LangTexts,
    pub abstracts: LangTexts,
}

#[derive(Debug, Clone, PartialEq, Eq)]
pub struct Selected {
    pub text: String,
    pub source_docdb_id: String,
}

/// A publication considered as a full-text source. `langs` are the
/// languages of its description or claims, each once.
#[derive(Debug, Clone, PartialEq, Eq)]
pub struct FulltextCandidate {
    pub docdb_id: String,
    pub country: String,
    pub application_number: Option<String>,
    pub langs: Vec<String>,
}

#[derive(Debug, Clone, PartialEq, Eq)]
pub struct FulltextSelected {
    pub source_docdb_id: String,
    pub lang: String,
    /// No English text exists anywhere in the cascade.
    pub non_english_only: bool,
}

/// A publication considered as a drawings source.
#[derive(Debug, Clone, PartialEq, Eq)]
pub struct DrawingsCandidate {
    pub docdb_id: String,
    pub country: String,
    pub application_number: Option<String>,
    pub has_drawings: bool,
}

#[derive(Debug, Clone, PartialEq, Eq)]
pub struct DrawingsSelected {
    pub source_docdb_id: String,
}

/// What the cascade knows of a publication: its id, country, application
/// number and whether it can supply what is asked for.
pub struct Key {
    pub id: Seq<char>,
    pub country: Seq<char>,
    pub app: Option<Seq<char>>,
    pub eligible: bool,
}

pub enum Source {
    Requested,
    Member(int),
}

/// The family-member preference: WO, then US, GB, EP, then any other
/// (lower is preferred).
pub open spec fn priority(country: Seq<char>) -> int {
    if country == "WO"@ {
        0
    } else if country == "US"@ {
        1
    } else if country == "GB"@ {
        2
    } else if country == "EP"@ {
        3
    } else {
        4
    }
}

pub open spec fn other_eligible(req: Key, k: Key) -> bool {
    k.id != req.id && k.eligible
}

/// The first eligible member, other than the requested publication, of
/// the requested publication's application `app`.
pub open spec fn first_same_app(req: Key, fam: Seq<Key>, app: Seq<char>) -> Option<int>
    decreases fam.len(),
{
    if fam.len() == 0 {
        None
    } else {
        match first_same_app(req, fam.drop_last(), app) {
            Some(i) => Some(i),
            None => if other_eligible(req, fam.last()) && fam.last().app == Some(app) {
                Some(fam.len() - 1)
            } else {
                None
            },
        }
    }
}

/// The first eligible member, other than the requested publication, of
/// the most preferred country.
pub open spec fn best_member(req: Key, fam: Seq<Key>) -> Option<int>
    decreases fam.len(),
{
    if fam.len() == 0 {
        None
    } else {
        let p = best_member(req, fam.drop_last());
        if other_eligible(req, fam.last()) {
            match p {
                None => Some(fam.len() - 1),
                Some(j) => if priority(fam.last().country) < priority(fam[j].country) {
                    Some(fam.len() - 1)
                } else {
                    Some(j)
                },
            }
        } else {
            p
        }
    }
}

/// The cascade: the requested publication, else the first publication of
/// the same application, else the preferred family member.
pub open spec fn cascade(req: Key, fam: Seq<Key>) -> Option<Source> {
    if req.eligible {
        Some(Source::Requested)
    } else {
        let same = match req.app {
            Some(a) => first_same_app(req, fam, a),
            None => None,
        };
        match same {
            Some(i) => Some(Source::Member(i)),
            None => match best_member(req, fam) {
                Some(i) => Some(Source::Member(i)),
                None => None,
            },
        }
    }
}

pub struct ExecKey {
    pub id: Vec<char>,
    pub country: Vec<char>,
    pub app: Option<Vec<char>>,
    pub eligible: bool,
}

pub open spec fn opt_chars(o: Option<Vec<char>>) -> Option<Seq<char>> {
    match o {
        Some(v) => Some(v@),
        None => None,
    }
}

impl View for ExecKey {
    type V = Key;

    open spec fn view(&self) -> Key {
        Key { id: self.id@, country: self.country@, app: opt_chars(self.app), eligible: self.eligible }
    }
}

pub open spec fn keys_view(ks: Seq<ExecKey>) -> Seq<Key> {
    ks.map_values(|k: ExecKey| k@)
}

fn priority_exec(c: &[char]) -> (r: u8)
    ensures
        r as int == priority(c@),
{
    if chars_eq_str(c, "WO") {
        0
    } else if chars_eq_str(c, "US") {
        1
    } else if chars_eq_str(c, "GB") {
        2
    } else if chars_eq_str(c, "EP") {
        3
    } else {
        4
    }
}

fn opt_chars_eq(a: &Option<Vec<char>>, b: &[char]) -> (r: bool)
    ensures
        r == (opt_chars(*a) == Some(b@)),
{
    match a {
        Some(x) => crate::text::chars_eq(x.as_slice(), b),
        None => false,
    }
}

fn make_key(id: &String, country: &String, app: &Option<String>, eligible: bool) -> (k: ExecKey)
    ensures
        k@ == (Key { id: id@, country: country@, app: opt_seq(*app), eligible }),
{
    ExecKey {
        id: chars_of(id.as_str()),
        country: chars_of(country.as_str()),
        app: match app {
            Some(a) => Some(chars_of(a.as_str())),
            None => None,
        },
        eligible,
    }
}

/// Runs the cascade over the keys.
fn run_cascade(req: &ExecKey, fam: &Vec<ExecKey>) -> (r: Option<Option<usize>>)
    ensures
        match (r, cascade(req@, keys_view(fam@))) {
            (None, None) => true,
            (Some(None), Some(Source::Requested)) => true,
            (Some(Some(i)), Some(Source::Member(j))) => i == j && i < fam@.len(),
            _ => false,
        },
{
    if req.eligible {
        return Some(None);
    }
    let ghost ks = keys_view(fam@);
    if let Some(app) = &req.app {
        let mut i: usize = 0;
        while i < fam.len()
            invariant
                i <= fam.len(),
                ks == keys_view(fam@),
                req@.app == Some(app@),
                !req@.eligible,
                first_same_app(req@, ks.take(i as int), app@) is None,
            decreases fam.len() - i,
        {
            assert(ks.take(i + 1).drop_last() =~= ks.take(i as int));
            let k = &fam[i];
            if !crate::text::chars_eq(k.id.as_slice(), req.id.as_slice()) && k.eligible && opt_chars_eq(&k.app, app.as_slice()) {
                proof {
                    assert(ks.take(i + 1).last() == fam@[i as int]@);
                    assert(first_same_app(req@, ks.take(i + 1), app@) == Some(i as int));
                    lemma_first_same_app_prefix(req@, ks, app@, i as int + 1);
                }
                return Some(Some(i));
            }
            i += 1;
        }
        assert(ks.take(fam.len() as int) =~= ks);
    }
    let mut best: Option<usize> = None;
    let mut best_prio: u8 = 5;
    let mut i: usize = 0;
    while i < fam.len()
        invariant
            i <= fam.len(),
            ks == keys_view(fam@),
            match (best, best_member(req@, ks.take(i as int))) {
                (None, None) => true,
                (Some(b), Some(j)) => b == j && b < i && best_prio as int == priority(ks[j].country),
                _ => false,
            },
        decreases fam.len() - i,
    {
        assert(ks.take(i + 1).drop_last() =~= ks.take(i as int));
        let k = &fam[i];
        if !crate::text::chars_eq(k.id.as_slice(), req.id.as_slice()) && k.eligible {
            let p = priority_exec(k.country.as_slice());
            match best {
                None => {
                    best = Some(i);
                    best_prio = p;
                },
                Some(_) => {
                    if p < best_prio {
                        best = Some(i);
                        best_prio = p;
                    }
                },
            }
        }
        i += 1;
    }
    assert(ks.take(fam.len() as int) =~= ks);
    match best {
        Some(b) => Some(Some(b)),
        None => None,
    }
}

pub proof fn lemma_cascade_eligible(req: Key, fam: Seq<Key>)
    ensures
        match cascade(req, fam) {
            Some(Source::Requested) => req.eligible,
            Some(Source::Member(i)) => 0 <= i < fam.len() && other_eligible(req, fam[i]),
            None => true,
        },
{
    lemma_best_member(req, fam);
    if let Some(a) = req.app {
        lemma_first_same_app(req, fam, a);
    }
}

pub proof fn lemma_first_same_app(req: Key, fam: Seq<Key>, app: Seq<char>)
    ensures
        match first_same_app(req, fam, app) {
            Some(i) => 0 <= i < fam.len() && other_eligible(req, fam[i]) && fam[i].app == Some(app)
                && forall|j: int| 0 <= j < i ==> !(other_eligible(req, #[trigger] fam[j]) && fam[j].app == Some(app)),
            None => forall|j: int| 0 <= j < fam.len() ==> !(other_eligible(req, #[trigger] fam[j]) && fam[j].app == Some(app)),
        },
    decreases fam.len(),
{
    if fam.len() > 0 {
        lemma_first_same_app(req, fam.drop_last(), app);
        assert(forall|j: int| 0 <= j < fam.len() - 1 ==> fam[j] == fam.drop_last()[j]);
    }
}

pub proof fn lemma_best_member(req: Key, fam: Seq<Key>)
    ensures
        match best_member(req, fam) {
            Some(i) => 0 <= i < fam.len() && other_eligible(req, fam[i])
                && (forall|j: int| 0 <= j < fam.len() && other_eligible(req, #[trigger] fam[j])
                    ==> priority(fam[i].country) <= priority(fam[j].country))
                && (forall|j: int| 0 <= j < i && other_eligible(req, #[trigger] fam[j])
                    ==> priority(fam[i].country) < priority(fam[j].country)),
            None => forall|j: int| 0 <= j < fam.len() ==> !other_eligible(req, #[trigger] fam[j]),
        },
    decreases fam.len(),
{
    if fam.len() > 0 {
        lemma_best_member(req, fam.drop_last());
        assert(forall|j: int| 0 <= j < fam.len() - 1 ==> fam[j] == fam.drop_last()[j]);
    }
}

/// The cascade's order. The requested publication is taken exactly when it
/// can supply the part; otherwise another publication that can: one of the
/// same application whenever there is one, else one of the most preferred
/// country among the family; none only when no publication can.
pub proof fn law_cascade_order(req: Key, fam: Seq<Key>)
    ensures
        (cascade(req, fam) == Some(Source::Requested)) <==> req.eligible,
        cascade(req, fam) matches Some(Source::Member(i)) ==> {
            &&& 0 <= i < fam.len()
            &&& other_eligible(req, fam[i])
            &&& (exists|j: int|
                0 <= j < fam.len() && other_eligible(req, #[trigger] fam[j]) && req.app is Some && fam[j].app
                    == req.app) ==> fam[i].app == req.app
            &&& !(exists|j: int|
                0 <= j < fam.len() && other_eligible(req, #[trigger] fam[j]) && req.app is Some && fam[j].app
                    == req.app) ==> forall|j: int|
                0 <= j < fam.len() && other_eligible(req, #[trigger] fam[j]) ==> priority(fam[i].country)
                    <= priority(fam[j].country)
        },
        (cascade(req, fam) is None) <==> (!req.eligible && forall|j: int|
            0 <= j < fam.len() ==> !other_eligible(req, #[trigger] fam[j])),
{
    lemma_cascade_eligible(req, fam);
    lemma_best_member(req, fam);
    if let Some(a) = req.app {
        lemma_first_same_app(req, fam, a);
    }
}

proof fn lemma_first_same_app_prefix(req: Key, fam: Seq<Key>, app: Seq<char>, k: int)
    requires
        0 <= k <= fam.len(),
        first_same_app(req, fam.take(k), app) is Some,
    ensures
        first_same_app(req, fam, app) == first_same_app(req, fam.take(k), app),
    decreases fam.len() - k,
{
    if k < fam.len() {
        assert(fam.take(k + 1).drop_last() =~= fam.take(k));
        lemma_first_same_app_prefix(req, fam, app, k + 1);
    } else {
        assert(fam.take(k) =~= fam);
    }
}

/// The value of the first entry for `k` among `(key, value)` pairs.
pub open spec fn lookup(m: Seq<(String, String)>, k: Seq<char>) -> Option<Seq<char>>
    decreases m.len(),
{
    if m.len() == 0 {
        None
    } else {
        match lookup(m.drop_last(), k) {
            Some(v) => Some(v),
            None => if m.last().0@ == k {
                Some(m.last().1@)
            } else {
                None
            },
        }
    }
}

fn lookup_en(m: &LangTexts) -> (r: Option<String>)
    ensures
        opt_seq(r) == lookup(m@, "en"@),
{
    let mut i: usize = 0;
    while i < m.len()
        invariant
            i <= m.len(),
            lookup(m@.take(i as int), "en"@) is None,
        decreases m.len() - i,
    {
        assert(m@.take(i + 1).drop_last() =~= m@.take(i as int));
        if str_eq(m[i].0.as_str(), "en") {
            proof {
                lemma_lookup_prefix(m@, "en"@, i as int + 1);
            }
            return Some(m[i].1.clone());
        }
        i += 1;
    }
    assert(m@.take(m.len() as int) =~= m@);
    None
}

proof fn lemma_lookup_prefix(m: Seq<(String, String)>, k: Seq<char>, n: int)
    requires
        0 <= n <= m.len(),
        lookup(m.take(n), k) is Some,
    ensures
        lookup(m, k) == lookup(m.take(n), k),
    decreases m.len() - n,
{
    if n < m.len() {
        assert(m.take(n + 1).drop_last() =~= m.take(n));
        lemma_lookup_prefix(m, k, n + 1);
    } else {
        assert(m.take(n) =~= m);
    }
}

pub open spec fn field(c: Candidate, use_titles: bool) -> Seq<(String, String)> {
    if use_titles {
        c.titles@
    } else {
        c.abstracts@
    }
}

pub open spec fn text_key(c: Candidate, use_titles: bool) -> Key {
    Key {
        id: c.docdb_id@,
        country: c.country@,
        app: opt_seq(c.application_number),
        eligible: lookup(field(c, use_titles), "en"@) is Some,
    }
}

/// The text and its source that the cascade selects: the English text of
/// the first publication in cascade order that has one.
pub open spec fn select_text_model(req: Candidate, fam: Seq<Candidate>, use_titles: bool) -> Option<(Seq<char>, Seq<char>)> {
    let keys = fam.map_values(|c: Candidate| text_key(c, use_titles));
    match cascade(text_key(req, use_titles), keys) {
        None => None,
        Some(Source::Requested) => Some((lookup(field(req, use_titles), "en"@).unwrap(), req.docdb_id@)),
        Some(Source::Member(i)) => Some((lookup(field(fam[i], use_titles), "en"@).unwrap(), fam[i].docdb_id@)),
    }
}

pub open spec fn selected_view(s: Option<Selected>) -> Option<(Seq<char>, Seq<char>)> {
    match s {
        Some(x) => Some((x.text@, x.source_docdb_id@)),
        None => None,
    }
}

fn select_text(requested: &Candidate, family_members: &[Candidate], use_titles: bool) -> (r: Option<Selected>)
    ensures
        selected_view(r) == select_text_model(*requested, family_members@, use_titles),
{
    let ghost keys = family_members@.map_values(|c: Candidate| text_key(c, use_titles));
    let req_text = lookup_en(if use_titles { &requested.titles } else { &requested.abstracts });
    let req_key = make_key(&requested.docdb_id, &requested.country, &requested.application_number, req_text.is_some());
    let mut fam: Vec<ExecKey> = Vec::new();
    let mut texts: Vec<Option<String>> = Vec::new();
    let mut i: usize = 0;
    while i < family_members.len()
        invariant
            i <= family_members.len(),
            fam@.len() == i,
            texts@.len() == i,
            keys == family_members@.map_values(|c: Candidate| text_key(c, use_titles)),
            keys_view(fam@) == keys.take(i as int),
            forall|j: int| 0 <= j < i ==> opt_seq(#[trigger] texts@[j]) == lookup(field(family_members@[j], use_titles), "en"@),
        decreases family_members.len() - i,
    {
        let c = &family_members[i];
        let t = lookup_en(if use_titles { &c.titles } else { &c.abstracts });
        let k = make_key(&c.docdb_id, &c.country, &c.application_number, t.is_some());
        fam.push(k);
        texts.push(t);
        assert(keys_view(fam@) =~= keys.take(i + 1));
        i += 1;
    }
    assert(keys.take(family_members.len() as int) =~= keys);
    match run_cascade(&req_key, &fam) {
        None => None,
        Some(None) => Some(Selected { text: req_text.unwrap(), source_docdb_id: requested.docdb_id.clone() }),
        Some(Some(j)) => {
            proof {
                lemma_cascade_eligible(req_key@, keys);
            }
            let t = texts[j].clone();
            assert(keys[j as int].eligible);
            Some(Selected { text: t.unwrap(), source_docdb_id: family_members[j].docdb_id.clone() })
        },
    }
}

/// The English abstract and its source.
pub fn select_abstract(requested: &Candidate, family_members: &[Candidate]) -> (r: Option<Selected>)
    ensures
        selected_view(r) == select_text_model(*requested, family_members@, false),
{
    select_text(requested, family_members, false)
}

/// The English title and its source, by the same cascade.
pub fn select_title(requested: &Candidate, family_members: &[Candidate]) -> (r: Option<Selected>)
    ensures
        selected_view(r) == select_text_model(*requested, family_members@, true),
{
    select_text(requested, family_members, true)
}

/// The language a full-text source offers: the first, in sorted order,
/// of its languages (only those equal to `en` ignoring ASCII case when
/// `english`).
pub open spec fn pick_lang(langs: Seq<String>, english: bool) -> Option<Seq<char>>
    decreases langs.len(),
{
    if langs.len() == 0 {
        None
    } else {
        let p = pick_lang(langs.drop_last(), english);
        let l = langs.last()@;
        if english && !eq_ignore_ascii_case(l, "en"@) {
            p
        } else {
            match p {
                None => Some(l),
                Some(m) => if seq_lt(l, m) {
                    Some(l)
                } else {
                    Some(m)
                },
            }
        }
    }
}

fn pick_lang_exec(langs: &Vec<String>, english: bool) -> (r: Option<String>)
    ensures
        opt_seq(r) == pick_lang(langs@, english),
{
    let en = chars_of("en");
    let mut best: Option<String> = None;
    let mut i: usize = 0;
    while i < langs.len()
        invariant
            i <= langs.len(),
            en@ == "en"@,
            opt_seq(best) == pick_lang(langs@.take(i as int), english),
        decreases langs.len() - i,
    {
        assert(langs@.take(i + 1).drop_last() =~= langs@.take(i as int));
        let l = chars_of(langs[i].as_str());
        if !english || eq_ignore_case(l.as_slice(), en.as_slice()) {
            match &best {
                None => {
                    best = Some(langs[i].clone());
                },
                Some(m) => {
                    let mc = chars_of(m.as_str());
                    if chars_lt(l.as_slice(), mc.as_slice()) {
                        best = Some(langs[i].clone());
                    }
                },
            }
        }
        i += 1;
    }
    assert(langs@.take(langs.len() as int) =~= langs@);
    best
}

pub open spec fn fulltext_key(c: FulltextCandidate, english: bool) -> Key {
    Key {
        id: c.docdb_id@,
        country: c.country@,
        app: opt_seq(c.application_number),
        eligible: pick_lang(c.langs@, english) is Some,
    }
}

/// The source and language one pass of the full-text cascade selects.
pub open spec fn fulltext_pass(req: FulltextCandidate, fam: Seq<FulltextCandidate>, english: bool) -> Option<(Seq<char>, Seq<char>)> {
    let keys = fam.map_values(|c: FulltextCandidate| fulltext_key(c, english));
    match cascade(fulltext_key(req, english), keys) {
        None => None,
        Some(Source::Requested) => Some((req.docdb_id@, pick_lang(req.langs@, english).unwrap())),
        Some(Source::Member(i)) => Some((fam[i].docdb_id@, pick_lang(fam[i].langs@, english).unwrap())),
    }
}

/// The full-text cascade: English text first; when no publication in the
/// cascade has English, the same cascade accepting any language.
pub open spec fn select_fulltext_model(req: FulltextCandidate, fam: Seq<FulltextCandidate>) -> Option<(Seq<char>, Seq<char>, bool)> {
    match fulltext_pass(req, fam, true) {
        Some((id, lang)) => Some((id, lang, false)),
        None => match fulltext_pass(req, fam, false) {
            Some((id, lang)) => Some((id, lang, true)),
            None => None,
        },
    }
}

pub open spec fn fulltext_selected_view(s: Option<FulltextSelected>) -> Option<(Seq<char>, Seq<char>, bool)> {
    match s {
        Some(x) => Some((x.source_docdb_id@, x.lang@, x.non_english_only)),
        None => None,
    }
}

fn fulltext_cascade(requested: &FulltextCandidate, family_members: &[FulltextCandidate], english: bool) -> (r: Option<(String, String)>)
    ensures
        match (r, fulltext_pass(*requested, family_members@, english)) {
            (None, None) => true,
            (Some((id, lang)), Some((i, l))) => id@ == i && lang@ == l,
            _ => false,
        },
{
    let ghost keys = family_members@.map_values(|c: FulltextCandidate| fulltext_key(c, english));
    let req_lang = pick_lang_exec(&requested.langs, english);
    let req_key = make_key(&requested.docdb_id, &requested.country, &requested.application_number, req_lang.is_some());
    let mut fam: Vec<ExecKey> = Vec::new();
    let mut langs: Vec<Option<String>> = Vec::new();
    let mut i: usize = 0;
    while i < family_members.len()
        invariant
            i <= family_members.len(),
            fam@.len() == i,
            langs@.len() == i,
            keys == family_members@.map_values(|c: FulltextCandidate| fulltext_key(c, english)),
            keys_view(fam@) == keys.take(i as int),
            forall|j: int| 0 <= j < i ==> opt_seq(#[trigger] langs@[j]) == pick_lang(family_members@[j].langs@, english),
        decreases family_members.len() - i,
    {
        let c = &family_members[i];
        let l = pick_lang_exec(&c.langs, english);
        let k = make_key(&c.docdb_id, &c.country, &c.application_number, l.is_some());
        fam.push(k);
        langs.push(l);
        assert(keys_view(fam@) =~= keys.take(i + 1));
        i += 1;
    }
    assert(keys.take(family_members.len() as int) =~= keys);
    match run_cascade(&req_key, &fam) {
        None => None,
        Some(None) => Some((requested.docdb_id.clone(), req_lang.unwrap())),
        Some(Some(j)) => {
            proof {
                lemma_cascade_eligible(req_key@, keys);
            }
            let l = langs[j].clone();
            assert(keys[j as int].eligible);
            Some((family_members[j].docdb_id.clone(), l.unwrap()))
        },
    }
}

/// The full-text source: the English cascade, else the same cascade over
/// any language (then `non_english_only` is set).
pub fn select_fulltext(requested: &FulltextCandidate, family_members: &[FulltextCandidate]) -> (r: Option<FulltextSelected>)
    ensures
        fulltext_selected_view(r) == select_fulltext_model(*requested, family_members@),
{
    if let Some((id, lang)) = fulltext_cascade(requested, family_members, true) {
        return Some(FulltextSelected { source_docdb_id: id, lang, non_english_only: false });
    }
    match fulltext_cascade(requested, family_members, false) {
        Some((id, lang)) => Some(FulltextSelected { source_docdb_id: id, lang, non_english_only: true }),
        None => None,
    }
}

pub open spec fn drawings_key(c: DrawingsCandidate) -> Key {
    Key { id: c.docdb_id@, country: c.country@, app: opt_seq(c.application_number), eligible: c.has_drawings }
}

/// The drawings source: the requested publication (the full text's, else
/// the abstract's), else one of the same application, else the preferred
/// family member with drawings.
pub open spec fn select_drawings_model(req: DrawingsCandidate, fam: Seq<DrawingsCandidate>) -> Option<Seq<char>> {
    match cascade(drawings_key(req), fam.map_values(|c: DrawingsCandidate| drawings_key(c))) {
        None => None,
        Some(Source::Requested) => Some(req.docdb_id@),
        Some(Source::Member(i)) => Some(fam[i].docdb_id@),
    }
}

pub fn select_drawings(requested: &DrawingsCandidate, family_members: &[DrawingsCandidate]) -> (r: Option<DrawingsSelected>)
    ensures
        match (r, select_drawings_model(*requested, family_members@)) {
            (None, None) => true,
            (Some(s), Some(id)) => s.source_docdb_id@ == id,
            _ => false,
        },
{
    let ghost keys = family_members@.map_values(|c: DrawingsCandidate| drawings_key(c));
    let req_key = make_key(&requested.docdb_id, &requested.country, &requested.application_number, requested.has_drawings);
    let mut fam: Vec<ExecKey> = Vec::new();
    let mut i: usize = 0;
    while i < family_members.len()
        invariant
            i <= family_members.len(),
            fam@.len() == i,
            keys == family_members@.map_values(|c: DrawingsCandidate| drawings_key(c)),
            keys_view(fam@) == keys.take(i as int),
        decreases family_members.len() - i,
    {
        let c = &family_members[i];
        let k = make_key(&c.docdb_id, &c.country, &c.application_number, c.has_drawings);
        fam.push(k);
        assert(keys_view(fam@) =~= keys.take(i + 1));
        i += 1;
    }
    assert(keys.take(family_members.len() as int) =~= keys);
    match run_cascade(&req_key, &fam) {
        None => None,
        Some(None) => Some(DrawingsSelected { source_docdb_id: requested.docdb_id.clone() }),
        Some(Some(j)) => Some(DrawingsSelected { source_docdb_id: family_members[j].docdb_id.clone() }),
    }
}

} // verus!
