//! Tags: the fields as edited and their checks, the walk up a proposed
//! parent's ancestors, and the tag schema as exported and imported.
use vstd::prelude::*;
use crate::text::{chars_of, str_eq, strs_view, to_lowercase, trim, trim_str, unicode_lowercase};

verus! {

/// Keys the Review screen binds itself, which a tag hotkey would shadow.
pub const RESERVED_HOTKEYS: [&'static str; 4] = ["j", "k", "s", "/"];

/// Review states of documents whose tag set has been decided.
pub const REVIEWED_STATES: &'static str = "('validated', 'auto_completed')";

/// The user-editable part of a tag. Surrounding whitespace is trimmed, and
/// an empty colour or hotkey means none.
#[derive(Debug, Clone, Copy)]
pub struct TagFields<'a> {
    pub name: &'a str,
    pub definition: &'a str,
    pub parent_id: Option<i64>,
    pub color: Option<&'a str>,
    pub hotkey: Option<&'a str>,
}

/// A trimmed optional field, none when blank.
pub open spec fn blank_to_none(v: Option<&str>) -> Option<Seq<char>> {
    match v {
        None => None,
        Some(s) => if trim(s@).len() == 0 {
            None
        } else {
            Some(trim(s@))
        },
    }
}

pub open spec fn opt_str_view(v: Option<&str>) -> Option<Seq<char>> {
    match v {
        None => None,
        Some(s) => Some(s@),
    }
}

pub fn blank_to_none_exec<'a>(v: Option<&'a str>) -> (r: Option<&'a str>)
    ensures
        opt_str_view(r) == blank_to_none(v),
{
    match v {
        None => None,
        Some(s) => {
            let t = trim_str(s);
            if t.is_empty() {
                None
            } else {
                Some(t)
            }
        },
    }
}

impl<'a> TagFields<'a> {
    /// The fields trimmed, with blank optional fields as none.
    pub fn normalised(self) -> (r: Self)
        ensures
            r.name@ == trim(self.name@),
            r.definition@ == trim(self.definition@),
            r.parent_id == self.parent_id,
            opt_str_view(r.color) == blank_to_none(self.color),
            opt_str_view(r.hotkey) == blank_to_none(self.hotkey),
    {
        TagFields {
            name: trim_str(self.name),
            definition: trim_str(self.definition),
            parent_id: self.parent_id,
            color: blank_to_none_exec(self.color),
            hotkey: blank_to_none_exec(self.hotkey),
        }
    }
}

/// The definitional part of a tag for schema export and import. `parent`
/// is the parent tag's name, since ids do not carry over.
#[derive(Debug, Clone, PartialEq)]
pub struct TagSchema {
    pub name: String,
    pub definition: String,
    pub parent: Option<String>,
    pub color: Option<String>,
    pub hotkey: Option<String>,
}

/// What a schema import did.
#[derive(Debug, Clone, PartialEq)]
pub struct SchemaImport {
    /// Ids of the tags created, in schema order.
    pub created: Vec<i64>,
    /// Names of created tags whose hotkey was dropped.
    pub hotkeys_dropped: Vec<String>,
    /// Names of created tags left at the top level.
    pub parents_dropped: Vec<String>,
}

/// Label counts per tag.
#[derive(Debug, Clone, PartialEq)]
pub struct TagStats {
    pub tag_id: i64,
    pub human_pos: i64,
    pub human_neg: i64,
    pub auto_pos: i64,
    pub auto_neg: i64,
    /// Reviewed documents with no label for this tag.
    pub unlabelled: i64,
    /// Human labels written under an older tag version.
    pub stale: i64,
}


#[derive(Debug)]
pub enum TagError {
    Storage(crate::domain::storage::StorageError),
    NotFound(i64),
    EmptyName,
    EmptyDefinition,
    DuplicateName(String),
    InvalidHotkey,
    ReservedHotkey(String),
    HotkeyInUse(String, String),
    InvalidParent,
    Archived,
}

impl From<crate::domain::storage::StorageError> for TagError {
    fn from(e: crate::domain::storage::StorageError) -> (r: Self) {
        TagError::Storage(e)
    }
}

impl vstd::std_specs::convert::FromSpecImpl<crate::domain::storage::StorageError> for TagError {
    open spec fn obeys_from_spec() -> bool {
        true
    }

    open spec fn from_spec(e: crate::domain::storage::StorageError) -> TagError {
        TagError::Storage(e)
    }
}

impl From<rusqlite::Error> for TagError {
    fn from(e: rusqlite::Error) -> (r: Self) {
        TagError::Storage(crate::domain::storage::StorageError::Sqlite(e))
    }
}

impl vstd::std_specs::convert::FromSpecImpl<rusqlite::Error> for TagError {
    open spec fn obeys_from_spec() -> bool {
        true
    }

    open spec fn from_spec(e: rusqlite::Error) -> TagError {
        TagError::Storage(crate::domain::storage::StorageError::Sqlite(e))
    }
}

/// The checks of normalised fields that need no stored tag, in order: a
/// name, then a definition.
pub fn check_name_and_definition(fields: &TagFields) -> (r: Result<(), TagError>)
    ensures
        fields.name@.len() == 0 ==> r matches Err(TagError::EmptyName),
        fields.name@.len() > 0 && fields.definition@.len() == 0 ==> r matches Err(TagError::EmptyDefinition),
        fields.name@.len() > 0 && fields.definition@.len() > 0 ==> r is Ok,
{
    if fields.name.is_empty() {
        return Err(TagError::EmptyName);
    }
    if fields.definition.is_empty() {
        return Err(TagError::EmptyDefinition);
    }
    Ok(())
}

pub open spec fn is_reserved(k: Seq<char>) -> bool {
    k == "j"@ || k == "k"@ || k == "s"@ || k == "/"@
}

/// A hotkey: exactly one character, which lowercased is none of the keys
/// the Review screen binds. Returns the lowercased key, which no other
/// active tag may use.
pub fn check_hotkey(hotkey: &str) -> (r: Result<String, TagError>)
    ensures
        hotkey@.len() != 1 ==> r matches Err(TagError::InvalidHotkey),
        hotkey@.len() == 1 && is_reserved(unicode_lowercase(hotkey@)) ==> (r matches Err(TagError::ReservedHotkey(k))
            && k@ == hotkey@),
        hotkey@.len() == 1 && !is_reserved(unicode_lowercase(hotkey@)) ==> (r matches Ok(k) && k@
            == unicode_lowercase(hotkey@)),
{
    let v = chars_of(hotkey);
    if v.len() != 1 {
        return Err(TagError::InvalidHotkey);
    }
    let lower = to_lowercase(hotkey);
    let reserved = str_eq(lower.as_str(), RESERVED_HOTKEYS[0]) || str_eq(lower.as_str(), RESERVED_HOTKEYS[1])
        || str_eq(lower.as_str(), RESERVED_HOTKEYS[2]) || str_eq(lower.as_str(), RESERVED_HOTKEYS[3]);
    assert(RESERVED_HOTKEYS[0]@ == "j"@ && RESERVED_HOTKEYS[1]@ == "k"@ && RESERVED_HOTKEYS[2]@ == "s"@
        && RESERVED_HOTKEYS[3]@ == "/"@);
    if reserved {
        return Err(TagError::ReservedHotkey(hotkey.to_owned()));
    }
    Ok(lower)
}

/// One step up the chain of ancestors of a proposed parent.
#[derive(Debug, Clone, Copy, PartialEq, Eq)]
pub enum ParentStep {
    /// The chain reaches the tag being edited (a cycle), or is too long.
    Refuse,
    /// Look at this ancestor next.
    Up(i64),
    /// The chain ends: the parent is acceptable.
    Accept,
}

/// Bound on the walk up the ancestors; it guards against a cycle already
/// stored.
pub const MAX_ANCESTOR_STEPS: u32 = 1000;

/// The step for ancestor `ancestor` (with parent `its_parent`), reached
/// after `steps` steps, when `editing` is the tag being edited (none for a
/// new tag).
pub open spec fn parent_step_model(editing: Option<i64>, steps: int, ancestor: i64, its_parent: Option<i64>) -> ParentStep {
    if editing == Some(ancestor) || steps > MAX_ANCESTOR_STEPS {
        ParentStep::Refuse
    } else {
        match its_parent {
            Some(p) => ParentStep::Up(p),
            None => ParentStep::Accept,
        }
    }
}

pub fn parent_step(editing: Option<i64>, steps: u32, ancestor: i64, its_parent: Option<i64>) -> (r: ParentStep)
    ensures
        r == parent_step_model(editing, steps as int, ancestor, its_parent),
{
    let same = match editing {
        Some(e) => e == ancestor,
        None => false,
    };
    if same || steps > MAX_ANCESTOR_STEPS {
        ParentStep::Refuse
    } else {
        match its_parent {
            Some(p) => ParentStep::Up(p),
            None => ParentStep::Accept,
        }
    }
}

/// The parent of tag `t` in `parents` (none for a tag that is not there).
pub open spec fn parent_in(parents: Map<i64, Option<i64>>, t: i64) -> Option<i64> {
    if parents.contains_key(t) {
        parents[t]
    } else {
        None
    }
}

/// The walk of `parent_step` up from `at`, reached after `steps` steps:
/// whether it ends in `Accept`.
pub open spec fn walk_accepts(parents: Map<i64, Option<i64>>, editing: Option<i64>, at: i64, steps: nat) -> bool
    decreases MAX_ANCESTOR_STEPS + 1 - steps,
{
    match parent_step_model(editing, steps as int, at, parent_in(parents, at)) {
        ParentStep::Refuse => false,
        ParentStep::Accept => true,
        ParentStep::Up(p) => walk_accepts(parents, editing, p, steps + 1),
    }
}

/// The `k`-th ancestor of `t` (`t` itself for `k == 0`), while there is one.
pub open spec fn ancestor(parents: Map<i64, Option<i64>>, t: i64, k: nat) -> Option<i64>
    decreases k,
{
    if k == 0 {
        Some(t)
    } else {
        match ancestor(parents, t, (k - 1) as nat) {
            Some(a) => parent_in(parents, a),
            None => None,
        }
    }
}

proof fn lemma_ancestor_step(parents: Map<i64, Option<i64>>, t: i64, k: nat)
    ensures
        ancestor(parents, t, k + 1) == match parent_in(parents, t) {
            Some(p) => ancestor(parents, p, k),
            None => None,
        },
    decreases k,
{
    if k > 0 {
        lemma_ancestor_step(parents, t, (k - 1) as nat);
        assert(ancestor(parents, t, k + 1) == match ancestor(parents, t, k) {
            Some(a) => parent_in(parents, a),
            None => None,
        });
        if let Some(p) = parent_in(parents, t) {
            assert(ancestor(parents, p, k) == match ancestor(parents, p, (k - 1) as nat) {
                Some(a) => parent_in(parents, a),
                None => None,
            });
        }
    }
}

/// A parent that the walk accepts makes no cycle: the tag being edited is
/// none of its ancestors (nor the parent itself), so giving it that parent
/// leaves no tag its own ancestor.
pub proof fn law_accepted_parent_makes_no_cycle(
    parents: Map<i64, Option<i64>>,
    editing: Option<i64>,
    at: i64,
    steps: nat,
)
    requires
        walk_accepts(parents, editing, at, steps),
    ensures
        forall|k: nat| editing is Some ==> #[trigger] ancestor(parents, at, k) != editing,
    decreases MAX_ANCESTOR_STEPS + 1 - steps,
{
    assert forall|k: nat| editing is Some implies #[trigger] ancestor(parents, at, k) != editing by {
        if k > 0 {
            lemma_ancestor_step(parents, at, (k - 1) as nat);
            if let Some(p) = parent_in(parents, at) {
                law_accepted_parent_makes_no_cycle(parents, editing, p, steps + 1);
                assert(ancestor(parents, p, (k - 1) as nat) != editing);
            }
        }
    }
}

/// Whether an insert was refused for its hotkey alone (invalid, reserved
/// or in use), so that a schema import retries it without one.
pub fn refused_for_hotkey(e: &TagError) -> (r: bool)
    ensures
        r == (e is InvalidHotkey || e is ReservedHotkey || e is HotkeyInUse),
{
    match e {
        TagError::InvalidHotkey => true,
        TagError::ReservedHotkey(_) => true,
        TagError::HotkeyInUse(_, _) => true,
        _ => false,
    }
}

/// A tag error as a value of the model: what each variant carries, by view.
pub enum TagErrorView {
    Storage(crate::domain::storage::StorageError),
    NotFound(i64),
    EmptyName,
    EmptyDefinition,
    DuplicateName(Seq<char>),
    InvalidHotkey,
    ReservedHotkey(Seq<char>),
    HotkeyInUse(Seq<char>, Seq<char>),
    InvalidParent,
    Archived,
}

impl View for TagError {
    type V = TagErrorView;

    open spec fn view(&self) -> TagErrorView {
        match self {
            TagError::Storage(e) => TagErrorView::Storage(*e),
            TagError::NotFound(id) => TagErrorView::NotFound(*id),
            TagError::EmptyName => TagErrorView::EmptyName,
            TagError::EmptyDefinition => TagErrorView::EmptyDefinition,
            TagError::DuplicateName(n) => TagErrorView::DuplicateName(n@),
            TagError::InvalidHotkey => TagErrorView::InvalidHotkey,
            TagError::ReservedHotkey(k) => TagErrorView::ReservedHotkey(k@),
            TagError::HotkeyInUse(k, o) => TagErrorView::HotkeyInUse(k@, o@),
            TagError::InvalidParent => TagErrorView::InvalidParent,
            TagError::Archived => TagErrorView::Archived,
        }
    }
}

/// Where the checks that read stored tags stand: what to look up next.
/// They run in order: the name is not another tag's, the hotkey is not
/// another active tag's, the proposed parent exists, is active and is no
/// descendant of the tag edited.
#[derive(Debug, Clone, PartialEq)]
pub enum TagCheck {
    /// Look up the tag named `name`; `hotkey` and `parent_id` come after.
    Name { name: String, hotkey: Option<String>, parent_id: Option<i64> },
    /// Look up the active tag, other than the one edited, whose hotkey
    /// lowercased is `lower` (that of `hotkey`).
    Hotkey { hotkey: String, lower: String, parent_id: Option<i64> },
    /// Look up the proposed parent.
    Parent(i64),
    /// Look up the ancestor `id`, reached after `steps` steps up from the
    /// proposed parent.
    Ancestor { id: i64, steps: u32 },
    /// Every check passed.
    Done,
}

pub enum TagCheckView {
    Name(Seq<char>, Option<Seq<char>>, Option<i64>),
    Hotkey(Seq<char>, Seq<char>, Option<i64>),
    Parent(i64),
    Ancestor(i64, u32),
    Done,
}

pub open spec fn opt_string_view(v: Option<String>) -> Option<Seq<char>> {
    match v {
        None => None,
        Some(s) => Some(s@),
    }
}

impl View for TagCheck {
    type V = TagCheckView;

    open spec fn view(&self) -> TagCheckView {
        match self {
            TagCheck::Name { name, hotkey, parent_id } => TagCheckView::Name(name@, opt_string_view(*hotkey), *parent_id),
            TagCheck::Hotkey { hotkey, lower, parent_id } => TagCheckView::Hotkey(hotkey@, lower@, *parent_id),
            TagCheck::Parent(p) => TagCheckView::Parent(*p),
            TagCheck::Ancestor { id, steps } => TagCheckView::Ancestor(*id, *steps),
            TagCheck::Done => TagCheckView::Done,
        }
    }
}

/// What the store answered to a stage's question.
#[derive(Debug, Clone, PartialEq)]
pub enum StoredFact {
    /// The id of the tag with the name, if there is one.
    NameOwner(Option<i64>),
    /// The name of the active tag using the hotkey, if there is one.
    HotkeyOwner(Option<String>),
    /// The tag looked up, as its parent and whether it is archived; none
    /// when there is no such tag.
    Tag(Option<(Option<i64>, bool)>),
}

pub enum StoredFactView {
    NameOwner(Option<i64>),
    HotkeyOwner(Option<Seq<char>>),
    Tag(Option<(Option<i64>, bool)>),
}

impl View for StoredFact {
    type V = StoredFactView;

    open spec fn view(&self) -> StoredFactView {
        match self {
            StoredFact::NameOwner(o) => StoredFactView::NameOwner(*o),
            StoredFact::HotkeyOwner(o) => StoredFactView::HotkeyOwner(opt_string_view(*o)),
            StoredFact::Tag(t) => StoredFactView::Tag(*t),
        }
    }
}

pub open spec fn check_outcome(r: Result<TagCheck, TagError>) -> Result<TagCheckView, TagErrorView> {
    match r {
        Ok(s) => Ok(s@),
        Err(e) => Err(e@),
    }
}

/// The stage after the hotkey: the proposed parent, or the end.
pub open spec fn after_hotkey_model(parent_id: Option<i64>) -> TagCheckView {
    match parent_id {
        Some(p) => TagCheckView::Parent(p),
        None => TagCheckView::Done,
    }
}

/// The stage after the name: the hotkey's own checks, then its owner.
pub open spec fn after_name_model(hotkey: Option<Seq<char>>, parent_id: Option<i64>) -> Result<TagCheckView, TagErrorView> {
    match hotkey {
        None => Ok(after_hotkey_model(parent_id)),
        Some(h) => if h.len() != 1 {
            Err(TagErrorView::InvalidHotkey)
        } else if is_reserved(unicode_lowercase(h)) {
            Err(TagErrorView::ReservedHotkey(h))
        } else {
            Ok(TagCheckView::Hotkey(h, unicode_lowercase(h), parent_id))
        },
    }
}

/// One step of the walk up from the proposed parent, at `at` (whose parent
/// is `its_parent`) after `steps` steps.
pub open spec fn walk_model(editing: Option<i64>, steps: u32, at: i64, its_parent: Option<i64>) -> Result<TagCheckView, TagErrorView> {
    match parent_step_model(editing, steps as int, at, its_parent) {
        ParentStep::Refuse => Err(TagErrorView::InvalidParent),
        ParentStep::Accept => Ok(TagCheckView::Done),
        ParentStep::Up(q) => Ok(TagCheckView::Ancestor(q, (steps + 1) as u32)),
    }
}

/// The first stage for normalised fields: empty names and definitions are
/// refused before anything is read.
pub open spec fn tag_check_start_model(name: Seq<char>, definition: Seq<char>, hotkey: Option<Seq<char>>, parent_id: Option<i64>) -> Result<TagCheckView, TagErrorView> {
    if name.len() == 0 {
        Err(TagErrorView::EmptyName)
    } else if definition.len() == 0 {
        Err(TagErrorView::EmptyDefinition)
    } else {
        Ok(TagCheckView::Name(name, hotkey, parent_id))
    }
}

/// The next stage, or the refusal, once `fact` answers `stage` for the tag
/// `editing` (none for a new tag). A fact that does not answer the stage's
/// question leaves it as it is.
pub open spec fn tag_check_model(stage: TagCheckView, editing: Option<i64>, fact: StoredFactView) -> Result<TagCheckView, TagErrorView> {
    match (stage, fact) {
        (TagCheckView::Name(name, hotkey, parent_id), StoredFactView::NameOwner(owner)) => if owner is Some && owner
            != editing {
            Err(TagErrorView::DuplicateName(name))
        } else {
            after_name_model(hotkey, parent_id)
        },
        (TagCheckView::Hotkey(hotkey, _, parent_id), StoredFactView::HotkeyOwner(owner)) => match owner {
            Some(o) => Err(TagErrorView::HotkeyInUse(hotkey, o)),
            None => Ok(after_hotkey_model(parent_id)),
        },
        (TagCheckView::Parent(p), StoredFactView::Tag(t)) => match t {
            None => Err(TagErrorView::InvalidParent),
            Some((its_parent, archived)) => if archived {
                Err(TagErrorView::InvalidParent)
            } else {
                walk_model(editing, 0, p, its_parent)
            },
        },
        (TagCheckView::Ancestor(at, steps), StoredFactView::Tag(t)) => match t {
            None => Ok(TagCheckView::Done),
            Some((its_parent, _)) => walk_model(editing, steps, at, its_parent),
        },
        _ => Ok(stage),
    }
}

/// The first stage of the checks of normalised fields.
pub fn tag_check_start(fields: &TagFields) -> (r: Result<TagCheck, TagError>)
    ensures
        check_outcome(r) == tag_check_start_model(
            fields.name@,
            fields.definition@,
            opt_str_view(fields.hotkey),
            fields.parent_id,
        ),
{
    match check_name_and_definition(fields) {
        Err(e) => return Err(e),
        Ok(()) => {},
    }
    let hotkey = match fields.hotkey {
        None => None,
        Some(h) => Some(h.to_owned()),
    };
    Ok(TagCheck::Name { name: fields.name.to_owned(), hotkey, parent_id: fields.parent_id })
}

fn after_hotkey(parent_id: Option<i64>) -> (r: TagCheck)
    ensures
        r@ == after_hotkey_model(parent_id),
{
    match parent_id {
        Some(p) => TagCheck::Parent(p),
        None => TagCheck::Done,
    }
}

fn walk(editing: Option<i64>, steps: u32, at: i64, its_parent: Option<i64>) -> (r: Result<TagCheck, TagError>)
    ensures
        check_outcome(r) == walk_model(editing, steps, at, its_parent),
{
    match parent_step(editing, steps, at, its_parent) {
        ParentStep::Refuse => Err(TagError::InvalidParent),
        ParentStep::Accept => Ok(TagCheck::Done),
        ParentStep::Up(q) => Ok(TagCheck::Ancestor { id: q, steps: steps + 1 }),
    }
}

/// Takes the stored fact that answers `stage` for the tag `editing` (none
/// for a new tag) to the next stage, or to the refusal.
pub fn tag_check_step(stage: TagCheck, editing: Option<i64>, fact: StoredFact) -> (r: Result<TagCheck, TagError>)
    ensures
        check_outcome(r) == tag_check_model(stage@, editing, fact@),
{
    match (stage, fact) {
        (TagCheck::Name { name, hotkey, parent_id }, StoredFact::NameOwner(owner)) => {
            let duplicate = match (owner, editing) {
                (Some(o), Some(e)) => o != e,
                (Some(_), None) => true,
                (None, _) => false,
            };
            if duplicate {
                return Err(TagError::DuplicateName(name));
            }
            match hotkey {
                None => Ok(after_hotkey(parent_id)),
                Some(h) => match check_hotkey(h.as_str()) {
                    Err(e) => Err(e),
                    Ok(lower) => Ok(TagCheck::Hotkey { hotkey: h, lower, parent_id }),
                },
            }
        },
        (TagCheck::Hotkey { hotkey, lower: _, parent_id }, StoredFact::HotkeyOwner(owner)) => match owner {
            Some(o) => Err(TagError::HotkeyInUse(hotkey, o)),
            None => Ok(after_hotkey(parent_id)),
        },
        (TagCheck::Parent(p), StoredFact::Tag(t)) => match t {
            None => Err(TagError::InvalidParent),
            Some((its_parent, archived)) => if archived {
                Err(TagError::InvalidParent)
            } else {
                walk(editing, 0, p, its_parent)
            },
        },
        (TagCheck::Ancestor { id, steps }, StoredFact::Tag(t)) => match t {
            None => Ok(TagCheck::Done),
            Some((its_parent, _)) => walk(editing, steps, id, its_parent),
        },
        (stage, _) => Ok(stage),
    }
}

/// Where a schema import stands. Entries are considered in schema order;
/// once every entry is done, the created tags that name a parent are
/// linked, in the same order.
#[derive(Debug, Clone, PartialEq)]
pub enum ImportPhase {
    /// Entry `i`'s name is being looked up.
    Lookup(usize),
    /// Entry `i` is being inserted, with its hotkey when the flag is set.
    Inserting(usize, bool),
    /// The `k`-th created tag that names a parent is being read.
    ReadTag(usize),
    /// The parent of the `k`-th such tag, stored under the given name, is
    /// being looked up.
    FindParent(usize, String),
    /// The `k`-th such tag, with the given name, is being linked to the
    /// parent with the given id.
    Linking(usize, String, i64),
    /// Nothing is left to do.
    Done,
}

/// A schema import in progress.
#[derive(Debug, Clone, PartialEq)]
pub struct SchemaImportState {
    pub phase: ImportPhase,
    pub outcome: SchemaImport,
    /// The created tags that name a parent, with the parent's trimmed
    /// name, in schema order.
    pub pending: Vec<(i64, String)>,
}

/// What the store answered to the last action.
#[derive(Debug)]
pub enum SchemaImportEvent {
    /// Whether a tag with the entry's name exists.
    NameExists(bool),
    /// The insert gave the new tag's id, or the refusal.
    Inserted(Result<i64, TagError>),
    /// The stored name of the tag read; none when there is no such tag.
    TagRead(Option<String>),
    /// The tag named as the parent, by id and whether it is archived; none
    /// when there is none.
    ParentFound(Option<(i64, bool)>),
    /// The update that sets the parent succeeded, or was refused.
    Linked(Result<(), TagError>),
}

/// What the store is asked next.
#[derive(Debug)]
pub enum SchemaImportAction {
    /// Whether a tag with this name exists.
    LookUpName(String),
    /// Insert schema entry `i` as a top-level tag, with its hotkey when the
    /// flag is set and without it otherwise.
    Insert(usize, bool),
    /// Read the tag with this id.
    ReadTag(i64),
    /// Find the tag with this name.
    FindParent(String),
    /// Give the tag (first id) the parent (second id), keeping its fields.
    Link(i64, i64),
    /// The import is done; its outcome is in the state.
    Finish,
    /// The import stops with this error.
    Fail(TagError),
}

pub enum ImportPhaseView {
    Lookup(int),
    Inserting(int, bool),
    ReadTag(int),
    FindParent(int, Seq<char>),
    Linking(int, Seq<char>, i64),
    Done,
}

pub struct ImportView {
    pub phase: ImportPhaseView,
    pub created: Seq<i64>,
    pub hotkeys_dropped: Seq<Seq<char>>,
    pub parents_dropped: Seq<Seq<char>>,
    pub pending: Seq<(i64, Seq<char>)>,
}

pub enum ImportEventView {
    NameExists(bool),
    Inserted(Result<i64, TagErrorView>),
    TagRead(Option<Seq<char>>),
    ParentFound(Option<(i64, bool)>),
    Linked(Result<(), TagErrorView>),
}

pub enum ImportActionView {
    LookUpName(Seq<char>),
    Insert(int, bool),
    ReadTag(i64),
    FindParent(Seq<char>),
    Link(i64, i64),
    Finish,
    Fail(TagErrorView),
}

pub open spec fn pending_view(p: Seq<(i64, String)>) -> Seq<(i64, Seq<char>)> {
    p.map_values(|e: (i64, String)| (e.0, e.1@))
}

impl View for ImportPhase {
    type V = ImportPhaseView;

    open spec fn view(&self) -> ImportPhaseView {
        match self {
            ImportPhase::Lookup(i) => ImportPhaseView::Lookup(*i as int),
            ImportPhase::Inserting(i, h) => ImportPhaseView::Inserting(*i as int, *h),
            ImportPhase::ReadTag(k) => ImportPhaseView::ReadTag(*k as int),
            ImportPhase::FindParent(k, n) => ImportPhaseView::FindParent(*k as int, n@),
            ImportPhase::Linking(k, n, p) => ImportPhaseView::Linking(*k as int, n@, *p),
            ImportPhase::Done => ImportPhaseView::Done,
        }
    }
}

impl View for SchemaImportState {
    type V = ImportView;

    open spec fn view(&self) -> ImportView {
        ImportView {
            phase: self.phase@,
            created: self.outcome.created@,
            hotkeys_dropped: strs_view(self.outcome.hotkeys_dropped@),
            parents_dropped: strs_view(self.outcome.parents_dropped@),
            pending: pending_view(self.pending@),
        }
    }
}

impl View for SchemaImportEvent {
    type V = ImportEventView;

    open spec fn view(&self) -> ImportEventView {
        match self {
            SchemaImportEvent::NameExists(b) => ImportEventView::NameExists(*b),
            SchemaImportEvent::Inserted(r) => ImportEventView::Inserted(
                match r {
                    Ok(id) => Ok(*id),
                    Err(e) => Err(e@),
                },
            ),
            SchemaImportEvent::TagRead(n) => ImportEventView::TagRead(opt_string_view(*n)),
            SchemaImportEvent::ParentFound(f) => ImportEventView::ParentFound(*f),
            SchemaImportEvent::Linked(r) => ImportEventView::Linked(
                match r {
                    Ok(()) => Ok(()),
                    Err(e) => Err(e@),
                },
            ),
        }
    }
}

impl View for SchemaImportAction {
    type V = ImportActionView;

    open spec fn view(&self) -> ImportActionView {
        match self {
            SchemaImportAction::LookUpName(n) => ImportActionView::LookUpName(n@),
            SchemaImportAction::Insert(i, h) => ImportActionView::Insert(*i as int, *h),
            SchemaImportAction::ReadTag(id) => ImportActionView::ReadTag(*id),
            SchemaImportAction::FindParent(n) => ImportActionView::FindParent(n@),
            SchemaImportAction::Link(id, p) => ImportActionView::Link(*id, *p),
            SchemaImportAction::Finish => ImportActionView::Finish,
            SchemaImportAction::Fail(e) => ImportActionView::Fail(e@),
        }
    }
}

pub open spec fn refused_for_hotkey_view(e: TagErrorView) -> bool {
    e is InvalidHotkey || e is ReservedHotkey || e is HotkeyInUse
}

pub open spec fn with_phase(v: ImportView, phase: ImportPhaseView) -> ImportView {
    ImportView { phase, ..v }
}

/// What the answer `ev` makes of the import `v`: an entry whose name
/// exists is skipped; an insert refused for its hotkey alone is tried
/// again without it, and the entry's name noted; a created tag that names
/// a parent waits to be linked; a tag whose parent is missing or archived,
/// or whose link is refused as an invalid parent, stays at the top level
/// and its name is noted. Any other refusal stops the import. An answer
/// that does not fit the phase changes nothing.
pub open spec fn import_transition(schema: Seq<TagSchema>, v: ImportView, ev: ImportEventView) -> Result<ImportView, TagErrorView> {
    match (v.phase, ev) {
        (ImportPhaseView::Lookup(i), ImportEventView::NameExists(exists)) => if 0 <= i < schema.len() {
            Ok(with_phase(v, if exists { ImportPhaseView::Lookup(i + 1) } else { ImportPhaseView::Inserting(i, true) }))
        } else {
            Ok(v)
        },
        (ImportPhaseView::Inserting(i, with_hotkey), ImportEventView::Inserted(res)) => if 0 <= i < schema.len() {
            match res {
                Ok(id) => Ok(
                    ImportView {
                        phase: ImportPhaseView::Lookup(i + 1),
                        created: v.created.push(id),
                        pending: match schema[i].parent {
                            Some(p) => v.pending.push((id, trim(p@))),
                            None => v.pending,
                        },
                        ..v
                    },
                ),
                Err(e) => if with_hotkey && refused_for_hotkey_view(e) {
                    Ok(
                        ImportView {
                            phase: ImportPhaseView::Inserting(i, false),
                            hotkeys_dropped: v.hotkeys_dropped.push(trim(schema[i].name@)),
                            ..v
                        },
                    )
                } else {
                    Err(e)
                },
            }
        } else {
            Ok(v)
        },
        (ImportPhaseView::ReadTag(k), ImportEventView::TagRead(name)) => if 0 <= k < v.pending.len() {
            match name {
                None => Err(TagErrorView::NotFound(v.pending[k].0)),
                Some(n) => Ok(with_phase(v, ImportPhaseView::FindParent(k, n))),
            }
        } else {
            Ok(v)
        },
        (ImportPhaseView::FindParent(k, n), ImportEventView::ParentFound(found)) => if 0 <= k < v.pending.len() {
            match found {
                Some((p, false)) => Ok(with_phase(v, ImportPhaseView::Linking(k, n, p))),
                _ => Ok(
                    ImportView { phase: ImportPhaseView::ReadTag(k + 1), parents_dropped: v.parents_dropped.push(n), ..v },
                ),
            }
        } else {
            Ok(v)
        },
        (ImportPhaseView::Linking(k, n, _), ImportEventView::Linked(res)) => if 0 <= k < v.pending.len() {
            match res {
                Ok(()) => Ok(with_phase(v, ImportPhaseView::ReadTag(k + 1))),
                Err(e) => if e is InvalidParent {
                    Ok(
                        ImportView {
                            phase: ImportPhaseView::ReadTag(k + 1),
                            parents_dropped: v.parents_dropped.push(n),
                            ..v
                        },
                    )
                } else {
                    Err(e)
                },
            }
        } else {
            Ok(v)
        },
        _ => Ok(v),
    }
}

/// Moves past what is finished: after the last entry to the first tag to
/// link, after the last tag to link to the end.
pub open spec fn settle_import(schema_len: int, v: ImportView) -> ImportView {
    let v1 = match v.phase {
        ImportPhaseView::Lookup(i) => if 0 <= i < schema_len {
            v
        } else {
            with_phase(v, ImportPhaseView::ReadTag(0))
        },
        ImportPhaseView::Inserting(i, _) => if 0 <= i < schema_len {
            v
        } else {
            with_phase(v, ImportPhaseView::Done)
        },
        _ => v,
    };
    match v1.phase {
        ImportPhaseView::ReadTag(k) => if 0 <= k < v1.pending.len() {
            v1
        } else {
            with_phase(v1, ImportPhaseView::Done)
        },
        ImportPhaseView::FindParent(k, _) => if 0 <= k < v1.pending.len() {
            v1
        } else {
            with_phase(v1, ImportPhaseView::Done)
        },
        ImportPhaseView::Linking(k, _, _) => if 0 <= k < v1.pending.len() {
            v1
        } else {
            with_phase(v1, ImportPhaseView::Done)
        },
        _ => v1,
    }
}

/// The question a phase asks of the store.
pub open spec fn import_action(schema: Seq<TagSchema>, v: ImportView) -> ImportActionView {
    match v.phase {
        ImportPhaseView::Lookup(i) => ImportActionView::LookUpName(trim(schema[i].name@)),
        ImportPhaseView::Inserting(i, h) => ImportActionView::Insert(i, h),
        ImportPhaseView::ReadTag(k) => ImportActionView::ReadTag(v.pending[k].0),
        ImportPhaseView::FindParent(k, _) => ImportActionView::FindParent(v.pending[k].1),
        ImportPhaseView::Linking(k, _, p) => ImportActionView::Link(v.pending[k].0, p),
        ImportPhaseView::Done => ImportActionView::Finish,
    }
}

/// The import's first state and question: nothing created yet, the first
/// entry's name looked up (or, for an empty schema, the end).
pub open spec fn schema_import_start_model(schema: Seq<TagSchema>) -> (ImportView, ImportActionView) {
    let s = settle_import(
        schema.len() as int,
        ImportView {
            phase: ImportPhaseView::Lookup(0),
            created: Seq::empty(),
            hotkeys_dropped: Seq::empty(),
            parents_dropped: Seq::empty(),
            pending: Seq::empty(),
        },
    );
    (s, import_action(schema, s))
}

/// The next state and question once `ev` answers the last one; a refusal
/// that stops the import ends it with that error.
pub open spec fn schema_import_model(schema: Seq<TagSchema>, v: ImportView, ev: ImportEventView) -> (ImportView, ImportActionView) {
    match import_transition(schema, v, ev) {
        Err(e) => (with_phase(v, ImportPhaseView::Done), ImportActionView::Fail(e)),
        Ok(w) => {
            let s = settle_import(schema.len() as int, w);
            (s, import_action(schema, s))
        },
    }
}

fn settle(schema_len: usize, st: SchemaImportState) -> (r: SchemaImportState)
    ensures
        r@ == settle_import(schema_len as int, st@),
{
    let SchemaImportState { phase, outcome, pending } = st;
    let phase = match phase {
        ImportPhase::Lookup(i) => if i < schema_len {
            ImportPhase::Lookup(i)
        } else {
            ImportPhase::ReadTag(0)
        },
        ImportPhase::Inserting(i, h) => if i < schema_len {
            ImportPhase::Inserting(i, h)
        } else {
            ImportPhase::Done
        },
        other => other,
    };
    let n = pending.len();
    let phase = match phase {
        ImportPhase::ReadTag(k) => if k < n {
            ImportPhase::ReadTag(k)
        } else {
            ImportPhase::Done
        },
        ImportPhase::FindParent(k, name) => if k < n {
            ImportPhase::FindParent(k, name)
        } else {
            ImportPhase::Done
        },
        ImportPhase::Linking(k, name, p) => if k < n {
            ImportPhase::Linking(k, name, p)
        } else {
            ImportPhase::Done
        },
        other => other,
    };
    SchemaImportState { phase, outcome, pending }
}

/// Every index the phase holds is in range.
pub open spec fn import_settled(schema_len: int, v: ImportView) -> bool {
    match v.phase {
        ImportPhaseView::Lookup(i) => 0 <= i < schema_len,
        ImportPhaseView::Inserting(i, _) => 0 <= i < schema_len,
        ImportPhaseView::ReadTag(k) => 0 <= k < v.pending.len(),
        ImportPhaseView::FindParent(k, _) => 0 <= k < v.pending.len(),
        ImportPhaseView::Linking(k, _, _) => 0 <= k < v.pending.len(),
        ImportPhaseView::Done => true,
    }
}

fn action_for(schema: &[TagSchema], st: &SchemaImportState) -> (r: SchemaImportAction)
    requires
        import_settled(schema@.len() as int, st@),
    ensures
        r@ == import_action(schema@, st@),
{
    match &st.phase {
        ImportPhase::Lookup(i) => SchemaImportAction::LookUpName(trim_str(schema[*i].name.as_str()).to_owned()),
        ImportPhase::Inserting(i, h) => SchemaImportAction::Insert(*i, *h),
        ImportPhase::ReadTag(k) => {
            proof {
                assert(pending_view(st.pending@)[*k as int] == (st.pending@[*k as int].0, st.pending@[*k as int].1@));
            }
            SchemaImportAction::ReadTag(st.pending[*k].0)
        },
        ImportPhase::FindParent(k, _) => {
            proof {
                assert(pending_view(st.pending@)[*k as int] == (st.pending@[*k as int].0, st.pending@[*k as int].1@));
            }
            SchemaImportAction::FindParent(st.pending[*k].1.clone())
        },
        ImportPhase::Linking(k, _, p) => {
            proof {
                assert(pending_view(st.pending@)[*k as int] == (st.pending@[*k as int].0, st.pending@[*k as int].1@));
            }
            SchemaImportAction::Link(st.pending[*k].0, *p)
        },
        ImportPhase::Done => SchemaImportAction::Finish,
    }
}

/// Starts an import of `schema`.
pub fn schema_import_start(schema: &[TagSchema]) -> (r: (SchemaImportState, SchemaImportAction))
    ensures
        (r.0@, r.1@) == schema_import_start_model(schema@),
{
    let st = SchemaImportState {
        phase: ImportPhase::Lookup(0),
        outcome: SchemaImport { created: Vec::new(), hotkeys_dropped: Vec::new(), parents_dropped: Vec::new() },
        pending: Vec::new(),
    };
    assert(strs_view(st.outcome.hotkeys_dropped@) =~= Seq::empty());
    assert(strs_view(st.outcome.parents_dropped@) =~= Seq::empty());
    assert(pending_view(st.pending@) =~= Seq::empty());
    let st = settle(schema.len(), st);
    let a = action_for(schema, &st);
    (st, a)
}

fn push_name(v: &mut Vec<String>, s: String)
    ensures
        strs_view(final(v)@) == strs_view(old(v)@).push(s@),
{
    v.push(s);
    assert(strs_view(v@) =~= strs_view(old(v)@).push(s@));
}

fn push_pending(v: &mut Vec<(i64, String)>, id: i64, s: String)
    ensures
        pending_view(final(v)@) == pending_view(old(v)@).push((id, s@)),
{
    v.push((id, s));
    assert(pending_view(v@) =~= pending_view(old(v)@).push((id, s@)));
}

/// The state after the answer, and the error that stops the import (the
/// state then unchanged).
fn import_apply(schema: &[TagSchema], st: SchemaImportState, event: SchemaImportEvent) -> (r: (SchemaImportState, Option<TagError>))
    ensures
        match r.1 {
            Some(e) => import_transition(schema@, st@, event@) == Err::<ImportView, TagErrorView>(e@) && r.0@ == st@,
            None => import_transition(schema@, st@, event@) == Ok::<ImportView, TagErrorView>(r.0@),
        },
{
    let ghost v = st@;
    let SchemaImportState { phase, outcome, pending } = st;
    let SchemaImport { created, hotkeys_dropped, parents_dropped } = outcome;
    let mut created = created;
    let mut hotkeys_dropped = hotkeys_dropped;
    let mut parents_dropped = parents_dropped;
    let mut pending = pending;
    let (phase, failure) = match (phase, event) {
        (ImportPhase::Lookup(i), SchemaImportEvent::NameExists(exists)) => if i < schema.len() {
            if exists {
                (ImportPhase::Lookup(i + 1), None)
            } else {
                (ImportPhase::Inserting(i, true), None)
            }
        } else {
            (ImportPhase::Lookup(i), None)
        },
        (ImportPhase::Inserting(i, with_hotkey), SchemaImportEvent::Inserted(res)) => if i < schema.len() {
            match res {
                Ok(id) => {
                    created.push(id);
                    match &schema[i].parent {
                        Some(p) => push_pending(&mut pending, id, trim_str(p.as_str()).to_owned()),
                        None => {},
                    }
                    (ImportPhase::Lookup(i + 1), None)
                },
                Err(e) => if with_hotkey && refused_for_hotkey(&e) {
                    push_name(&mut hotkeys_dropped, trim_str(schema[i].name.as_str()).to_owned());
                    (ImportPhase::Inserting(i, false), None)
                } else {
                    (ImportPhase::Inserting(i, with_hotkey), Some(e))
                },
            }
        } else {
            (ImportPhase::Inserting(i, with_hotkey), None)
        },
        (ImportPhase::ReadTag(k), SchemaImportEvent::TagRead(name)) => if k < pending.len() {
            proof {
                assert(pending_view(pending@)[k as int] == (pending@[k as int].0, pending@[k as int].1@));
            }
            match name {
                None => (ImportPhase::ReadTag(k), Some(TagError::NotFound(pending[k].0))),
                Some(n) => (ImportPhase::FindParent(k, n), None),
            }
        } else {
            (ImportPhase::ReadTag(k), None)
        },
        (ImportPhase::FindParent(k, n), SchemaImportEvent::ParentFound(found)) => if k < pending.len() {
            match found {
                Some((p, false)) => (ImportPhase::Linking(k, n, p), None),
                _ => {
                    push_name(&mut parents_dropped, n);
                    (ImportPhase::ReadTag(k + 1), None)
                },
            }
        } else {
            (ImportPhase::FindParent(k, n), None)
        },
        (ImportPhase::Linking(k, n, p), SchemaImportEvent::Linked(res)) => if k < pending.len() {
            match res {
                Ok(()) => (ImportPhase::ReadTag(k + 1), None),
                Err(e) => match e {
                    TagError::InvalidParent => {
                        push_name(&mut parents_dropped, n);
                        (ImportPhase::ReadTag(k + 1), None)
                    },
                    e => (ImportPhase::Linking(k, n, p), Some(e)),
                },
            }
        } else {
            (ImportPhase::Linking(k, n, p), None)
        },
        (phase, _) => (phase, None),
    };
    (SchemaImportState { phase, outcome: SchemaImport { created, hotkeys_dropped, parents_dropped }, pending }, failure)
}

/// Takes the store's answer to the last action to the next state and
/// action.
pub fn schema_import_step(schema: &[TagSchema], state: SchemaImportState, event: SchemaImportEvent) -> (r: (
    SchemaImportState,
    SchemaImportAction,
))
    ensures
        (r.0@, r.1@) == schema_import_model(schema@, state@, event@),
{
    let (st, failure) = import_apply(schema, state, event);
    match failure {
        Some(e) => {
            let SchemaImportState { phase: _, outcome, pending } = st;
            (SchemaImportState { phase: ImportPhase::Done, outcome, pending }, SchemaImportAction::Fail(e))
        },
        None => {
            let st = settle(schema.len(), st);
            let a = action_for(schema, &st);
            (st, a)
        },
    }
}

} // verus!
